use vstd::prelude::*;
use vstd::string::StringSliceAdditionalSpecFns;
use crate::console::{Cons, ConsView, CONSBUFSIZE};

verus! {

pub const COM1: u16 = 0x3F8;
pub const COM_RX: u16 = 0x00;
pub const COM_TX: u16 = 0x00;
pub const LSR_DATA: u8 = 0x01;

/// The registers of an 8250 UART.
#[derive(Clone, Copy, Debug)]
pub enum Register {
    Rbr,
    Thr,
    Dll,
    Dlm,
    Ier,
    Iir,
    Fcr,
    Lcr,
    Mcr,
    Lsr,
}

impl Register {
    /// The register's offset from the port's base address.
    pub open spec fn offset(self) -> u16 {
        match self {
            Register::Rbr => 0,
            Register::Thr => 0,
            Register::Dll => 0,
            Register::Dlm => 1,
            Register::Ier => 1,
            Register::Iir => 2,
            Register::Fcr => 2,
            Register::Lcr => 3,
            Register::Mcr => 4,
            Register::Lsr => 5,
        }
    }

    pub fn value(&self) -> (r: u16)
        ensures
            r == self.offset(),
    {
        match self {
            Register::Rbr => 0,
            Register::Thr => 0,
            Register::Dll => 0,
            Register::Dlm => 1,
            Register::Ier => 1,
            Register::Iir => 2,
            Register::Fcr => 2,
            Register::Lcr => 3,
            Register::Mcr => 4,
            Register::Lsr => 5,
        }
    }

    /// The line control value that turns the divisor latch on, keeping
    /// only that bit of `other` (all bits when absent).
    pub fn dlab_on(other: Option<u8>) -> (r: u8)
        ensures
            r == 0x80u8 & (match other { Some(o) => o, None => 0xFFu8 }),
    {
        0x80 & other.unwrap_or(0xFF)
    }

    /// The line control value that turns the divisor latch off, keeping the
    /// other bits of `other` (all bits when absent).
    pub fn dlab_off(other: Option<u8>) -> (r: u8)
        ensures
            r == !0x80u8 & (match other { Some(o) => o, None => 0xFFu8 }),
    {
        !0x80u8 & other.unwrap_or(0xFF)
    }
}

/// The serial port.
pub struct Uart {
    pub serial_exists: bool,
}

/// The value `serial_proc_data` gives for a received byte: carriage return
/// and line feed become `\n`.
pub open spec fn proc_data_of(d: u8) -> i32 {
    if d == 13 || d == 10 {
        10
    } else {
        d as i32
    }
}

/// The byte sent for a byte to print: backspace and delete erase the last
/// character with a backspace.
pub open spec fn tx_byte(b: u8) -> u8 {
    if b == 8 || b == 127 {
        8
    } else {
        b
    }
}

/// The console ring after the received bytes `bs`: each byte but a zero
/// stored, carriage returns as `\n`.
pub open spec fn received_into(c: ConsView, bs: Seq<u8>) -> ConsView
    decreases bs.len(),
{
    if bs.len() == 0 {
        c
    } else {
        let prev = received_into(c, bs.drop_last());
        if proc_data_of(bs.last()) == 0 {
            prev
        } else {
            prev.put(proc_data_of(bs.last()) as u8)
        }
    }
}

impl Uart {
    /// Records whether the port exists from its line status register, read
    /// after programming it: a port that is absent reads all ones.
    pub fn init(&mut self, lsr: u8)
        ensures
            final(self).serial_exists == (lsr != 0xFF),
    {
        self.serial_exists = lsr != 0xFF;
    }

    /// The next received character: `-1` when the line status said no data
    /// (`data` is `None`), else the byte with carriage return and line feed
    /// made `\n`.
    pub fn serial_proc_data(&mut self, data: Option<u8>) -> (r: i32)
        ensures
            r == (match data { Some(d) => proc_data_of(d), None => -1i32 }),
            final(self).serial_exists == old(self).serial_exists,
    {
        match data {
            None => -1,
            Some(d) => {
                let mut data = d as i32;
                if data == 13 || data == 10 {
                    data = 10;
                }
                data
            },
        }
    }

    /// Stores the bytes received until the port had no more, except zeros,
    /// in the console ring.
    pub fn handle_interrupt(&mut self, cons: &mut Cons, received: &Vec<u8>)
        requires
            old(cons)@.wf(),
        ensures
            final(cons)@.wf(),
            final(cons)@ == received_into(old(cons)@, received@),
            final(cons)@.rpos == old(cons)@.rpos,
            final(cons)@.wpos == (old(cons)@.wpos + nonzero_bytes(received@).len()) % (CONSBUFSIZE as int),
            final(self).serial_exists == old(self).serial_exists,
    {
        let mut i: usize = 0;
        while i < received.len()
            invariant
                i <= received@.len(),
                cons@.wf(),
                cons@ == received_into(old(cons)@, received@.take(i as int)),
                self.serial_exists == old(self).serial_exists,
            decreases received@.len() - i,
        {
            let c = self.serial_proc_data(Some(received[i]));
            proof {
                assert(received@.take(i + 1).drop_last() =~= received@.take(i as int));
            }
            if c != 0 {
                cons.put(c as u8);
            }
            i = i + 1;
        }
        proof {
            assert(received@.take(received@.len() as int) =~= received@);
            lemma_received_count(old(cons)@, received@);
        }
    }

    /// The byte to send for `c`: a backspace for backspace and delete, else
    /// the low byte of `c`.
    pub fn putc(&mut self, c: char) -> (r: u8)
        ensures
            r == (if c == '\x08' || c == '\x7F' { 8u8 } else { ((c as u32) % 256) as u8 }),
            final(self).serial_exists == old(self).serial_exists,
    {
        if c == '\x08' || c == '\x7F' {
            return 8;
        }
        let cc = c as u32;
        assert(cc & 0xFF == cc % 256) by (bit_vector);
        (cc & 0xFF) as u8
    }

    /// The bytes to send to print `s`.
    pub fn print(&mut self, s: &str) -> (r: Vec<u8>)
        ensures
            r@ == s.spec_bytes().map_values(|b: u8| tx_byte(b)),
            r@.len() == s.spec_bytes().len(),
            forall|i: int|
                0 <= i < r@.len() ==> #[trigger] r@[i] == (if s.spec_bytes()[i] == 8 || s.spec_bytes()[i] == 127 {
                    8u8
                } else {
                    s.spec_bytes()[i]
                }),
            final(self).serial_exists == old(self).serial_exists,
    {
        let bytes = s.as_bytes();
        let mut out: Vec<u8> = Vec::new();
        let mut i: usize = 0;
        while i < bytes.len()
            invariant
                bytes@ == s.spec_bytes(),
                i <= bytes@.len(),
                out@ == bytes@.take(i as int).map_values(|b: u8| tx_byte(b)),
            decreases bytes@.len() - i,
        {
            let b = bytes[i];
            if b == 8 || b == 127 {
                out.push(8);
            } else {
                out.push(b);
            }
            proof {
                assert(out@ =~= bytes@.take(i + 1).map_values(|b: u8| tx_byte(b)));
            }
            i = i + 1;
        }
        proof {
            assert(bytes@.take(bytes@.len() as int) =~= bytes@);
        }
        out
    }
}

/// Every byte but backspace and delete is sent as it is; those two are sent
/// as a backspace.
pub proof fn lemma_tx_byte(b: u8)
    ensures
        b != 8 && b != 127 ==> tx_byte(b) == b,
        b == 8 || b == 127 ==> tx_byte(b) == 8,
{
}

/// The received bytes go into the ring one after another: a zero is
/// skipped, carriage return and line feed are stored as a line feed, and
/// every other byte is stored as it is, whatever came before it.
pub proof fn lemma_received_push(c: ConsView, bs: Seq<u8>, b: u8)
    ensures
        b == 0 ==> received_into(c, bs.push(b)) == received_into(c, bs),
        b == 13 || b == 10 ==> received_into(c, bs.push(b)) == received_into(c, bs).put(10),
        b != 0 && b != 13 && b != 10 ==> received_into(c, bs.push(b)) == received_into(c, bs).put(b),
{
    assert(bs.push(b).drop_last() =~= bs);
}

/// The nonzero bytes of `bs`.
pub open spec fn nonzero_bytes(bs: Seq<u8>) -> Seq<u8> {
    bs.filter(|b: u8| b != 0)
}

/// Receiving bytes moves the ring's write position on by the number of
/// nonzero bytes and leaves its read position alone.
pub proof fn lemma_received_count(c: ConsView, bs: Seq<u8>)
    requires
        c.wf(),
    ensures
        received_into(c, bs).wf(),
        received_into(c, bs).rpos == c.rpos,
        received_into(c, bs).wpos == (c.wpos + nonzero_bytes(bs).len()) % (CONSBUFSIZE as int),
    decreases bs.len(),
{
    reveal(Seq::filter);
    if bs.len() > 0 {
        lemma_received_count(c, bs.drop_last());
        let prev = received_into(c, bs.drop_last());
        let n0 = nonzero_bytes(bs.drop_last()).len();
        assert(nonzero_bytes(bs) == bs.drop_last().filter(|b: u8| b != 0) + (if bs.last() != 0 {
            seq![bs.last()]
        } else {
            Seq::<u8>::empty()
        }));
        if bs.last() != 0 {
            assert(nonzero_bytes(bs).len() == n0 + 1);
            assert((c.wpos + n0) % 512 + 1 < 0x1_0000_0000);
            assert(((c.wpos + n0) % 512 + 1) % 512 == (c.wpos + n0 + 1) % 512) by (nonlinear_arith);
        } else {
            assert(nonzero_bytes(bs).len() == n0);
        }
    }
}

} // verus!
