use vstd::prelude::*;
use crate::drivers::kbc::{kbc_intr, keycode_of, keymap_byte, KEYMAP};

verus! {

pub const CONSBUFSIZE: usize = 512;

/// The console input ring: characters are stored at `wpos` and read back
/// from `rpos`, both wrapping at `CONSBUFSIZE`.
pub struct Cons {
    pub buf: Vec<u8>,
    pub rpos: u32,
    pub wpos: u32,
}

/// The abstract console ring.
pub struct ConsView {
    pub buf: Seq<u8>,
    pub rpos: u32,
    pub wpos: u32,
}

impl View for Cons {
    type V = ConsView;

    open spec fn view(&self) -> ConsView {
        ConsView { buf: self.buf@, rpos: self.rpos, wpos: self.wpos }
    }
}

impl ConsView {
    pub open spec fn wf(self) -> bool {
        &&& self.buf.len() == CONSBUFSIZE
        &&& self.rpos < CONSBUFSIZE
        &&& self.wpos < CONSBUFSIZE
    }

    /// The ring with `c` stored at the write position, which moves on.
    pub open spec fn put(self, c: u8) -> ConsView {
        ConsView {
            buf: self.buf.update(self.wpos as int, c),
            wpos: ((self.wpos + 1) % (CONSBUFSIZE as int)) as u32,
            ..self
        }
    }

    /// The ring after the keyboard delivered `data` (see `kbc_intr`).
    pub open spec fn keyed(self, data: Option<u8>) -> ConsView {
        match keycode_of(data) {
            Some(k) => self.put(keymap_byte(k)),
            None => self,
        }
    }

    /// The ring with the character at the read position consumed, if the
    /// ring holds one, and that character.
    pub open spec fn got(self) -> (ConsView, Option<char>) {
        if self.rpos != self.wpos {
            (
                ConsView { rpos: ((self.rpos + 1) % (CONSBUFSIZE as int)) as u32, ..self },
                Some(self.buf[self.rpos as int] as char),
            )
        } else {
            (self, None)
        }
    }
}

impl Cons {
    /// An empty ring filled with the character `0`.
    pub fn new() -> (r: Cons)
        ensures
            r@.wf(),
            r@.rpos == 0,
            r@.wpos == 0,
            r@.buf == Seq::new(CONSBUFSIZE as nat, |i: int| 0x30u8),
    {
        let buf = vec![0x30u8; CONSBUFSIZE];
        let r = Cons { buf, rpos: 0, wpos: 0 };
        proof {
            assert(r@.buf =~= Seq::new(CONSBUFSIZE as nat, |i: int| 0x30u8));
        }
        r
    }

    /// Stores `c` at the write position and moves it on.
    pub fn put(&mut self, c: u8)
        requires
            old(self)@.wf(),
        ensures
            final(self)@.wf(),
            final(self)@ == old(self)@.put(c),
            final(self)@.buf == old(self)@.buf.update(old(self)@.wpos as int, c),
            final(self)@.wpos == (old(self)@.wpos + 1) % 512,
            final(self)@.rpos == old(self)@.rpos,
    {
        self.buf.set(self.wpos as usize, c);
        self.wpos = (self.wpos + 1) % (CONSBUFSIZE as u32);
    }
}

/// Takes the keyboard's `data` into the ring, then reads the next
/// character from it, if there is one.
pub fn cons_getc(cons: &mut Cons, kbc_data: Option<u8>) -> (r: Option<char>)
    requires
        old(cons)@.wf(),
    ensures
        final(cons)@.wf(),
        (final(cons)@, r) == old(cons)@.keyed(kbc_data).got(),
        ({
            let k = old(cons)@.keyed(kbc_data);
            &&& k.rpos != k.wpos ==> r == Some(k.buf[k.rpos as int] as char) && final(cons)@.rpos == (k.rpos + 1) % 512
                && final(cons)@.wpos == k.wpos && final(cons)@.buf == k.buf
            &&& k.rpos == k.wpos ==> r is None && final(cons)@ == k
        }),
{
    kbc_intr(cons, kbc_data);
    if cons.rpos != cons.wpos {
        let c = cons.buf[cons.rpos as usize];
        cons.rpos = (cons.rpos + 1) % (CONSBUFSIZE as u32);
        return Some(c as char);
    }
    return None;
}

/// A character stored in an empty ring is the next one read, and reading
/// it leaves the ring empty again.
pub proof fn lemma_ring_put_get(c: ConsView, b: u8)
    requires
        c.wf(),
        c.rpos == c.wpos,
    ensures
        c.put(b).got().1 == Some(b as char),
        c.put(b).got().0.rpos == c.put(b).got().0.wpos,
        c.put(b).got().0.wf(),
{
}

/// Two characters stored in an empty ring are read back in the order they
/// were stored.
pub proof fn lemma_ring_fifo(c: ConsView, a: u8, b: u8)
    requires
        c.wf(),
        c.rpos == c.wpos,
    ensures
        c.put(a).put(b).got().1 == Some(a as char),
        c.put(a).put(b).got().0.got().1 == Some(b as char),
        c.put(a).put(b).got().0.got().0.rpos == c.put(a).put(b).got().0.got().0.wpos,
{
}

/// Reading an empty ring gives nothing and changes nothing.
pub proof fn lemma_ring_empty(c: ConsView)
    requires
        c.rpos == c.wpos,
    ensures
        c.got() == (c, None::<char>),
{
}

/// A key pressed on an empty ring is read straight back: a make code gives
/// its character in the keymap, a break code or no data gives nothing and
/// leaves the ring as it was.
pub proof fn lemma_key_read_back(c: ConsView, data: Option<u8>)
    requires
        c.wf(),
        c.rpos == c.wpos,
    ensures
        forall|k: u8| data == Some(k) && k < 0x80 ==> c.keyed(data).got().1 == Some((KEYMAP@[k as int] as u8) as char),
        forall|k: u8| data == Some(k) && k < 0x80 ==> c.keyed(data).got().0.rpos == c.keyed(data).got().0.wpos,
        (data is None || data->0 >= 0x80) ==> c.keyed(data).got() == (c, None::<char>),
{
}

} // verus!
