use vstd::prelude::*;
use crate::console::{Cons, ConsView};

verus! {

/// What the monitor shows after a character: the character echoed, if it
/// is, and whether a new prompt follows.
#[derive(Clone, Copy, Debug)]
pub struct MonitorOutput {
    pub echo: Option<char>,
    pub prompt: bool,
}

/// The console ring after a prompt: both positions just past `K>`.
pub open spec fn prompted(c: ConsView) -> ConsView {
    ConsView { rpos: 2, wpos: 2, ..c }
}

/// Shows a prompt: the caller prints `K>`, and the console ring's positions
/// are set just past it.
pub fn monitor_prompt(cons: &mut Cons)
    requires
        old(cons)@.wf(),
    ensures
        final(cons)@.wf(),
        final(cons)@ == prompted(old(cons)@),
{
    cons.wpos = 2;
    cons.rpos = 2;
}

/// What the monitor shows for the character `ch` read with the console ring
/// in state `c`: a backspace at the prompt shows nothing; any other
/// character is echoed, and a newline brings a new prompt.
pub open spec fn monitor_out(c: ConsView, ch: char) -> MonitorOutput {
    if ch == '\x08' && c.rpos <= 3 {
        MonitorOutput { echo: None, prompt: false }
    } else {
        MonitorOutput { echo: Some(ch), prompt: ch == '\n' }
    }
}

/// The characters an output puts on the console: the echoed character,
/// then the prompt `K>` if a new one follows.
pub open spec fn shown(o: MonitorOutput) -> Seq<char> {
    (match o.echo {
        Some(ch) => seq![ch],
        None => Seq::empty(),
    }) + (if o.prompt { seq!['K', '>'] } else { Seq::empty() })
}

/// What a monitor session shows: the first prompt, then the output of each
/// step, the `i`-th key being read with the console ring in state
/// `rings[i]`.
pub open spec fn session(rings: Seq<ConsView>, keys: Seq<char>) -> Seq<char>
    decreases keys.len(),
{
    if keys.len() == 0 {
        seq!['K', '>']
    } else {
        session(rings, keys.drop_last()) + shown(monitor_out(rings[keys.len() - 1], keys.last()))
    }
}

/// `s` without its backspaces.
pub open spec fn without_bs(s: Seq<char>) -> Seq<char>
    decreases s.len(),
{
    if s.len() == 0 {
        Seq::empty()
    } else {
        without_bs(s.drop_last()) + (if s.last() == '\x08' { Seq::empty() } else { seq![s.last()] })
    }
}

/// The keys other than backspaces, in order, each newline followed by the
/// prompt `K>`.
pub open spec fn echoed(keys: Seq<char>) -> Seq<char>
    decreases keys.len(),
{
    if keys.len() == 0 {
        Seq::empty()
    } else {
        echoed(keys.drop_last()) + (if keys.last() == '\x08' {
            Seq::empty()
        } else if keys.last() == '\n' {
            seq!['\n', 'K', '>']
        } else {
            seq![keys.last()]
        })
    }
}

/// Dropping backspaces from two pieces one after the other.
proof fn lemma_without_bs_add(a: Seq<char>, b: Seq<char>)
    ensures
        without_bs(a + b) == without_bs(a) + without_bs(b),
    decreases b.len(),
{
    if b.len() == 0 {
        assert(a + b =~= a);
        assert(without_bs(a) + without_bs(b) =~= without_bs(a));
    } else {
        lemma_without_bs_add(a, b.drop_last());
        assert((a + b).drop_last() =~= a + b.drop_last());
        assert((a + b).last() == b.last());
        let t = if b.last() == '\x08' { Seq::<char>::empty() } else { seq![b.last()] };
        assert(without_bs(a) + without_bs(b.drop_last()) + t =~= without_bs(a) + (without_bs(b.drop_last()) + t));
    }
}

/// A monitor session shows the prompt `K>`, then echoes every key but the
/// backspaces in the order they were typed, each newline followed by a new
/// prompt; besides these it shows only backspaces, whatever the console
/// ring holds at each step.
pub proof fn lemma_monitor_session(rings: Seq<ConsView>, keys: Seq<char>)
    requires
        rings.len() >= keys.len(),
    ensures
        without_bs(session(rings, keys)) == seq!['K', '>'] + echoed(keys),
    decreases keys.len(),
{
    if keys.len() == 0 {
        reveal_with_fuel(without_bs, 3);
        assert(seq!['K', '>'].drop_last() =~= seq!['K']);
        assert(seq!['K'].drop_last() =~= Seq::<char>::empty());
        assert(without_bs(seq!['K', '>']) =~= seq!['K', '>']);
        assert(seq!['K', '>'] + echoed(keys) =~= seq!['K', '>']);
    } else {
        let n = keys.len() - 1;
        let k = keys.last();
        lemma_monitor_session(rings, keys.drop_last());
        let o = monitor_out(rings[n], k);
        lemma_without_bs_add(session(rings, keys.drop_last()), shown(o));
        let step = if k == '\x08' {
            Seq::<char>::empty()
        } else if k == '\n' {
            seq!['\n', 'K', '>']
        } else {
            seq![k]
        };
        reveal_with_fuel(without_bs, 4);
        if k == '\x08' {
            if rings[n].rpos <= 3 {
                assert(shown(o) =~= Seq::<char>::empty());
            } else {
                assert(shown(o) =~= seq!['\x08']);
                assert(seq!['\x08'].drop_last() =~= Seq::<char>::empty());
            }
        } else if k == '\n' {
            let s3 = seq!['\n', 'K', '>'];
            assert(shown(o) =~= s3);
            assert(s3.drop_last() =~= seq!['\n', 'K']);
            assert(seq!['\n', 'K'].drop_last() =~= seq!['\n']);
            assert(seq!['\n'].drop_last() =~= Seq::<char>::empty());
            assert(without_bs(seq!['\n']) =~= seq!['\n']);
            assert(without_bs(seq!['\n', 'K']) =~= seq!['\n', 'K']);
            assert(without_bs(s3) =~= s3);
        } else {
            assert(shown(o) =~= seq![k]);
            assert(seq![k].drop_last() =~= Seq::<char>::empty());
        }
        assert(without_bs(shown(o)) == step);
        assert(seq!['K', '>'] + echoed(keys.drop_last()) + step =~= seq!['K', '>'] + echoed(keys));
    }
}

/// One step of the monitor on the character `c` it read: a backspace past
/// the prompt moves both positions back by two and is echoed; a backspace
/// at the prompt moves them back by one and is not echoed; any other
/// character is echoed, and a newline is followed by a new prompt.
pub fn monitor_step(cons: &mut Cons, c: char) -> (r: MonitorOutput)
    requires
        old(cons)@.wf(),
        c == '\x08' && old(cons)@.rpos > 3 ==> old(cons)@.wpos >= 2,
        c == '\x08' && old(cons)@.rpos <= 3 ==> old(cons)@.rpos >= 1 && old(cons)@.wpos >= 1,
    ensures
        final(cons)@.wf(),
        r == monitor_out(old(cons)@, c),
        c == '\x08' && old(cons)@.rpos > 3 ==> r == (MonitorOutput { echo: Some(c), prompt: false })
            && final(cons)@ == (ConsView { rpos: (old(cons)@.rpos - 2) as u32, wpos: (old(cons)@.wpos - 2) as u32, ..old(cons)@ }),
        c == '\x08' && old(cons)@.rpos <= 3 ==> r == (MonitorOutput { echo: None, prompt: false })
            && final(cons)@ == (ConsView { rpos: (old(cons)@.rpos - 1) as u32, wpos: (old(cons)@.wpos - 1) as u32, ..old(cons)@ }),
        c == '\n' ==> r == (MonitorOutput { echo: Some(c), prompt: true }) && final(cons)@ == prompted(old(cons)@),
        c != '\x08' && c != '\n' ==> r == (MonitorOutput { echo: Some(c), prompt: false }) && final(cons)@ == old(cons)@,
{
    if c == '\x08' && cons.rpos > 3 {
        cons.rpos = cons.rpos - 2;
        cons.wpos = cons.wpos - 2;
    } else if c == '\x08' && cons.rpos <= 3 {
        cons.rpos = cons.rpos - 1;
        cons.wpos = cons.wpos - 1;
        return MonitorOutput { echo: None, prompt: false };
    }
    if c == '\n' {
        monitor_prompt(cons);
        return MonitorOutput { echo: Some(c), prompt: true };
    }
    MonitorOutput { echo: Some(c), prompt: false }
}

} // verus!
