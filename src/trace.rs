use vstd::prelude::*;
use crate::job::{Kind, name_of};

verus! {

/// One line of the simulation's output: a job's identity, the tick it is
/// reported at, and the content shown between the two copies of its identity.
pub struct Trace {
    pub tick: usize,
    pub id: Kind,
    pub content: Vec<u8>,
}

pub struct TraceView {
    pub tick: usize,
    pub id: Kind,
    pub content: Seq<u8>,
}

impl View for Trace {
    type V = TraceView;

    open spec fn view(&self) -> TraceView {
        TraceView { tick: self.tick, id: self.id, content: self.content@ }
    }
}

pub const ZERO_DIGIT: u8 = 48;
pub const SPACE: u8 = 32;
pub const COLON: u8 = 58;

/// The decimal digits of `n`, most significant first, with no leading zero.
pub open spec fn decimal(n: nat) -> Seq<u8>
    decreases n,
{
    if n < 10 {
        seq![(ZERO_DIGIT + n) as u8]
    } else {
        decimal(n / 10).push((ZERO_DIGIT + n % 10) as u8)
    }
}

/// `time <tick>: <id> <content> <id>`
pub open spec fn line_of(t: TraceView) -> Seq<u8> {
    seq![116u8, 105, 109, 101, SPACE] + decimal(t.tick as nat) + seq![COLON, SPACE] + name_of(t.id)
        + seq![SPACE] + t.content + seq![SPACE] + name_of(t.id)
}

fn push_decimal(out: &mut Vec<u8>, n: usize)
    ensures
        final(out)@ == old(out)@ + decimal(n as nat),
    decreases n,
{
    if n >= 10 {
        push_decimal(out, n / 10);
    }
    out.push(ZERO_DIGIT + (n % 10) as u8);
    proof {
        assert(final(out)@ =~= old(out)@ + decimal(n as nat));
    }
}

pub(crate) fn push_all(out: &mut Vec<u8>, s: &Vec<u8>)
    ensures
        final(out)@ == old(out)@ + s@,
{
    let mut i: usize = 0;
    while i < s.len()
        invariant
            0 <= i <= s@.len(),
            out@ == old(out)@ + s@.take(i as int),
        decreases s@.len() - i,
    {
        out.push(s[i]);
        i = i + 1;
        proof {
            assert(s@.take(i as int) =~= s@.take(i - 1).push(s@[i - 1]));
        }
    }
    proof {
        assert(s@.take(i as int) =~= s@);
    }
}

impl Trace {
    /// The line that reports this trace, as ASCII bytes.
    pub fn render(&self) -> (r: Vec<u8>)
        ensures
            r@ == line_of(self@),
    {
        let mut out: Vec<u8> = vec![116u8, 105, 109, 101, SPACE];
        push_decimal(&mut out, self.tick);
        out.push(COLON);
        out.push(SPACE);
        let name = self.id.name();
        push_all(&mut out, &name);
        out.push(SPACE);
        push_all(&mut out, &self.content);
        out.push(SPACE);
        push_all(&mut out, &name);
        proof {
            assert(out@ =~= line_of(self@));
        }
        out
    }
}

} // verus!
