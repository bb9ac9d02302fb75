//! The application on top of a session: each complete inbound line is sent
//! back with its bytes in reverse order.
use vstd::prelude::*;

verus! {

pub const NEWLINE: u8 = 10;

/// What reversing the lines of `s` gives, when `line` is already pending
/// before it: the output for every line that `s` completes, and the
/// unfinished fragment left at its end.
pub open spec fn reversed_lines(line: Seq<u8>, s: Seq<u8>) -> (Seq<u8>, Seq<u8>)
    decreases s.len(),
{
    if s.len() == 0 {
        (Seq::empty(), line)
    } else if s[0] == NEWLINE {
        let (o, f) = reversed_lines(Seq::empty(), s.drop_first());
        (line.reverse() + seq![NEWLINE] + o, f)
    } else {
        reversed_lines(line.push(s[0]), s.drop_first())
    }
}

/// Collects the inbound stream of a session into lines.
pub struct LineReverser {
    partial: Vec<u8>,
}

impl View for LineReverser {
    type V = Seq<u8>;

    /// The unfinished line received so far.
    closed spec fn view(&self) -> Seq<u8> {
        self.partial@
    }
}

impl LineReverser {
    pub fn new() -> (r: Self)
        ensures
            r@ == Seq::<u8>::empty(),
    {
        LineReverser { partial: Vec::new() }
    }

    /// Takes the next bytes of the inbound stream; returns every line they
    /// complete, reversed and followed by a newline.
    pub fn push(&mut self, bytes: &[u8]) -> (r: Vec<u8>)
        ensures
            (r@, final(self)@) == reversed_lines(old(self)@, bytes@),
    {
        let mut out: Vec<u8> = Vec::new();
        let mut i: usize = 0;
        assert(bytes@.subrange(0, bytes@.len() as int) =~= bytes@);
        assert(out@ + reversed_lines(self@, bytes@).0 =~= reversed_lines(self@, bytes@).0);
        while i < bytes.len()
            invariant
                i <= bytes@.len(),
                ({
                    let (o, f) = reversed_lines(self@, bytes@.subrange(i as int, bytes@.len() as int));
                    reversed_lines(old(self)@, bytes@) == (out@ + o, f)
                }),
            decreases bytes@.len() - i,
        {
            let ghost rest = bytes@.subrange(i as int, bytes@.len() as int);
            let ghost o0 = out@;
            let ghost line = self@;
            let c = bytes[i];
            assert(rest[0] == c);
            assert(rest.drop_first() =~= bytes@.subrange(i + 1, bytes@.len() as int));
            if c == NEWLINE {
                let mut j: usize = self.partial.len();
                while j > 0
                    invariant
                        j <= line.len(),
                        self@ == line,
                        out@ == o0 + line.subrange(j as int, line.len() as int).reverse(),
                    decreases j,
                {
                    j -= 1;
                    out.push(self.partial[j]);
                    assert(out@ =~= o0 + line.subrange(j as int, line.len() as int).reverse());
                }
                out.push(NEWLINE);
                self.partial.clear();
                assert(line.subrange(0, line.len() as int) =~= line);
                let ghost r2 = reversed_lines(Seq::<u8>::empty(), rest.drop_first());
                assert(o0 + (line.reverse() + seq![NEWLINE] + r2.0) =~= out@ + r2.0);
                assert(self@ =~= Seq::<u8>::empty());
            } else {
                self.partial.push(c);
            }
            i += 1;
        }
        assert(bytes@.subrange(i as int, bytes@.len() as int) =~= Seq::<u8>::empty());
        assert(out@ + Seq::<u8>::empty() =~= out@);
        out
    }

    /// Ends the stream: the unfinished line, reversed and without a newline.
    pub fn finish(&mut self) -> (r: Vec<u8>)
        ensures
            r@ == old(self)@.reverse(),
            final(self)@ == Seq::<u8>::empty(),
    {
        let mut out: Vec<u8> = Vec::new();
        let mut j: usize = self.partial.len();
        while j > 0
            invariant
                j <= old(self)@.len(),
                self@ == old(self)@,
                out@ == old(self)@.subrange(j as int, old(self)@.len() as int).reverse(),
            decreases j,
        {
            j -= 1;
            out.push(self.partial[j]);
            assert(out@ =~= old(self)@.subrange(j as int, old(self)@.len() as int).reverse());
        }
        assert(old(self)@.subrange(0, old(self)@.len() as int) =~= old(self)@);
        self.partial.clear();
        assert(self@ =~= Seq::<u8>::empty());
        out
    }
}

} // verus!
