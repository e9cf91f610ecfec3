//! What a bounded subprocess may hand back: its output up to a limit, and
//! the complete, bounded, well-formed lines of its error stream (where the
//! indexer reports progress). Spawning and reading happen outside.

use vstd::prelude::*;
use vstd::utf8::{decode_utf8, valid_utf8};

use crate::blob::utf8_text;

verus! {

/// The longest error-stream line passed on, in bytes.
pub const MAX_LINE: usize = 4096;

/// Whether `received` more bytes of output still fit in `limit` when `have`
/// bytes were kept already.
pub fn output_fits(received: usize, have: usize, limit: usize) -> (r: bool)
    ensures
        r == (have + received <= limit || (have > limit && received == 0)),
{
    received <= limit.saturating_sub(have)
}

/// The partial line of an error stream: its first bytes, and whether it
/// has outgrown the limit.
pub struct LineBuffer {
    pub line: Vec<u8>,
    pub oversized: bool,
}

pub ghost struct LineState {
    pub line: Seq<u8>,
    pub oversized: bool,
}

impl View for LineBuffer {
    type V = LineState;

    open spec fn view(&self) -> LineState {
        LineState { line: self.line@, oversized: self.oversized }
    }
}

pub open spec fn empty_line() -> LineState {
    LineState { line: Seq::empty(), oversized: false }
}

/// One byte of the stream: a newline completes the line, which is passed
/// on when it stayed within the limit and is valid UTF-8; another byte is
/// kept while the line is within the limit.
pub open spec fn line_step(st: LineState, b: u8) -> (LineState, Option<Seq<char>>) {
    if b == 10 {
        (
            empty_line(),
            if !st.oversized && valid_utf8(st.line) {
                Some(decode_utf8(st.line))
            } else {
                None
            },
        )
    } else if st.line.len() < MAX_LINE {
        (LineState { line: st.line.push(b), ..st }, None)
    } else {
        (LineState { oversized: true, ..st }, None)
    }
}

/// The state after some bytes, and the lines they completed.
pub open spec fn feed_spec(st: LineState, bytes: Seq<u8>) -> (LineState, Seq<Seq<char>>)
    decreases bytes.len(),
{
    if bytes.len() == 0 {
        (st, Seq::empty())
    } else {
        let (s1, out) = feed_spec(st, bytes.drop_last());
        let (s2, o) = line_step(s1, bytes.last());
        (
            s2,
            match o {
                Some(l) => out.push(l),
                None => out,
            },
        )
    }
}

impl LineBuffer {
    pub fn new() -> (r: Self)
        ensures
            r@ == empty_line(),
    {
        let r = LineBuffer { line: Vec::new(), oversized: false };
        assert(r@.line =~= Seq::<u8>::empty());
        r
    }

    /// Take more bytes of the stream; gives the lines they complete.
    pub fn feed(&mut self, chunk: &[u8]) -> (r: Vec<String>)
        requires
            old(self)@.line.len() <= MAX_LINE,
        ensures
            final(self)@.line.len() <= MAX_LINE,
            (final(self)@, r@.map_values(|s: String| s@)) == feed_spec(old(self)@, chunk@),
    {
        let ghost st0 = self@;
        let mut out: Vec<String> = Vec::new();
        let mut i: usize = 0;
        while i < chunk.len()
            invariant
                i <= chunk@.len(),
                self@.line.len() <= MAX_LINE,
                (self@, out@.map_values(|s: String| s@)) == feed_spec(st0, chunk@.take(i as int)),
            decreases chunk@.len() - i,
        {
            let b = chunk[i];
            let ghost before = out@.map_values(|s: String| s@);
            assert(chunk@.take(i + 1).drop_last() =~= chunk@.take(i as int));
            assert(chunk@.take(i + 1).last() == b);
            if b == 10 {
                if !self.oversized {
                    if let Some(text) = utf8_text(self.line.as_slice()) {
                        out.push(text);
                        assert(out@.map_values(|s: String| s@) =~= before.push(decode_utf8(self@.line)));
                    }
                }
                self.line = Vec::new();
                self.oversized = false;
                assert(self@ =~= empty_line());
            } else if self.line.len() < MAX_LINE {
                self.line.push(b);
            } else {
                self.oversized = true;
            }
            i += 1;
        }
        assert(chunk@.take(chunk@.len() as int) =~= chunk@);
        out
    }
}

proof fn lemma_no_newline(bytes: Seq<u8>)
    requires
        forall|i: int| 0 <= i < bytes.len() ==> bytes[i] != 10,
    ensures
        feed_spec(empty_line(), bytes).1.len() == 0,
        feed_spec(empty_line(), bytes).0.oversized == (bytes.len() > MAX_LINE),
        feed_spec(empty_line(), bytes).0.line == bytes.take(
            if bytes.len() > MAX_LINE {
                MAX_LINE as int
            } else {
                bytes.len() as int
            },
        ),
    decreases bytes.len(),
{
    if bytes.len() > 0 {
        lemma_no_newline(bytes.drop_last());
        let d = bytes.drop_last();
        assert(bytes[bytes.len() - 1] != 10);
        if d.len() < MAX_LINE {
            assert(d.take(d.len() as int).push(bytes.last()) =~= bytes.take(bytes.len() as int));
        } else {
            assert(d.take(MAX_LINE as int) =~= bytes.take(MAX_LINE as int));
        }
    } else {
        assert(bytes.take(0) =~= Seq::<u8>::empty());
    }
}

/// A line is passed on exactly when it is complete, at most 4096 bytes
/// long and valid UTF-8; then it is passed on whole.
pub proof fn law_complete_lines(line: Seq<u8>)
    requires
        forall|i: int| 0 <= i < line.len() ==> line[i] != 10,
    ensures
        feed_spec(empty_line(), line.push(10)).1 == if line.len() <= MAX_LINE && valid_utf8(line) {
            seq![decode_utf8(line)]
        } else {
            Seq::<Seq<char>>::empty()
        },
        feed_spec(empty_line(), line.push(10)).0 == empty_line(),
{
    lemma_no_newline(line);
    assert(line.push(10).drop_last() =~= line);
    if line.len() <= MAX_LINE {
        assert(line.take(line.len() as int) =~= line);
    }
    assert(Seq::<Seq<char>>::empty().push(decode_utf8(line)) =~= seq![decode_utf8(line)]);
}

} // verus!
