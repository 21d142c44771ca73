//! Splitting raw source text into classified lines.
//!
//! The reader breaks the source on newline boundaries, drops a trailing
//! carriage return from each piece, discards pieces that are then empty, and
//! classifies every surviving line by its leading byte.

use vstd::prelude::*;

use vstd::string::StringSliceAdditionalSpecFns;
use vstd::string::StrSliceExecFns;

use crate::ascii::CARRIAGE_RETURN;
use crate::ascii::NEWLINE;
use crate::line::classify;
use crate::line::classify_line;
use crate::line::Line;
use crate::line::LineType;
use crate::line::LineV;

verus! {

/// `seg` with one trailing carriage return removed, if it ends in one.
pub open spec fn strip_cr(seg: Seq<u8>) -> Seq<u8> {
    if seg.len() > 0 && seg[seg.len() - 1] == CARRIAGE_RETURN {
        seg.drop_last()
    } else {
        seg
    }
}

/// The segment `seg` as a (possibly empty) sequence of surviving lines: its
/// trailing carriage return is dropped, and nothing survives of a segment
/// that is then empty.
pub open spec fn segment_lines(seg: Seq<u8>) -> Seq<Seq<u8>> {
    if strip_cr(seg).len() == 0 {
        Seq::empty()
    } else {
        seq![strip_cr(seg)]
    }
}

/// The non-empty line segments of `src` from position `i` on, given that the
/// bytes of the current (unfinished) segment so far are `cur`. A segment ends
/// at each newline and at the end of the source.
pub open spec fn split_from(src: Seq<u8>, i: int, cur: Seq<u8>) -> Seq<Seq<u8>>
    decreases src.len() - i,
        when 0 <= i <= src.len()
{
    if i >= src.len() {
        segment_lines(cur)
    } else if src[i] == NEWLINE {
        segment_lines(cur) + split_from(src, i + 1, Seq::empty())
    } else {
        split_from(src, i + 1, cur.push(src[i]))
    }
}

/// The non-empty, carriage-return-trimmed line segments of `src`.
pub open spec fn split_source(src: Seq<u8>) -> Seq<Seq<u8>> {
    split_from(src, 0, Seq::empty())
}

/// The lines a source compiles from: its segments, each classified by its
/// leading byte.
pub open spec fn classified_lines(src: Seq<u8>) -> Seq<LineV> {
    split_source(src).map_values(|t: Seq<u8>| LineV { text: t, kind: classify_line(t) })
}

/// Mathematical image of a [`Reader`]: the source bytes and the line images.
pub struct ReaderV {
    pub source: Seq<u8>,
    pub lines: Seq<LineV>,
}

/// Holds the raw source and the ordered sequence of lines split from it.
pub struct Reader {
    pub source: Vec<u8>,
    pub lines: Vec<Line>,
}

impl View for Reader {
    type V = ReaderV;

    open spec fn view(&self) -> ReaderV {
        ReaderV { source: self.source@, lines: self.lines@.map_values(|l: Line| l@) }
    }
}

impl Reader {
    /// A fresh reader over the UTF-8 bytes of `source`, with no lines split
    /// out yet.
    pub fn from_text(source: &str) -> (r: Self)
        ensures
            r@.source == source.spec_bytes(),
            r@.lines.len() == 0,
    {
        let r = Self { source: source.as_bytes_vec(), lines: Vec::new() };
        assert(r@.lines =~= Seq::<LineV>::empty());
        r
    }

    /// Splits the source into lines and classifies each: afterwards the lines
    /// are exactly the classified segments of the source.
    pub fn parse_all_lines(&mut self)
        requires
            old(self)@.lines.len() == 0,
        ensures
            final(self)@.source == old(self)@.source,
            final(self)@.lines == classified_lines(old(self)@.source),
    {
        self.split_lines();
        self.check_lines_type();
        assert(self@.lines =~= classified_lines(old(self)@.source));
    }

    /// Appends the source's non-empty segments as unclassified lines.
    fn split_lines(&mut self)
        ensures
            final(self)@.source == old(self)@.source,
            final(self)@.lines == old(self)@.lines + split_source(old(self)@.source).map_values(
                |t: Seq<u8>| LineV { text: t, kind: LineType::Undefined },
            ),
    {
        let ghost src = self.source@;
        let ghost lines0 = self@.lines;
        let ghost mut done: Seq<Seq<u8>> = Seq::empty();
        let mut cur: Vec<u8> = Vec::new();
        let mut i: usize = 0;
        proof {
            assert(self@.lines =~= lines0 + done.map_values(
                |t: Seq<u8>| LineV { text: t, kind: LineType::Undefined },
            ));
        }
        while i < self.source.len()
            invariant
                i <= src.len(),
                self.source@ == src,
                self@.lines == lines0 + done.map_values(
                    |t: Seq<u8>| LineV { text: t, kind: LineType::Undefined },
                ),
                split_source(src) == done + split_from(src, i as int, cur@),
            decreases src.len() - i,
        {
            let b = self.source[i];
            if b == NEWLINE {
                proof {
                    assert(split_from(src, i as int, cur@) == segment_lines(cur@) + split_from(
                        src,
                        i + 1,
                        Seq::<u8>::empty(),
                    ));
                }
                let ghost flushed = segment_lines(cur@);
                self.flush_segment(cur);
                cur = Vec::new();
                proof {
                    done = done + flushed;
                    assert(self@.lines =~= lines0 + done.map_values(
                        |t: Seq<u8>| LineV { text: t, kind: LineType::Undefined },
                    ));
                    assert(split_source(src) =~= done + split_from(src, i + 1, cur@));
                }
            } else {
                cur.push(b);
                proof {
                    assert(split_from(src, i as int, cur@.drop_last()) == split_from(
                        src,
                        i + 1,
                        cur@,
                    )) by {
                        assert(cur@.drop_last().push(src[i as int]) =~= cur@);
                    }
                }
            }
            i = i + 1;
        }
        proof {
            assert(split_from(src, i as int, cur@) == segment_lines(cur@));
        }
        let ghost flushed = segment_lines(cur@);
        self.flush_segment(cur);
        proof {
            done = done + flushed;
            assert(self@.lines =~= lines0 + done.map_values(
                |t: Seq<u8>| LineV { text: t, kind: LineType::Undefined },
            ));
            assert(split_source(src) =~= done);
            assert(self@.lines =~= old(self)@.lines + split_source(src).map_values(
                |t: Seq<u8>| LineV { text: t, kind: LineType::Undefined },
            ));
        }
    }

    /// Trims a trailing carriage return from `seg` and, if anything is left,
    /// appends it as an unclassified line.
    fn flush_segment(&mut self, seg: Vec<u8>)
        ensures
            final(self)@.source == old(self)@.source,
            final(self)@.lines == old(self)@.lines + segment_lines(seg@).map_values(
                |t: Seq<u8>| LineV { text: t, kind: LineType::Undefined },
            ),
    {
        let ghost orig = seg@;
        let mut seg = seg;
        if seg.len() > 0 && seg[seg.len() - 1] == CARRIAGE_RETURN {
            seg.pop();
            assert(seg@ =~= strip_cr(orig));
        }
        assert(seg@ == strip_cr(orig));
        if seg.len() > 0 {
            self.lines.push(Line::new(seg));
            assert(self@.lines =~= old(self)@.lines + segment_lines(orig).map_values(
                |t: Seq<u8>| LineV { text: t, kind: LineType::Undefined },
            ));
        } else {
            assert(self@.lines =~= old(self)@.lines + segment_lines(orig).map_values(
                |t: Seq<u8>| LineV { text: t, kind: LineType::Undefined },
            ));
        }
    }

    /// Classifies every line in place by its leading byte.
    fn check_lines_type(&mut self)
        ensures
            final(self)@.source == old(self)@.source,
            final(self)@.lines == old(self)@.lines.map_values(
                |l: LineV| LineV { text: l.text, kind: classify_line(l.text) },
            ),
    {
        let ghost src0 = self@.source;
        let ghost lines0 = self@.lines;
        let n = self.lines.len();
        let mut i: usize = 0;
        while i < n
            invariant
                i <= n,
                n == self.lines@.len(),
                self.source@ == src0,
                self.lines@.len() == lines0.len(),
                forall|j: int| i <= j < n ==> #[trigger] self.lines@[j]@ == lines0[j],
                forall|j: int|
                    0 <= j < i ==> #[trigger] self.lines@[j]@ == (LineV {
                        text: lines0[j].text,
                        kind: classify_line(lines0[j].text),
                    }),
            decreases n - i,
        {
            assert(self.lines@[i as int]@ == lines0[i as int]);
            let t = classify(&self.lines[i].text);
            self.lines[i].type_ = t;
            assert(self.lines@[i as int]@ == (LineV {
                text: lines0[i as int].text,
                kind: classify_line(lines0[i as int].text),
            }));
            i = i + 1;
        }
        assert(self@.lines =~= lines0.map_values(
            |l: LineV| LineV { text: l.text, kind: classify_line(l.text) },
        ));
    }
}

} // verus!
