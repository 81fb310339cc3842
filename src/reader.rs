//! The line sequence over a byte source.

use vstd::prelude::*;

use vstd::utf8::{
    encode_scalar, encode_utf8, is_char_boundary_iff_not_is_continuation_byte, pop_first_scalar,
    valid_utf8, valid_utf8_split,
};

use crate::lines::{
    first_segment, lacks, lemma_seg_len_bounds, lemma_single_line, lemma_split_lines, lines_of,
    seg_len, strip_cr, strip_terminator, terminated, CR, LF,
};
use crate::lossy::{decode_line, lossy_utf8};
use crate::source::ByteSource;

verus! {

/// The lines of a byte source, decoded lossily, one per call of `next`.
#[derive(Debug)]
pub struct LinesLossy<B> {
    buf: B,
}

impl<B> LinesLossy<B> {
    /// The source that the lines are read from.
    pub closed spec fn source(&self) -> B {
        self.buf
    }
}

/// Turns a byte source into its sequence of lossily decoded lines.
pub trait LinesLossyExt: Sized {
    fn lines_lossy(self) -> (r: LinesLossy<Self>)
        ensures
            r.source() == self,
    ;
}

impl<T: ByteSource> LinesLossyExt for T {
    fn lines_lossy(self) -> (r: LinesLossy<Self>) {
        LinesLossy { buf: self }
    }
}

/// The texts of the lines of `s`.
pub open spec fn texts_of(s: Seq<u8>) -> Seq<Seq<char>> {
    lines_of(s).map_values(|l: Seq<u8>| lossy_utf8(l))
}

/// Each line that is valid UTF-8 is the encoding of its text.
pub open spec fn lines_encoded(texts: Seq<String>, lines: Seq<Seq<u8>>) -> bool {
    forall|i: int|
        0 <= i < texts.len() && i < lines.len() && valid_utf8(#[trigger] lines[i]) ==> encode_utf8(
            texts[i]@,
        ) == lines[i]
}

/// The texts held by a sequence of strings.
pub open spec fn views(v: Seq<String>) -> Seq<Seq<char>> {
    v.map_values(|s: String| s@)
}

impl<B: ByteSource> LinesLossy<B> {
    /// Reads the next line: `None` once the source is exhausted, else the
    /// line's text with its terminator stripped, or the source's error.
    pub fn next(&mut self) -> (r: Option<Result<String, std::io::Error>>)
        ensures
            old(self).source().infallible() ==> final(self).source().infallible(),
            old(self).source().infallible() ==> (r is None <==> old(
                self,
            ).source().remaining().len() == 0),
            old(self).source().infallible() ==> !(r matches Some(Err(_))),
            r is None ==> {
                &&& old(self).source().remaining().len() == 0
                &&& final(self).source().remaining() == old(self).source().remaining()
            },
            r matches Some(Ok(line)) ==> {
                let rem = old(self).source().remaining();
                &&& rem.len() > 0
                &&& line@ == lossy_utf8(lines_of(rem)[0])
                &&& valid_utf8(lines_of(rem)[0]) ==> encode_utf8(line@) == lines_of(rem)[0]
                &&& final(self).source().remaining() == rem.skip(seg_len(rem, LF) as int)
                &&& lines_of(final(self).source().remaining()) == lines_of(rem).drop_first()
            },
    {
        let ghost rem = self.buf.remaining();
        let mut buf: Vec<u8> = Vec::new();
        match self.buf.read_until(LF, &mut buf) {
            Ok(n) => {
                proof {
                    lemma_seg_len_bounds(rem, LF);
                    assert(buf@ =~= first_segment(rem));
                }
                if n == 0 {
                    proof {
                        assert(rem.skip(0) =~= rem);
                    }
                    return None;
                }
                let len = buf.len();
                if len > 0 && buf[len - 1] == LF {
                    buf.pop();
                    let len2 = buf.len();
                    if len2 > 0 && buf[len2 - 1] == CR {
                        buf.pop();
                    }
                }
                proof {
                    let seg = first_segment(rem);
                    if seg.len() > 0 && seg.last() == LF {
                        assert(seg.drop_last() =~= seg.take(seg.len() - 1));
                        if seg.drop_last().len() > 0 && seg.drop_last().last() == CR {
                            assert(buf@ =~= seg.drop_last().drop_last());
                        } else {
                            assert(buf@ =~= seg.drop_last());
                        }
                    }
                    assert(buf@ =~= strip_terminator(seg));
                    assert(lines_of(rem)[0] == strip_terminator(seg));
                    assert(lines_of(rem).drop_first() =~= lines_of(rem.skip(seg_len(rem, LF) as int)));
                }
                let text = decode_line(buf.as_slice());
                Some(Ok(text))
            },
            Err(e) => Some(Err(e)),
        }
    }

    /// Reads all remaining lines, stopping at the first error of the source.
    pub fn collect_lines(&mut self) -> (r: Result<Vec<String>, std::io::Error>)
        ensures
            old(self).source().infallible() ==> r is Ok,
            r matches Ok(v) ==> {
                &&& views(v@) == texts_of(old(self).source().remaining())
                &&& lines_encoded(v@, lines_of(old(self).source().remaining()))
                &&& final(self).source().remaining().len() == 0
            },
    {
        let ghost start = self.buf.remaining();
        let mut out: Vec<String> = Vec::new();
        loop
            invariant
                start == old(self).source().remaining(),
                lines_encoded(out@, lines_of(start)),
                lines_of(start) == lines_of(start).take(out.len() as int) + lines_of(
                    self.source().remaining(),
                ),
                texts_of(start) == views(out@) + texts_of(
                    self.source().remaining(),
                ),
                old(self).source().infallible() ==> self.source().infallible(),
            decreases self.source().remaining().len(),
        {
            let ghost before = self.source().remaining();
            match self.next() {
                None => {
                    proof {
                        assert(texts_of(before) =~= seq![]);
                        assert(views(out@) + seq![] =~= views(out@));
                        assert(lines_of(before) =~= seq![]);
                    }
                    return Ok(out);
                },
                Some(Ok(line)) => {
                    let ghost old_out = views(out@);
                    let ghost text = line@;
                    out.push(line);
                    proof {
                        lemma_seg_len_bounds(before, LF);
                        let after = self.source().remaining();
                        assert(texts_of(before) =~= seq![text] + texts_of(after));
                        assert(views(out@) =~= old_out.push(text));
                        assert(texts_of(start) =~= views(out@) + texts_of(
                            after,
                        ));
                    }
                },
                Some(Err(e)) => {
                    return Err(e);
                },
            }
        }
    }
}

/// Each text followed by a newline, all concatenated.
pub open spec fn terminated_text(texts: Seq<Seq<char>>) -> Seq<char>
    decreases texts.len(),
{
    if texts.len() == 0 {
        seq![]
    } else {
        texts[0] + seq!['\n'] + terminated_text(texts.drop_first())
    }
}

proof fn lemma_encode_concat(a: Seq<char>, b: Seq<char>)
    ensures
        encode_utf8(a + b) == encode_utf8(a) + encode_utf8(b),
    decreases a.len(),
{
    if a.len() == 0 {
        assert(a + b =~= b);
        assert(encode_utf8(a) + encode_utf8(b) =~= encode_utf8(b));
    } else {
        assert((a + b).drop_first() =~= a.drop_first() + b);
        lemma_encode_concat(a.drop_first(), b);
        assert(encode_utf8(a + b) =~= encode_utf8(a) + encode_utf8(b));
    }
}

proof fn lemma_encode_newline()
    ensures
        encode_utf8(seq!['\n']) == seq![LF],
{
    let nl: u32 = '\n' as u32;
    assert(nl == 10);
    assert((nl & 0x7F) as u8 == 10u8) by (bit_vector)
        requires
            nl == 10,
    ;
    let c = seq!['\n'];
    assert(c[0] as u32 == nl);
    assert(c.drop_first() =~= Seq::<char>::empty());
    assert(encode_utf8(c.drop_first()) =~= Seq::<u8>::empty());
    assert(encode_scalar(nl) =~= seq![LF]);
    assert(encode_utf8(c) =~= encode_scalar(nl) + Seq::<u8>::empty());
    assert(encode_utf8(c) =~= seq![LF]);
}

proof fn lemma_encode_terminated(texts: Seq<String>, lines: Seq<Seq<u8>>)
    requires
        texts.len() == lines.len(),
        forall|i: int| 0 <= i < texts.len() ==> encode_utf8(#[trigger] texts[i]@) == lines[i],
    ensures
        encode_utf8(terminated_text(views(texts))) == terminated(lines),
    decreases texts.len(),
{
    if texts.len() > 0 {
        let rest = texts.drop_first();
        assert forall|i: int| 0 <= i < rest.len() implies encode_utf8(
            #[trigger] rest[i]@,
        ) == lines.drop_first()[i] by {
            assert(rest[i] == texts[i + 1]);
        }
        lemma_encode_terminated(rest, lines.drop_first());
        assert(views(texts).drop_first() =~= views(rest));
        let head = views(texts)[0];
        let tail = terminated_text(views(rest));
        lemma_encode_concat(head + seq!['\n'], tail);
        lemma_encode_concat(head, seq!['\n']);
        lemma_encode_newline();
    }
}

/// Valid UTF-8 splits into valid UTF-8 around an ASCII byte.
proof fn lemma_valid_around(a: Seq<u8>, x: u8, b: Seq<u8>)
    requires
        valid_utf8(a + seq![x] + b),
        x < 0x80,
    ensures
        valid_utf8(a),
        valid_utf8(b),
{
    let s = a + seq![x] + b;
    is_char_boundary_iff_not_is_continuation_byte(s, a.len() as int);
    valid_utf8_split(s, a.len() as int);
    assert(s.subrange(0, a.len() as int) =~= a);
    let t = s.subrange(a.len() as int, s.len() as int);
    assert(t =~= seq![x] + b);
    assert(pop_first_scalar(t) =~= b);
}

/// The segments of valid UTF-8 ended by line-feeds are valid UTF-8, with
/// or without a trailing carriage-return.
proof fn lemma_valid_segments(segs: Seq<Seq<u8>>)
    requires
        valid_utf8(terminated(segs)),
    ensures
        forall|i: int| 0 <= i < segs.len() ==> valid_utf8(strip_cr(#[trigger] segs[i])),
    decreases segs.len(),
{
    if segs.len() > 0 {
        let seg = segs[0];
        let rest = segs.drop_first();
        assert(terminated(segs) =~= seg + seq![LF] + terminated(rest));
        lemma_valid_around(seg, LF, terminated(rest));
        lemma_valid_segments(rest);
        if seg.len() > 0 && seg.last() == CR {
            assert(seg =~= seg.drop_last() + seq![CR] + Seq::<u8>::empty());
            lemma_valid_around(seg.drop_last(), CR, Seq::<u8>::empty());
        }
        assert forall|i: int| 0 <= i < segs.len() implies valid_utf8(
            strip_cr(#[trigger] segs[i]),
        ) by {
            if i > 0 {
                assert(segs[i] == rest[i - 1]);
            }
        }
    }
}

/// Valid UTF-8 made of segments each ended by a line-feed: the texts of its
/// lines, each followed by a newline, encode the input again, with every
/// carriage-return that stood before a line-feed dropped.
pub proof fn lemma_round_trip(segs: Seq<Seq<u8>>, texts: Seq<String>)
    requires
        forall|i: int| 0 <= i < segs.len() ==> lacks(#[trigger] segs[i], LF),
        valid_utf8(terminated(segs)),
        texts.len() == lines_of(terminated(segs)).len(),
        lines_encoded(texts, lines_of(terminated(segs))),
    ensures
        encode_utf8(terminated_text(views(texts))) == terminated(
            segs.map_values(|b: Seq<u8>| strip_cr(b)),
        ),
{
    let s = terminated(segs);
    let lines = segs.map_values(|b: Seq<u8>| strip_cr(b));
    assert(s + Seq::<u8>::empty() =~= s);
    lemma_split_lines(segs, Seq::<u8>::empty());
    assert(lines_of(s) =~= lines);
    lemma_valid_segments(segs);
    assert forall|i: int| 0 <= i < texts.len() implies encode_utf8(#[trigger] texts[i]@)
        == lines[i] by {
        assert(valid_utf8(strip_cr(segs[i])));
        assert(valid_utf8(lines_of(s)[i]));
    }
    lemma_encode_terminated(texts, lines);
}

/// Valid UTF-8 without a line-feed gives one text, which encodes the whole
/// input, when it is not empty, and no text when it is.
pub proof fn lemma_single_text(s: Seq<u8>, texts: Seq<String>)
    requires
        lacks(s, LF),
        valid_utf8(s),
        texts.len() == lines_of(s).len(),
        lines_encoded(texts, lines_of(s)),
    ensures
        s.len() == 0 ==> texts.len() == 0,
        s.len() > 0 ==> texts.len() == 1 && encode_utf8(texts[0]@) == s,
{
    lemma_single_line(s);
    if s.len() > 0 {
        assert(lines_of(s)[0] == s);
    }
}

} // verus!
