//! The mathematical model of splitting bytes into lines.

use vstd::prelude::*;

verus! {

/// The line-feed byte, which ends a line.
pub const LF: u8 = 0x0A;

/// The carriage-return byte, dropped when it stands right before a line-feed.
pub const CR: u8 = 0x0D;

/// How many bytes a read up to and including `delim` takes from `s`: up to
/// the first `delim`, or all of `s` when it holds none.
pub open spec fn seg_len(s: Seq<u8>, delim: u8) -> nat
    decreases s.len(),
{
    if s.len() == 0 {
        0
    } else if s[0] == delim {
        1
    } else {
        1 + seg_len(s.drop_first(), delim)
    }
}

/// The raw bytes of a line, with its terminator still on.
pub open spec fn first_segment(s: Seq<u8>) -> Seq<u8> {
    s.take(seg_len(s, LF) as int)
}

/// Drops a trailing line-feed and, only then, one carriage-return before it.
pub open spec fn strip_terminator(b: Seq<u8>) -> Seq<u8> {
    if b.len() > 0 && b.last() == LF {
        let c = b.drop_last();
        if c.len() > 0 && c.last() == CR {
            c.drop_last()
        } else {
            c
        }
    } else {
        b
    }
}

/// The lines of `s`, as bytes with their terminators stripped.
pub open spec fn lines_of(s: Seq<u8>) -> Seq<Seq<u8>>
    decreases s.len(),
    via lines_of_decreases
{
    if s.len() == 0 {
        seq![]
    } else {
        seq![strip_terminator(first_segment(s))] + lines_of(s.skip(seg_len(s, LF) as int))
    }
}

#[via_fn]
proof fn lines_of_decreases(s: Seq<u8>) {
    if s.len() != 0 {
        lemma_seg_len_bounds(s, LF);
    }
}

/// `s` holds no `b`.
pub open spec fn lacks(s: Seq<u8>, b: u8) -> bool {
    forall|i: int| 0 <= i < s.len() ==> s[i] != b
}

/// Each segment followed by a line-feed, all concatenated.
pub open spec fn terminated(segs: Seq<Seq<u8>>) -> Seq<u8>
    decreases segs.len(),
{
    if segs.len() == 0 {
        seq![]
    } else {
        segs[0] + seq![LF] + terminated(segs.drop_first())
    }
}

/// Drops one trailing carriage-return, if there is one.
pub open spec fn strip_cr(b: Seq<u8>) -> Seq<u8> {
    if b.len() > 0 && b.last() == CR {
        b.drop_last()
    } else {
        b
    }
}

/// A read takes at least one byte from a non-empty source and never more
/// than it holds.
pub proof fn lemma_seg_len_bounds(s: Seq<u8>, delim: u8)
    ensures
        seg_len(s, delim) <= s.len(),
        s.len() > 0 ==> seg_len(s, delim) > 0,
    decreases s.len(),
{
    if s.len() > 0 && s[0] != delim {
        lemma_seg_len_bounds(s.drop_first(), delim);
    }
}

/// A read stops right after the first delimiter, or takes everything when
/// there is none.
pub proof fn lemma_seg_len_spot(s: Seq<u8>, delim: u8)
    ensures
        seg_len(s, delim) > 0 ==> lacks(s.take(seg_len(s, delim) as int - 1), delim),
        seg_len(s, delim) > 0 ==> (s[seg_len(s, delim) - 1] == delim || seg_len(s, delim) == s.len()),
        lacks(s, delim) ==> seg_len(s, delim) == s.len(),
    decreases s.len(),
{
    lemma_seg_len_bounds(s, delim);
    if s.len() > 0 && s[0] != delim {
        let t = s.drop_first();
        lemma_seg_len_spot(t, delim);
        lemma_seg_len_bounds(t, delim);
        assert forall|i: int| 0 <= i < seg_len(s, delim) - 1 implies s[i] != delim by {
            if i > 0 {
                assert(t.take(seg_len(t, delim) as int - 1)[i - 1] == s[i]);
            }
        }
        if lacks(s, delim) {
            assert(lacks(t, delim)) by {
                assert forall|i: int| 0 <= i < t.len() implies t[i] != delim by {
                    assert(t[i] == s[i + 1]);
                }
            }
        }
    }
}

/// A segment free of line-feeds followed by a line-feed and then more bytes:
/// the first read takes exactly the segment and its line-feed.
pub proof fn lemma_seg_len_prefix(seg: Seq<u8>, rest: Seq<u8>)
    requires
        lacks(seg, LF),
    ensures
        seg_len(seg + seq![LF] + rest, LF) == seg.len() + 1,
    decreases seg.len(),
{
    let s = seg + seq![LF] + rest;
    if seg.len() == 0 {
        assert(s[0] == LF);
    } else {
        assert(s[0] == seg[0]);
        assert(s.drop_first() =~= seg.drop_first() + seq![LF] + rest);
        lemma_seg_len_prefix(seg.drop_first(), rest);
    }
}

/// Bytes without a line-feed form one line, kept whole, carriage-returns
/// included; empty bytes form none.
pub proof fn lemma_single_line(s: Seq<u8>)
    requires
        lacks(s, LF),
    ensures
        s.len() == 0 ==> lines_of(s) == Seq::<Seq<u8>>::empty(),
        s.len() > 0 ==> lines_of(s) == seq![s],
{
    if s.len() > 0 {
        lemma_seg_len_spot(s, LF);
        assert(first_segment(s) =~= s);
        assert(s.skip(s.len() as int) =~= Seq::<u8>::empty());
        assert(lines_of(s.skip(s.len() as int)) =~= Seq::<Seq<u8>>::empty());
        assert(lines_of(s) =~= seq![s]);
    }
}

/// Segments free of line-feeds, each ended by a line-feed, and then a tail
/// free of line-feeds: each segment is one line, without a carriage-return
/// that stood before its line-feed, and a non-empty tail is one more line,
/// kept whole.
pub proof fn lemma_split_lines(segs: Seq<Seq<u8>>, tail: Seq<u8>)
    requires
        forall|i: int| 0 <= i < segs.len() ==> lacks(#[trigger] segs[i], LF),
        lacks(tail, LF),
    ensures
        lines_of(terminated(segs) + tail) == segs.map_values(|b: Seq<u8>| strip_cr(b)) + (
        if tail.len() == 0 {
            Seq::<Seq<u8>>::empty()
        } else {
            seq![tail]
        }),
    decreases segs.len(),
{
    if segs.len() == 0 {
        assert(terminated(segs) + tail =~= tail);
        lemma_single_line(tail);
        assert(segs.map_values(|b: Seq<u8>| strip_cr(b)) =~= Seq::<Seq<u8>>::empty());
        if tail.len() == 0 {
            assert(Seq::<Seq<u8>>::empty() + Seq::<Seq<u8>>::empty() =~= Seq::<Seq<u8>>::empty());
        } else {
            assert(Seq::<Seq<u8>>::empty() + seq![tail] =~= seq![tail]);
        }
    } else {
        let seg = segs[0];
        let rest = segs.drop_first();
        let after = terminated(rest) + tail;
        let s = terminated(segs) + tail;
        assert(s =~= seg + seq![LF] + after);
        assert forall|i: int| 0 <= i < rest.len() implies lacks(#[trigger] rest[i], LF) by {
            assert(rest[i] == segs[i + 1]);
        }
        lemma_split_lines(rest, tail);
        lemma_seg_len_prefix(seg, after);
        assert(first_segment(s) =~= seg + seq![LF]);
        assert((seg + seq![LF]).drop_last() =~= seg);
        assert(strip_terminator(first_segment(s)) == strip_cr(seg));
        assert(s.skip(seg.len() + 1 as int) =~= after);
        assert(segs.map_values(|b: Seq<u8>| strip_cr(b)) =~= seq![strip_cr(seg)]
            + rest.map_values(|b: Seq<u8>| strip_cr(b)));
        assert(lines_of(s) =~= seq![strip_cr(seg)] + lines_of(after));
    }
}

} // verus!
