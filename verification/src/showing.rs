//! Where the chars that a line shows stand in the text.

use vstd::prelude::*;
use vstd::utf8::{
    decode_utf8, decode_utf8_encode_utf8, encode_utf8_decode_utf8, valid_utf8, valid_utf8_concat,
};

use crate::bytes::{char_at_offset, is_boundary, lemma_encode_concat, lemma_slice_valid};
use crate::inline::{on_boundaries, Piece, tiles};
use crate::reading::{chars, lemma_first_char};
use crate::render::{law_row_tiles_its_line, Row, row_at, row_text, shown_text};
use crate::text::next_boundary_of;
use crate::view::{char_starts, lemma_tiles_within, row_map, row_starts, shown_starts};

verus! {

/// Offsets that grow, each of them on a boundary from `i` on and before `j`.
pub open spec fn ascends(b: Seq<u8>, at: Seq<int>, i: int, j: int) -> bool {
    &&& forall|k: int| 0 <= k < at.len() ==> i <= #[trigger] at[k] < j && is_boundary(b, at[k])
    &&& forall|k: int, l: int| 0 <= k < l < at.len() ==> #[trigger] at[k] < #[trigger] at[l]
}

/// The chars that start at some offsets.
pub open spec fn chars_at(b: Seq<u8>, at: Seq<int>) -> Seq<char> {
    Seq::new(at.len(), |k: int| char_at_offset(b, at[k]))
}

/// The chars of two texts joined are those of the one and then those of the other.
proof fn lemma_decode_concat(x: Seq<u8>, y: Seq<u8>)
    requires
        valid_utf8(x),
        valid_utf8(y),
    ensures
        valid_utf8(x + y),
        decode_utf8(x + y) == decode_utf8(x) + decode_utf8(y),
{
    let (c, d) = (decode_utf8(x), decode_utf8(y));
    valid_utf8_concat(x, y);
    decode_utf8_encode_utf8(x);
    decode_utf8_encode_utf8(y);
    lemma_encode_concat(c, d);
    encode_utf8_decode_utf8(c + d);
}

/// The places where the chars of a stretch of text start.
proof fn lemma_starts_of(b: Seq<u8>, i: int, j: int)
    requires
        valid_utf8(b),
        is_boundary(b, i),
        is_boundary(b, j),
        i <= j,
    ensures
        ascends(b, char_starts(b, i, j), i, j),
        chars_at(b, char_starts(b, i, j)) == chars(b, i, j),
    decreases j - i,
{
    let at = char_starts(b, i, j);
    if i < j {
        lemma_first_char(b, i, j);
        let n = next_boundary_of(b, i);
        let rest = char_starts(b, n, j);
        lemma_starts_of(b, n, j);
        assert(at =~= seq![i] + rest);
        assert forall|k: int| 0 <= k < at.len() implies i <= #[trigger] at[k] < j && is_boundary(
            b,
            at[k],
        ) by {
            if k > 0 {
                assert(at[k] == rest[k - 1]);
            }
        }
        assert forall|k: int, l: int| 0 <= k < l < at.len() implies #[trigger] at[k]
            < #[trigger] at[l] by {
            assert(at[l] == rest[l - 1]);
            if k > 0 {
                assert(at[k] == rest[k - 1]);
            }
        }
        let (all, less) = (chars(b, i, j), chars_at(b, rest));
        assert(less == all.drop_first());
        assert(chars_at(b, at) =~= all) by {
            assert(all.len() == less.len() + 1);
            assert forall|k: int| 0 <= k < all.len() implies chars_at(b, at)[k] == all[k] by {
                if k > 0 {
                    assert(at[k] == rest[k - 1]);
                    assert(all[k] == all.drop_first()[k - 1]);
                }
            }
        }
    } else {
        assert(b.subrange(i, j) =~= Seq::<u8>::empty());
        assert(chars(b, i, j) =~= Seq::<char>::empty());
        assert(chars_at(b, at) =~= chars(b, i, j));
    }
}

/// Offsets that grow up to a place and offsets that grow from there on.
proof fn lemma_ascends(b: Seq<u8>, x: Seq<int>, y: Seq<int>, i: int, m: int, j: int)
    requires
        ascends(b, x, i, m),
        ascends(b, y, m, j),
        i <= m <= j,
    ensures
        ascends(b, x + y, i, j),
        chars_at(b, x + y) == chars_at(b, x) + chars_at(b, y),
{
    let z = x + y;
    let n = x.len() as int;
    assert forall|k: int| 0 <= k < z.len() implies i <= #[trigger] z[k] < j && is_boundary(b, z[k]) by {
        if k < n {
            assert(z[k] == x[k]);
        } else {
            assert(z[k] == y[k - n]);
        }
    }
    assert forall|k: int, l: int| 0 <= k < l < z.len() implies #[trigger] z[k] < #[trigger] z[l] by {
        if l < n {
            assert(x[k] < x[l]);
        } else if k >= n {
            assert(y[k - n] < y[l - n]);
        } else {
            assert(x[k] < m && m <= y[l - n]);
        }
    }
    assert(chars_at(b, z) =~= chars_at(b, x) + chars_at(b, y));
}

/// Pieces that tile a stretch, but for the last, tile it up to where that starts.
proof fn lemma_tiles_before(p: Seq<Piece>, i: int, j: int)
    requires
        tiles(p, i, j),
        p.len() > 0,
    ensures
        tiles(p.drop_last(), i, p.last().start),
        p.last().end == j,
    decreases p.len(),
{
    if p.len() > 1 {
        let rest = p.drop_first();
        lemma_tiles_before(rest, p[0].end, j);
        assert(p.drop_last().drop_first() =~= rest.drop_last());
        assert(p.drop_last()[0] == p[0]);
        assert(rest.last() == p.last());
    } else {
        let rest = p.drop_first();
        assert(p.drop_last() =~= Seq::<Piece>::empty());
        assert(tiles(rest, p[0].end, j) && rest.len() == 0);
    }
}

proof fn lemma_shown(b: Seq<u8>, p: Seq<Piece>, i: int, j: int)
    requires
        valid_utf8(b),
        on_boundaries(b, p),
        tiles(p, i, j),
        i <= j,
    ensures
        valid_utf8(shown_text(b, p)),
        ascends(b, shown_starts(b, p), i, j),
        chars_at(b, shown_starts(b, p)) == decode_utf8(shown_text(b, p)),
    decreases p.len(),
{
    if p.len() == 0 {
        assert(chars_at(b, shown_starts(b, p)) =~= Seq::<char>::empty());
        assert(decode_utf8(shown_text(b, p)) =~= Seq::<char>::empty());
    } else {
        let (front, last) = (p.drop_last(), p.last());
        assert(last == p[p.len() - 1]);
        lemma_tiles_before(p, i, j);
        lemma_tiles_within(front, i, last.start);
        assert forall|k: int| 0 <= k < front.len() implies is_boundary(
            b,
            (#[trigger] front[k]).start,
        ) && is_boundary(b, front[k].end) && front[k].start <= front[k].end by {
            assert(front[k] == p[k]);
        }
        lemma_shown(b, front, i, last.start);
        if last.visible {
            lemma_starts_of(b, last.start, last.end);
            lemma_ascends(
                b,
                shown_starts(b, front),
                char_starts(b, last.start, last.end),
                i,
                last.start,
                j,
            );
            lemma_slice_valid(b, last.start, last.end);
            lemma_decode_concat(shown_text(b, front), b.subrange(last.start, last.end));
        } else {
            assert(shown_starts(b, p) =~= shown_starts(b, front));
            assert(shown_text(b, p) =~= shown_text(b, front));
        }
    }
}

/// Each char that a line shows stands at its own place in the text, and they are shown in the
/// order of the text; a click behind the last lands at the line's end. A line that shows
/// nothing has its start and its end.
pub proof fn law_shown_chars_stand_in_order(
    b: Seq<u8>,
    index: nat,
    start: int,
    end: int,
    inside: bool,
    reveal: bool,
)
    requires
        valid_utf8(b),
        is_boundary(b, start),
        is_boundary(b, end),
        start <= end,
    ensures
        ({
            let r = row_at(b, index, start, end, inside, reveal);
            let shown = decode_utf8(row_text(b, r));
            let map = row_map(b, r);
            &&& shown.len() > 0 ==> map.len() == shown.len() + 1
            &&& shown.len() == 0 ==> map == seq![start, end]
            &&& map.last() == end
            &&& forall|k: int|
                0 <= k < shown.len() ==> start <= #[trigger] map[k] < end && is_boundary(b, map[k])
                    && char_at_offset(b, map[k]) == shown[k]
            &&& forall|k: int, l: int|
                0 <= k < l < shown.len() ==> #[trigger] map[k] < #[trigger] map[l]
        }),
{
    let r = row_at(b, index, start, end, inside, reveal);
    law_row_tiles_its_line(b, index, start, end, inside, reveal);
    let (head, seen) = if reveal {
        (char_starts(b, start, r.marker_end), b.subrange(start, r.marker_end))
    } else {
        (Seq::<int>::empty(), Seq::<u8>::empty())
    };
    let at = shown_starts(b, r.spans);
    lemma_shown(b, r.spans, r.marker_end, end);
    lemma_starts_of(b, start, r.marker_end);
    lemma_slice_valid(b, start, r.marker_end);
    if !reveal {
        assert(chars_at(b, head) =~= Seq::<char>::empty());
        assert(decode_utf8(seen) =~= Seq::<char>::empty());
    }
    lemma_decode_concat(seen, shown_text(b, r.spans));
    lemma_ascends(b, head, at, start, r.marker_end, end);
    let starts = row_starts(b, r);
    assert(starts == head + at);
    let shown = decode_utf8(row_text(b, r));
    assert(chars_at(b, starts) == shown);
    let map = row_map(b, r);
    assert forall|k: int| 0 <= k < shown.len() implies start <= #[trigger] map[k] < end
        && is_boundary(b, map[k]) && char_at_offset(b, map[k]) == shown[k] by {
        assert(map[k] == starts[k]);
        assert(chars_at(b, starts)[k] == shown[k]);
    }
    assert forall|k: int, l: int| 0 <= k < l < shown.len() implies #[trigger] map[k]
        < #[trigger] map[l] by {
        assert(map[k] == starts[k] && map[l] == starts[l]);
    }
    if shown.len() == 0 {
        assert(map =~= seq![start, end]);
    }
}

/// What is shown of some pieces: the text of each that is visible, one after the other, and
/// nothing of the others.
pub proof fn law_hidden_pieces_are_left_out(b: Seq<u8>, p: Seq<Piece>, piece: Piece)
    ensures
        shown_text(b, Seq::empty()) == Seq::<u8>::empty(),
        piece.visible ==> shown_text(b, p.push(piece)) == shown_text(b, p) + b.subrange(
            piece.start,
            piece.end,
        ),
        !piece.visible ==> shown_text(b, p.push(piece)) == shown_text(b, p),
{
    assert(p.push(piece).drop_last() =~= p);
    assert(shown_text(b, p) + Seq::<u8>::empty() =~= shown_text(b, p));
}

/// The reader sees a line's marker if that shows, and then what its spans show.
pub proof fn law_marker_comes_before_the_text(b: Seq<u8>, r: Row)
    ensures
        r.marker_visible ==> row_text(b, r) == b.subrange(r.marker_start, r.marker_end)
            + shown_text(b, r.spans),
        !r.marker_visible ==> row_text(b, r) == shown_text(b, r.spans),
{
    assert(Seq::<u8>::empty() + shown_text(b, r.spans) =~= shown_text(b, r.spans));
}

} // verus!
