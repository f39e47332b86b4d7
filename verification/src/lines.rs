//! A text as the sequence of its lines.

use vstd::prelude::*;
use vstd::string::*;
use vstd::utf8::{encode_utf8, valid_utf8};

use crate::ascii::NEWLINE;
use crate::bytes::{is_boundary, lemma_encode_concat, lemma_str_valid, push_byte, slice};
use crate::text::{
    lemma_line_end, lemma_line_end_is, lemma_line_start, line_end_of, line_index_of, line_start_of,
    newlines,
};

verus! {

/// The lines of `b`, without the newlines between them.
pub open spec fn lines_of(b: Seq<u8>) -> Seq<Seq<u8>>
    decreases b.len(),
{
    if b.len() == 0 {
        seq![Seq::<u8>::empty()]
    } else {
        let before = lines_of(b.drop_last());
        if b.last() == NEWLINE {
            before.push(Seq::<u8>::empty())
        } else {
            before.drop_last().push(before.last().push(b.last()))
        }
    }
}

/// The text whose lines are `lines`.
pub open spec fn joined(lines: Seq<Seq<u8>>) -> Seq<u8>
    decreases lines.len(),
{
    if lines.len() == 0 {
        Seq::empty()
    } else if lines.len() == 1 {
        lines[0]
    } else {
        joined(lines.drop_last()).push(NEWLINE) + lines.last()
    }
}

/// How many bytes the lines hold together, the newlines between them not counted.
pub open spec fn total_len(lines: Seq<Seq<u8>>) -> nat
    decreases lines.len(),
{
    if lines.len() == 0 {
        0
    } else {
        total_len(lines.drop_last()) + lines.last().len()
    }
}

/// The line that holds `pos`.
pub open spec fn line_of(b: Seq<u8>, pos: int) -> Seq<u8> {
    b.subrange(line_start_of(b, pos), line_end_of(b, pos))
}

/// The bytes of each string.
pub open spec fn string_views(v: Seq<String>) -> Seq<Seq<u8>> {
    Seq::new(v.len(), |i: int| encode_utf8(v[i]@))
}

/// The bytes of each slice.
pub open spec fn str_views(v: Seq<&str>) -> Seq<Seq<u8>> {
    Seq::new(v.len(), |i: int| encode_utf8(v[i]@))
}

/// There is one line more than there are newlines.
pub proof fn lemma_lines_len(b: Seq<u8>)
    ensures
        lines_of(b).len() == newlines(b) + 1,
    decreases b.len(),
{
    if b.len() > 0 {
        lemma_lines_len(b.drop_last());
    }
}

proof fn lemma_joined_last(lines: Seq<Seq<u8>>, x: u8)
    requires
        lines.len() > 0,
    ensures
        joined(lines.drop_last().push(lines.last().push(x))) == joined(lines).push(x),
{
    let grown = lines.drop_last().push(lines.last().push(x));
    assert(grown.drop_last() =~= lines.drop_last());
    if lines.len() == 1 {
        assert(joined(grown) =~= joined(lines).push(x));
    } else {
        assert(joined(grown) =~= joined(lines).push(x));
    }
}

/// Joining the lines of a text gives the text back.
pub proof fn law_lines_join_back(b: Seq<u8>)
    ensures
        joined(lines_of(b)) == b,
    decreases b.len(),
{
    if b.len() == 0 {
        assert(joined(lines_of(b)) =~= b);
    } else {
        let before = lines_of(b.drop_last());
        law_lines_join_back(b.drop_last());
        lemma_lines_len(b.drop_last());
        if b.last() == NEWLINE {
            let now = before.push(Seq::<u8>::empty());
            assert(now.drop_last() =~= before);
            assert(joined(now) =~= b);
        } else {
            lemma_joined_last(before, b.last());
            assert(b.drop_last().push(b.last()) =~= b);
        }
    }
}

/// No line holds a newline.
pub proof fn law_lines_hold_no_newline(b: Seq<u8>)
    ensures
        forall|k: int, i: int|
            0 <= k < lines_of(b).len() && 0 <= i < lines_of(b)[k].len() ==> #[trigger] lines_of(
                b,
            )[k][i] != NEWLINE,
    decreases b.len(),
{
    if b.len() > 0 {
        law_lines_hold_no_newline(b.drop_last());
        lemma_lines_len(b.drop_last());
        let before = lines_of(b.drop_last());
        assert forall|k: int, i: int|
            0 <= k < lines_of(b).len() && 0 <= i < lines_of(b)[k].len() implies #[trigger] lines_of(
            b,
        )[k][i] != NEWLINE by {
            if k < before.len() && i < before[k].len() {
                assert(before[k][i] != NEWLINE);
            }
        }
    }
}

/// A line put behind a text grows its last line.
proof fn lemma_lines_append(b: Seq<u8>, l: Seq<u8>)
    requires
        forall|i: int| 0 <= i < l.len() ==> #[trigger] l[i] != NEWLINE,
    ensures
        lines_of(b + l) == lines_of(b).drop_last().push(lines_of(b).last() + l),
    decreases l.len(),
{
    lemma_lines_len(b);
    if l.len() == 0 {
        assert(b + l =~= b);
        assert(lines_of(b).last() + l =~= lines_of(b).last());
        assert(lines_of(b).drop_last().push(lines_of(b).last()) =~= lines_of(b));
    } else {
        let head = l.drop_last();
        assert((b + l).drop_last() =~= b + head);
        assert forall|i: int| 0 <= i < head.len() implies #[trigger] head[i] != NEWLINE by {
            assert(head[i] == l[i]);
        }
        lemma_lines_append(b, head);
        let before = lines_of(b + head);
        assert((b + l).last() == l.last());
        assert(before.drop_last() =~= lines_of(b).drop_last());
        assert(before.last().push(l.last()) =~= lines_of(b).last() + l);
    }
}

/// The lines of two texts with a newline between them are those of the one and then those of
/// the other.
pub proof fn law_lines_concatenate(a: Seq<u8>, b: Seq<u8>)
    ensures
        lines_of(a.push(NEWLINE) + b) == lines_of(a) + lines_of(b),
    decreases b.len(),
{
    let c = a.push(NEWLINE) + b;
    lemma_lines_len(b);
    if b.len() == 0 {
        assert(c.drop_last() =~= a);
        assert(lines_of(c) =~= lines_of(a) + lines_of(b));
    } else {
        let head = b.drop_last();
        assert(c.drop_last() =~= a.push(NEWLINE) + head);
        assert(c.last() == b.last());
        law_lines_concatenate(a, head);
        lemma_lines_len(head);
        let before = lines_of(a) + lines_of(head);
        assert(before.last() == lines_of(head).last());
        assert(before.drop_last() =~= lines_of(a) + lines_of(head).drop_last());
        assert(lines_of(c) =~= lines_of(a) + lines_of(b));
    }
}

/// Splitting what some lines join to gives the lines back, as long as none holds a newline.
pub proof fn law_joined_lines_split_back(lines: Seq<Seq<u8>>)
    requires
        lines.len() > 0,
        forall|k: int, i: int|
            0 <= k < lines.len() && 0 <= i < lines[k].len() ==> #[trigger] lines[k][i] != NEWLINE,
    ensures
        lines_of(joined(lines)) == lines,
    decreases lines.len(),
{
    let last = lines.last();
    assert forall|i: int| 0 <= i < last.len() implies #[trigger] last[i] != NEWLINE by {
        assert(lines[lines.len() - 1][i] == last[i]);
    }
    if lines.len() == 1 {
        lemma_lines_append(Seq::empty(), last);
        assert(Seq::<u8>::empty() + last =~= last);
        assert(lines_of(last) =~= lines);
    } else {
        let head = lines.drop_last();
        assert forall|k: int, i: int|
            0 <= k < head.len() && 0 <= i < head[k].len() implies #[trigger] head[k][i] != NEWLINE by {
            assert(lines[k][i] == head[k][i]);
        }
        law_joined_lines_split_back(head);
        let b = joined(head).push(NEWLINE);
        assert(b.drop_last() =~= joined(head));
        lemma_lines_append(b, last);
        assert(lines_of(b).drop_last() =~= head);
        assert(lines_of(b).last() + last =~= last);
        assert(head.push(last) =~= lines);
    }
}

/// Up to `pos`, the last line of the text is what stands between its start and `pos`.
proof fn lemma_last_line(b: Seq<u8>, pos: int)
    requires
        0 <= pos <= b.len(),
    ensures
        lines_of(b.subrange(0, pos)).last() == b.subrange(line_start_of(b, pos), pos),
    decreases pos,
{
    let head = b.subrange(0, pos);
    if pos == 0 {
        assert(b.subrange(0, 0) =~= Seq::<u8>::empty());
    } else {
        assert(head.drop_last() =~= b.subrange(0, pos - 1));
        assert(head.last() == b[pos - 1]);
        lemma_last_line(b, pos - 1);
        lemma_lines_len(head.drop_last());
        lemma_line_start(b, pos - 1);
        if b[pos - 1] == NEWLINE {
            assert(b.subrange(pos, pos) =~= Seq::<u8>::empty());
        } else {
            let s = line_start_of(b, pos - 1);
            assert(b.subrange(s, pos - 1).push(b[pos - 1]) =~= b.subrange(s, pos));
        }
    }
}

/// Line number `line_index_of(pos)` is the line that holds `pos`, as far as `upto`.
proof fn lemma_line_upto(b: Seq<u8>, pos: int, upto: int)
    requires
        0 <= pos <= upto <= b.len(),
    ensures
        lines_of(b.subrange(0, upto)).len() > line_index_of(b, pos),
        lines_of(b.subrange(0, upto))[line_index_of(b, pos) as int] == b.subrange(
            line_start_of(b, pos),
            if line_end_of(b, pos) < upto {
                line_end_of(b, pos)
            } else {
                upto
            },
        ),
        line_end_of(b, pos) >= upto ==> lines_of(b.subrange(0, upto)).len() == line_index_of(b, pos)
            + 1,
    decreases upto,
{
    lemma_lines_len(b.subrange(0, pos));
    lemma_line_end(b, pos);
    lemma_line_start(b, pos);
    if upto == pos {
        lemma_last_line(b, pos);
    } else {
        let head = b.subrange(0, upto);
        lemma_line_upto(b, pos, upto - 1);
        assert(head.drop_last() =~= b.subrange(0, upto - 1));
        assert(head.last() == b[upto - 1]);
        let before = lines_of(b.subrange(0, upto - 1));
        let k = line_index_of(b, pos) as int;
        let s = line_start_of(b, pos);
        if b[upto - 1] == NEWLINE {
            assert(line_end_of(b, pos) <= upto - 1);
        } else if line_end_of(b, pos) >= upto {
            assert(b.subrange(s, upto - 1).push(b[upto - 1]) =~= b.subrange(s, upto));
        } else {
            assert(line_end_of(b, pos) < upto - 1) by {
                if line_end_of(b, pos) == upto - 1 {
                    assert(b[upto - 1] == NEWLINE);
                }
            }
            lemma_more_lines(b, pos, upto - 1);
        }
    }
}

/// Past the end of the line that holds `pos`, more lines follow.
proof fn lemma_more_lines(b: Seq<u8>, pos: int, upto: int)
    requires
        0 <= pos <= upto <= b.len(),
        line_end_of(b, pos) < upto,
    ensures
        lines_of(b.subrange(0, upto)).len() > line_index_of(b, pos) + 1,
    decreases upto,
{
    let head = b.subrange(0, upto);
    lemma_line_end(b, pos);
    assert(head.drop_last() =~= b.subrange(0, upto - 1));
    lemma_lines_len(head);
    lemma_lines_len(head.drop_last());
    if line_end_of(b, pos) < upto - 1 {
        lemma_more_lines(b, pos, upto - 1);
    } else {
        assert(head.last() == NEWLINE);
        lemma_newlines_monotonic(b, pos, upto - 1);
    }
}

proof fn lemma_newlines_monotonic(b: Seq<u8>, i: int, j: int)
    requires
        0 <= i <= j <= b.len(),
    ensures
        newlines(b.subrange(0, i)) <= newlines(b.subrange(0, j)),
    decreases j,
{
    if i < j {
        assert(b.subrange(0, j).drop_last() =~= b.subrange(0, j - 1));
        lemma_newlines_monotonic(b, i, j - 1);
    }
}

/// The line that holds `pos` is the line its index names.
pub proof fn law_line_at_its_index(b: Seq<u8>, pos: int)
    requires
        0 <= pos <= b.len(),
    ensures
        line_index_of(b, pos) < lines_of(b).len(),
        lines_of(b)[line_index_of(b, pos) as int] == line_of(b, pos),
{
    lemma_line_upto(b, pos, b.len() as int);
    lemma_line_end(b, pos);
    assert(b.subrange(0, b.len() as int) =~= b);
}

/// What some lines join to: their bytes, and a newline between each two of them.
proof fn lemma_joined_len(lines: Seq<Seq<u8>>)
    requires
        lines.len() > 0,
    ensures
        joined(lines).len() == total_len(lines) + lines.len() - 1,
    decreases lines.len(),
{
    if lines.len() == 1 {
        assert(total_len(lines.drop_last()) == 0);
    } else {
        lemma_joined_len(lines.drop_last());
    }
}

/// What the first `m` lines join to stands at the start of the text, up to a newline if there
/// are more.
proof fn lemma_joined_prefix(lines: Seq<Seq<u8>>, m: int)
    requires
        0 < m <= lines.len(),
    ensures
        ({
            let head = joined(lines.subrange(0, m));
            let b = joined(lines);
            &&& head.len() <= b.len()
            &&& b.subrange(0, head.len() as int) == head
            &&& head.len() == b.len() || b[head.len() as int] == NEWLINE
        }),
    decreases lines.len(),
{
    let b = joined(lines);
    if m == lines.len() {
        assert(lines.subrange(0, m) =~= lines);
        assert(b.subrange(0, b.len() as int) =~= b);
    } else {
        let rest = lines.drop_last();
        lemma_joined_prefix(rest, m);
        assert(rest.subrange(0, m) =~= lines.subrange(0, m));
        let head = joined(lines.subrange(0, m));
        let c = joined(rest);
        let n = head.len() as int;
        assert(b.subrange(0, n) =~= c.subrange(0, n));
        if n < c.len() {
            assert(b[n] == c[n]);
        }
    }
}

/// A line ends behind its own bytes, those of the lines before it, and a newline for each of
/// those.
pub proof fn law_line_end_by_length(lines: Seq<Seq<u8>>, k: int)
    requires
        0 <= k < lines.len(),
        forall|j: int, i: int|
            0 <= j < lines.len() && 0 <= i < lines[j].len() ==> #[trigger] lines[j][i] != NEWLINE,
    ensures
        ({
            let b = joined(lines);
            let end = total_len(lines.subrange(0, k + 1)) + k;
            &&& end <= b.len()
            &&& end == b.len() || b[end] == NEWLINE
            &&& line_index_of(b, end) == k
            &&& line_end_of(b, end) == end
        }),
{
    let b = joined(lines);
    let head = lines.subrange(0, k + 1);
    let end = total_len(head) + k;
    lemma_joined_len(head);
    lemma_joined_prefix(lines, k + 1);
    assert forall|j: int, i: int| 0 <= j < head.len() && 0 <= i < head[j].len() implies #[trigger] head[j][i]
        != NEWLINE by {
        assert(head[j][i] == lines[j][i]);
    }
    law_joined_lines_split_back(head);
    lemma_lines_len(joined(head));
    lemma_line_end_is(b, end, end);
}

/// The bytes of some of the lines fit in the bytes of the text they join to.
pub proof fn lemma_total_len(lines: Seq<Seq<u8>>, k: int)
    requires
        0 <= k <= lines.len(),
    ensures
        total_len(lines.subrange(0, k)) <= joined(lines).len(),
    decreases lines.len(),
{
    if lines.len() > 0 {
        if k == lines.len() {
            assert(lines.subrange(0, k) =~= lines);
            let rest = lines.drop_last();
            assert(rest.subrange(0, rest.len() as int) =~= rest);
            lemma_total_len(rest, rest.len() as int);
        } else {
            lemma_total_len(lines.drop_last(), k);
            assert(lines.drop_last().subrange(0, k) =~= lines.subrange(0, k));
        }
    }
}

/// The lines of a string.
pub fn split_lines<'a>(text: &'a str) -> (r: Vec<&'a str>)
    ensures
        str_views(r@) == lines_of(text.spec_bytes()),
{
    let b = text.as_bytes();
    let n: usize = b.len();
    let mut r: Vec<&'a str> = Vec::new();
    let mut start: usize = 0;
    let mut i: usize = 0;
    proof {
        lemma_str_valid(text@);
        assert(b@.subrange(0, 0) =~= Seq::<u8>::empty());
        assert(str_views(r@).push(b@.subrange(0, 0)) =~= lines_of(b@.subrange(0, 0)));
    }
    while i < n
        invariant
            start <= i <= n,
            n == b.len(),
            b@ == text.spec_bytes(),
            valid_utf8(b@),
            is_boundary(b@, start as int),
            is_boundary(b@, n as int),
            str_views(r@).push(b@.subrange(start as int, i as int)) == lines_of(
                b@.subrange(0, i as int),
            ),
        decreases n - i,
    {
        let ghost before = r@;
        proof {
            let head = b@.subrange(0, i + 1);
            assert(head.drop_last() =~= b@.subrange(0, i as int));
            assert(head.last() == b[i as int]);
            let lines = lines_of(b@.subrange(0, i as int));
            assert(lines.drop_last() =~= str_views(r@));
            assert(lines.last() == b@.subrange(start as int, i as int));
        }
        if b[i] == NEWLINE {
            proof {
                crate::text::lemma_after_ascii(b@, i as int);
            }
            let line = slice(text, start, i);
            r.push(line);
            start = i + 1;
            proof {
                assert(str_views(r@) =~= str_views(before).push(line.spec_bytes()));
                assert(b@.subrange(i + 1, i + 1) =~= Seq::<u8>::empty());
            }
        } else {
            proof {
                assert(b@.subrange(start as int, i as int).push(b[i as int]) =~= b@.subrange(
                    start as int,
                    i + 1,
                ));
            }
        }
        i += 1;
    }
    let ghost before = r@;
    let line = slice(text, start, n);
    r.push(line);
    proof {
        assert(b@.subrange(0, n as int) =~= b@);
        assert(str_views(r@) =~= str_views(before).push(line.spec_bytes()));
    }
    r
}

/// The text whose lines are the given strings.
pub fn join_lines(lines: &Vec<String>) -> (r: String)
    ensures
        encode_utf8(r@) == joined(string_views(lines@)),
{
    let mut r = String::new();
    let ghost views = string_views(lines@);
    let mut i: usize = 0;
    proof {
        assert(views.subrange(0, 0) =~= Seq::<Seq<u8>>::empty());
        assert(encode_utf8(r@) =~= Seq::<u8>::empty());
    }
    while i < lines.len()
        invariant
            i <= lines.len(),
            views == string_views(lines@),
            encode_utf8(r@) == joined(views.subrange(0, i as int)),
        decreases lines.len() - i,
    {
        proof {
            assert(views.subrange(0, i + 1).drop_last() =~= views.subrange(0, i as int));
        }
        if i > 0 {
            push_byte(&mut r, NEWLINE);
        }
        let ghost before = r@;
        r.append(lines[i].as_str());
        proof {
            lemma_encode_concat(before, lines[i as int]@);
            assert(encode_utf8(r@) =~= joined(views.subrange(0, i + 1)));
        }
        i += 1;
    }
    proof {
        assert(views.subrange(0, lines.len() as int) =~= views);
    }
    r
}

} // verus!
