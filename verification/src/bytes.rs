//! UTF-8 text as a sequence of bytes: char boundaries, slicing and splicing.

use vstd::prelude::*;
use vstd::string::*;
use vstd::utf8::{
    char_u32_cast, decode_first_scalar, decode_utf8, encode_utf8, encode_utf8_decode_utf8,
    encode_utf8_first_scalar, encode_utf8_valid_utf8, is_ascii_chars_encode_utf8, is_char_boundary,
    is_char_boundary_iff_not_is_continuation_byte, is_char_boundary_start_end_of_seq,
    is_continuation_byte, valid_utf8, valid_utf8_split,
};

verus! {

/// An offset at which UTF-8 text may be cut: its end, or a byte that starts a char.
pub open spec fn is_boundary(b: Seq<u8>, i: int) -> bool {
    0 <= i <= b.len() && (i < b.len() ==> !is_continuation_byte(b[i]))
}

/// `b` with the bytes from `start` up to `end` replaced by `with`.
pub open spec fn spliced(b: Seq<u8>, start: int, end: int, with: Seq<u8>) -> Seq<u8> {
    b.subrange(0, start) + with + b.subrange(end, b.len() as int)
}

/// The char whose encoding starts at `i`.
pub open spec fn char_at_offset(b: Seq<u8>, i: int) -> char {
    decode_first_scalar(b.subrange(i, b.len() as int)) as char
}

/// In valid text the byte-level notion of a boundary is the one strings are cut by.
pub broadcast proof fn lemma_boundary(b: Seq<u8>, i: int)
    requires
        valid_utf8(b),
    ensures
        #[trigger] is_char_boundary(b, i) == is_boundary(b, i),
{
    is_char_boundary_start_end_of_seq(b);
    if 0 <= i < b.len() {
        is_char_boundary_iff_not_is_continuation_byte(b, i);
    } else if i < 0 || i > b.len() {
        if b.len() == 0 {
            assert(!is_char_boundary(b, i));
        } else {
            assert(!is_char_boundary(b, i));
        }
    }
}

/// The first byte of valid text starts a char.
pub proof fn lemma_start_is_boundary(b: Seq<u8>)
    requires
        valid_utf8(b),
    ensures
        is_boundary(b, 0),
        is_boundary(b, b.len() as int),
{
    is_char_boundary_start_end_of_seq(b);
    lemma_boundary(b, 0);
}

/// Encoding distributes over concatenation.
pub proof fn lemma_encode_concat(x: Seq<char>, y: Seq<char>)
    ensures
        encode_utf8(x + y) == encode_utf8(x) + encode_utf8(y),
    decreases x.len(),
{
    if x.len() == 0 {
        assert(x + y =~= y);
        assert(encode_utf8(x) + encode_utf8(y) =~= encode_utf8(y));
    } else {
        assert((x + y).drop_first() =~= x.drop_first() + y);
        lemma_encode_concat(x.drop_first(), y);
        assert(encode_utf8(x + y) =~= encode_utf8(x) + encode_utf8(y));
    }
}

/// Text is determined by its bytes.
pub proof fn lemma_encode_injective(x: Seq<char>, y: Seq<char>)
    requires
        encode_utf8(x) == encode_utf8(y),
    ensures
        x == y,
{
    encode_utf8_decode_utf8(x);
    encode_utf8_decode_utf8(y);
}

/// Cutting valid text at two boundaries leaves valid text.
pub proof fn lemma_slice_valid(b: Seq<u8>, start: int, end: int)
    requires
        valid_utf8(b),
        is_boundary(b, start),
        is_boundary(b, end),
        start <= end,
    ensures
        valid_utf8(b.subrange(start, end)),
        is_boundary(b.subrange(0, end), start),
{
    lemma_boundary(b, end);
    valid_utf8_split(b, end);
    let head = b.subrange(0, end);
    lemma_boundary(head, start);
    valid_utf8_split(head, start);
    assert(head.subrange(start, head.len() as int) =~= b.subrange(start, end));
}

/// The bytes of a string slice fit in memory and are valid UTF-8.
pub proof fn lemma_str_valid(s: Seq<char>)
    ensures
        valid_utf8(encode_utf8(s)),
        is_boundary(encode_utf8(s), 0),
        is_boundary(encode_utf8(s), encode_utf8(s).len() as int),
{
    encode_utf8_valid_utf8(s);
    lemma_start_is_boundary(encode_utf8(s));
}

/// The part of `s` from byte `start` up to byte `end`.
pub fn slice<'a>(s: &'a str, start: usize, end: usize) -> (r: &'a str)
    requires
        is_boundary(s.spec_bytes(), start as int),
        is_boundary(s.spec_bytes(), end as int),
        start <= end,
    ensures
        r.spec_bytes() == s.spec_bytes().subrange(start as int, end as int),
{
    let ghost b = s.spec_bytes();
    proof {
        lemma_str_valid(s@);
        lemma_boundary(b, end as int);
        lemma_slice_valid(b, start as int, end as int);
    }
    let (head, _) = s.split_at(end);
    proof {
        lemma_str_valid(head@);
        lemma_boundary(head.spec_bytes(), start as int);
    }
    let (_, middle) = head.split_at(start);
    proof {
        assert(middle.spec_bytes() =~= b.subrange(start as int, end as int));
    }
    middle
}

/// A copy of `s` with the bytes from `start` up to `end` replaced by `with`.
pub fn splice(s: &str, start: usize, end: usize, with: &str) -> (r: String)
    requires
        is_boundary(s.spec_bytes(), start as int),
        is_boundary(s.spec_bytes(), end as int),
        start <= end,
    ensures
        encode_utf8(r@) == spliced(s.spec_bytes(), start as int, end as int, with.spec_bytes()),
{
    let all: usize = s.as_bytes().len();
    proof {
        lemma_str_valid(s@);
    }
    let before = slice(s, 0, start);
    let after = slice(s, end, all);
    let mut r = before.to_owned();
    r.append(with);
    r.append(after);
    proof {
        lemma_encode_concat(before@, with@);
        lemma_encode_concat(before@ + with@, after@);
    }
    r
}

/// Whether two strings hold the same text.
pub fn same_text(x: &str, y: &str) -> (r: bool)
    ensures
        r == (x@ == y@),
        r == (x.spec_bytes() == y.spec_bytes()),
{
    let a = x.as_bytes();
    let b = y.as_bytes();
    if a.len() != b.len() {
        return false;
    }
    let mut i: usize = 0;
    while i < a.len()
        invariant
            i <= a.len(),
            a.len() == b.len(),
            a@ == encode_utf8(x@),
            b@ == encode_utf8(y@),
            forall|k: int| 0 <= k < i ==> a[k] == b[k],
        decreases a.len() - i,
    {
        if a[i] != b[i] {
            return false;
        }
        i += 1;
    }
    proof {
        assert(a@ =~= b@);
        lemma_encode_injective(x@, y@);
    }
    true
}

/// The char that starts at byte `i`.
pub fn char_at(s: &str, i: usize) -> (c: char)
    requires
        is_boundary(s.spec_bytes(), i as int),
        i < s.spec_bytes().len(),
    ensures
        c == char_at_offset(s.spec_bytes(), i as int),
{
    let n: usize = s.as_bytes().len();
    proof {
        lemma_str_valid(s@);
    }
    let rest = slice(s, i, n);
    let mut it = rest.chars();
    proof {
        if rest@.len() == 0 {
            assert(encode_utf8(rest@).len() == 0);
        }
        encode_utf8_first_scalar(rest@);
        char_u32_cast(rest@[0], decode_first_scalar(rest.spec_bytes()));
    }
    match it.next() {
        Some(c) => c,
        None => ' ',
    }
}

/// `String::push` appends one char to a string and changes nothing else of it.
pub assume_specification[ String::push ](s: &mut String, c: char)
    ensures
        final(s)@ == old(s)@.push(c),
;

/// The text that `String::from_utf8_lossy` makes of some bytes.
pub uninterp spec fn lossy_text(bytes: Seq<u8>) -> Seq<char>;

/// `String::from_utf8_lossy` turns bytes into text. Bytes that are valid UTF-8 come through as
/// they are; what stands for the others, the replacement character and how many of them, is
/// left unsaid.
#[verifier::external_body]
pub(crate) fn lossy(bytes: &[u8]) -> (r: String)
    ensures
        r@ == lossy_text(bytes@),
        valid_utf8(bytes@) ==> r@ == decode_utf8(bytes@),
{
    String::from_utf8_lossy(bytes).into_owned()
}

/// Appends an ASCII byte to a string.
pub fn push_byte(s: &mut String, x: u8)
    requires
        x < 0x80,
    ensures
        encode_utf8(final(s)@) == encode_utf8(old(s)@).push(x),
{
    let ghost before = s@;
    let c: char = x as char;
    s.push(c);
    proof {
        let one = seq![c];
        assert(s@ =~= before + one);
        lemma_encode_concat(before, one);
        is_ascii_chars_encode_utf8(one);
        assert(encode_utf8(one) =~= seq![x]);
        assert(encode_utf8(s@) =~= encode_utf8(before).push(x));
    }
}

} // verus!
