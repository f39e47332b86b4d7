//! `moduleinfo.json`: what kind of plugin a bundle holds, for hosts to read without loading it.
//!
//! It declares the plugin's classes and their subcategories. The contents are read back out of
//! the binary that was just built, rather than written from constants, so the description
//! cannot disagree with the thing it describes.

use vstd::prelude::*;
use vstd::string::*;
use vstd::utf8::encode_utf8;

use crate::ascii::{BAR, QUOTE, ZERO};
use crate::block::tail;
use crate::bundle::{BUNDLE_NAME, VERSION};
use crate::bytes::{is_boundary, lemma_str_valid, push_byte, slice};
use crate::decimal::{decimal, push_decimal};
use crate::host::{ClassInfo2, push_signed, signed_decimal};
use crate::session::lit;
use crate::text::lemma_after_ascii;
use crate::typing::append;

verus! {

/// What a plugin's factory reports of itself.
#[derive(Debug)]
pub struct FactoryInfo {
    pub vendor: String,
    pub url: String,
    pub email: String,
    pub flags: i32,
}

/// The flag of a factory whose texts are Unicode.
pub const FACTORY_UNICODE: i32 = 16;

/// A hexadecimal digit, in capitals.
pub open spec fn hex_digit(n: int) -> u8 {
    if n < 10 {
        (ZERO + n) as u8
    } else {
        (0x41 + n - 10) as u8
    }
}

/// Bytes in hexadecimal, two digits each.
pub open spec fn hex(bytes: Seq<u8>) -> Seq<u8>
    decreases bytes.len(),
{
    if bytes.len() == 0 {
        Seq::empty()
    } else {
        hex(bytes.drop_last()).push(hex_digit(bytes.last() as int / 16)).push(
            hex_digit(bytes.last() as int % 16),
        )
    }
}

/// The parts of `b` between bars, but for the empty ones, each in quotes, the second and any
/// further one behind a comma. `any` says whether one came before.
pub open spec fn quoted_parts(b: Seq<u8>, any: bool) -> Seq<u8>
    decreases b.len(),
{
    let n = until_bar(b);
    let part = b.subrange(0, n);
    let own = if n == 0 {
        Seq::empty()
    } else if any {
        lit(", ").push(QUOTE) + part + seq![QUOTE]
    } else {
        seq![QUOTE] + part + seq![QUOTE]
    };
    if 0 <= n < b.len() {
        own + quoted_parts(tail(b, n + 1), any || n > 0)
    } else {
        own
    }
}

/// How many bytes stand before the first bar.
pub open spec fn until_bar(b: Seq<u8>) -> int
    decreases b.len(),
{
    if b.len() == 0 || b[0] == BAR {
        0
    } else {
        1 + until_bar(b.drop_first())
    }
}

/// A class, as `moduleinfo.json` describes it.
pub open spec fn class_entry(c: ClassInfo2) -> Seq<u8> {
    lit("    {\n      \"CID\": \"") + hex(c.cid@) + lit("\",\n      \"Category\": \"") + encode_utf8(
        c.category@,
    ) + lit("\",\n      \"Name\": \"") + encode_utf8(c.name@) + lit("\",\n      \"Vendor\": \"")
        + encode_utf8(c.vendor@) + lit("\",\n      \"Version\": \"") + encode_utf8(c.version@)
        + lit("\",\n      \"SDKVersion\": \"") + encode_utf8(c.sdk_version@) + lit(
        "\",\n      \"Sub Categories\": [",
    ) + quoted_parts(encode_utf8(c.sub_categories@), false) + lit("],\n      \"Class Flags\": ")
        + decimal(c.class_flags as nat) + lit(",\n      \"Cardinality\": ") + signed_decimal(
        c.cardinality as int,
    ) + lit("\n    }")
}

/// Classes one after the other, a comma between them.
pub open spec fn class_entries(classes: Seq<ClassInfo2>) -> Seq<u8>
    decreases classes.len(),
{
    if classes.len() == 0 {
        Seq::empty()
    } else if classes.len() == 1 {
        class_entry(classes[0])
    } else {
        class_entries(classes.drop_last()) + lit(",\n") + class_entry(classes.last())
    }
}

/// The whole of `moduleinfo.json`.
pub open spec fn module_info_of(factory: FactoryInfo, classes: Seq<ClassInfo2>) -> Seq<u8> {
    lit("{\n  \"Name\": \"") + lit(BUNDLE_NAME) + lit("\",\n  \"Version\": \"") + lit(VERSION)
        + lit("\",\n  \"Factory Info\": {\n    \"Vendor\": \"") + encode_utf8(factory.vendor@) + lit(
        "\",\n    \"URL\": \"",
    ) + encode_utf8(factory.url@) + lit("\",\n    \"E-Mail\": \"") + encode_utf8(factory.email@)
        + lit("\",\n    \"Flags\": {\n      \"Unicode\": ") + (if factory.flags & FACTORY_UNICODE
        != 0 {
        lit("true")
    } else {
        lit("false")
    }) + lit(
        ",\n      \"Classes Discardable\": false,\n      \"Component Non Discardable\": false\n    }\n  },\n  \"Classes\": [\n",
    ) + class_entries(classes) + lit("\n  ],\n  \"Compatibility\": []\n}\n")
}

fn hex_char(n: u8) -> (r: u8)
    requires
        n < 16,
    ensures
        r == hex_digit(n as int),
        r < 0x80,
{
    if n < 10 {
        ZERO + n
    } else {
        0x41 + (n - 10)
    }
}

impl ClassInfo2 {
    /// The class id in hexadecimal.
    pub fn cid_string(&self) -> (r: String)
        ensures
            encode_utf8(r@) == hex(self.cid@),
    {
        let mut r = String::new();
        let mut i: usize = 0;
        proof {
            assert(encode_utf8(r@) =~= Seq::<u8>::empty());
            assert(self.cid@.subrange(0, 0) =~= Seq::<u8>::empty());
        }
        while i < 16
            invariant
                i <= 16,
                self.cid@.len() == 16,
                encode_utf8(r@) == hex(self.cid@.subrange(0, i as int)),
            decreases 16 - i,
        {
            let x: u8 = self.cid[i];
            proof {
                let longer = self.cid@.subrange(0, i + 1);
                assert(longer.drop_last() =~= self.cid@.subrange(0, i as int));
                assert(longer.last() == x);
            }
            push_byte(&mut r, hex_char(x / 16));
            push_byte(&mut r, hex_char(x % 16));
            i += 1;
        }
        proof {
            assert(self.cid@.subrange(0, 16) =~= self.cid@);
        }
        r
    }
}

/// Append the subcategories of a class, each in quotes.
fn push_parts(s: &mut String, list: &str)
    ensures
        encode_utf8(final(s)@) == encode_utf8(old(s)@) + quoted_parts(list.spec_bytes(), false),
{
    let b = list.as_bytes();
    let n: usize = b.len();
    let ghost target = encode_utf8(s@) + quoted_parts(b@, false);
    let mut start: usize = 0;
    let mut any = false;
    proof {
        lemma_str_valid(list@);
        assert(tail(b@, 0) =~= b@);
    }
    loop
        invariant_except_break
            start <= n,
            n == b@.len(),
            b@ == list.spec_bytes(),
            vstd::utf8::valid_utf8(b@),
            is_boundary(b@, start as int),
            is_boundary(b@, n as int),
            target == encode_utf8(s@) + quoted_parts(tail(b@, start as int), any),
        ensures
            target == encode_utf8(s@),
        decreases n - start,
    {
        let ghost rest = tail(b@, start as int);
        let ghost before = encode_utf8(s@);
        let mut end: usize = start;
        while end < n && b[end] != BAR
            invariant
                start <= end <= n,
                n == b@.len(),
                rest == tail(b@, start as int),
                until_bar(rest) == (end - start) + until_bar(tail(b@, end as int)),
            decreases n - end,
        {
            proof {
                assert(tail(b@, end as int).drop_first() =~= tail(b@, end + 1));
            }
            end += 1;
        }
        proof {
            if end < n {
                assert(tail(b@, end as int)[0] == BAR);
                lemma_after_ascii(b@, end as int);
            }
            assert(until_bar(rest) == end - start);
            assert(rest.subrange(0, end - start) =~= b@.subrange(start as int, end as int));
        }
        if end > start {
            if any {
                append(s, ", ");
            }
            push_byte(s, QUOTE);
            append(s, slice(list, start, end));
            push_byte(s, QUOTE);
            proof {
                let part = b@.subrange(start as int, end as int);
                if any {
                    assert(encode_utf8(s@) =~= before + (lit(", ").push(QUOTE) + part + seq![
                        QUOTE,
                    ]));
                } else {
                    assert(encode_utf8(s@) =~= before + (seq![QUOTE] + part + seq![QUOTE]));
                }
            }
        } else {
            proof {
                assert(before + Seq::<u8>::empty() =~= before);
            }
        }
        if end >= n {
            break;
        }
        proof {
            let own = if end == start {
                Seq::<u8>::empty()
            } else if any {
                lit(", ").push(QUOTE) + rest.subrange(0, end - start) + seq![QUOTE]
            } else {
                seq![QUOTE] + rest.subrange(0, end - start) + seq![QUOTE]
            };
            let more = quoted_parts(tail(b@, end + 1), any || end > start);
            assert(tail(rest, end - start + 1) =~= tail(b@, end + 1));
            assert(encode_utf8(s@) == before + own);
            assert(before + (own + more) =~= (before + own) + more);
        }
        any = any || end > start;
        start = end + 1;
    }
}

/// Append a class, as `moduleinfo.json` describes it.
fn push_class(s: &mut String, c: &ClassInfo2)
    ensures
        encode_utf8(final(s)@) == encode_utf8(old(s)@) + class_entry(*c),
{
    let mut e = "    {\n      \"CID\": \"".to_owned();
    let cid = c.cid_string();
    append(&mut e, cid.as_str());
    append(&mut e, "\",\n      \"Category\": \"");
    append(&mut e, c.category.as_str());
    append(&mut e, "\",\n      \"Name\": \"");
    append(&mut e, c.name.as_str());
    append(&mut e, "\",\n      \"Vendor\": \"");
    append(&mut e, c.vendor.as_str());
    append(&mut e, "\",\n      \"Version\": \"");
    append(&mut e, c.version.as_str());
    append(&mut e, "\",\n      \"SDKVersion\": \"");
    append(&mut e, c.sdk_version.as_str());
    append(&mut e, "\",\n      \"Sub Categories\": [");
    push_parts(&mut e, c.sub_categories.as_str());
    append(&mut e, "],\n      \"Class Flags\": ");
    push_decimal(&mut e, c.class_flags as u128);
    append(&mut e, ",\n      \"Cardinality\": ");
    push_signed(&mut e, c.cardinality as i64);
    append(&mut e, "\n    }");
    append(s, e.as_str());
}

/// The whole of `moduleinfo.json`.
pub fn module_info(factory: &FactoryInfo, classes: &Vec<ClassInfo2>) -> (r: String)
    ensures
        encode_utf8(r@) == module_info_of(*factory, classes@),
{
    let mut entries = String::new();
    let mut i: usize = 0;
    proof {
        assert(encode_utf8(entries@) =~= Seq::<u8>::empty());
        assert(classes@.subrange(0, 0) =~= Seq::<ClassInfo2>::empty());
    }
    while i < classes.len()
        invariant
            i <= classes@.len(),
            encode_utf8(entries@) == class_entries(classes@.subrange(0, i as int)),
        decreases classes@.len() - i,
    {
        proof {
            let longer = classes@.subrange(0, i + 1);
            assert(longer.drop_last() =~= classes@.subrange(0, i as int));
            assert(longer.last() == classes@[i as int]);
            if i == 0 {
                assert(encode_utf8(entries@) + class_entry(classes@[0]) =~= class_entry(
                    classes@[0],
                ));
            }
        }
        if i > 0 {
            append(&mut entries, ",\n");
        }
        push_class(&mut entries, &classes[i]);
        i += 1;
    }
    proof {
        assert(classes@.subrange(0, i as int) =~= classes@);
    }
    let mut r = "{\n  \"Name\": \"".to_owned();
    append(&mut r, BUNDLE_NAME);
    append(&mut r, "\",\n  \"Version\": \"");
    append(&mut r, VERSION);
    append(&mut r, "\",\n  \"Factory Info\": {\n    \"Vendor\": \"");
    append(&mut r, factory.vendor.as_str());
    append(&mut r, "\",\n    \"URL\": \"");
    append(&mut r, factory.url.as_str());
    append(&mut r, "\",\n    \"E-Mail\": \"");
    append(&mut r, factory.email.as_str());
    append(&mut r, "\",\n    \"Flags\": {\n      \"Unicode\": ");
    if factory.flags & FACTORY_UNICODE != 0 {
        append(&mut r, "true");
    } else {
        append(&mut r, "false");
    }
    append(
        &mut r,
        ",\n      \"Classes Discardable\": false,\n      \"Component Non Discardable\": false\n    }\n  },\n  \"Classes\": [\n",
    );
    append(&mut r, entries.as_str());
    append(&mut r, "\n  ],\n  \"Compatibility\": []\n}\n");
    r
}

/// The value of a hexadecimal digit.
pub open spec fn hex_value(x: u8) -> int {
    if 0x30 <= x <= 0x39 {
        x - 0x30
    } else if 0x41 <= x <= 0x46 {
        x - 0x41 + 10
    } else {
        -1
    }
}

/// An identifier is written two digits to a byte, the upper half first, in capitals.
pub proof fn law_hex_reads_back(bytes: Seq<u8>, i: int)
    requires
        0 <= i < bytes.len(),
    ensures
        hex(bytes).len() == 2 * bytes.len(),
        hex_value(hex(bytes)[2 * i]) >= 0,
        hex_value(hex(bytes)[2 * i + 1]) >= 0,
        16 * hex_value(hex(bytes)[2 * i]) + hex_value(hex(bytes)[2 * i + 1]) == bytes[i],
    decreases bytes.len(),
{
    let front = bytes.drop_last();
    if i < front.len() {
        law_hex_reads_back(front, i);
    } else if front.len() > 0 {
        law_hex_reads_back(front, 0);
    }
    assert(hex(Seq::<u8>::empty()).len() == 0);
    assert(front.len() == 0 ==> front =~= Seq::<u8>::empty());
}

/// The parts of a list of categories are put in quotes, one after the other, with a comma and a
/// space between them; empty parts are left out.
pub proof fn law_parts_are_quoted(part: Seq<u8>, rest: Seq<u8>, any: bool)
    requires
        forall|i: int| 0 <= i < part.len() ==> #[trigger] part[i] != BAR,
    ensures
        quoted_parts(Seq::empty(), any) == Seq::<u8>::empty(),
        ({
            let lead = if any {
                lit(", ")
            } else {
                Seq::empty()
            };
            let own = if part.len() == 0 {
                Seq::empty()
            } else {
                lead + seq![QUOTE] + part + seq![QUOTE]
            };
            &&& quoted_parts(part, any) == own
            &&& quoted_parts(part.push(BAR) + rest, any) == own + quoted_parts(
                rest,
                any || part.len() > 0,
            )
        }),
{
    let n = part.len() as int;
    let all = part.push(BAR) + rest;
    lemma_until_bar_is(part, n);
    lemma_until_bar_is(all, n);
    assert(part.subrange(0, n) =~= part);
    assert(all.subrange(0, n) =~= part);
    assert(tail(all, n + 1) =~= rest);
    assert(lit(", ").push(QUOTE) + part + seq![QUOTE] =~= lit(", ") + seq![QUOTE] + part
        + seq![QUOTE]);
    assert(Seq::<u8>::empty() + seq![QUOTE] + part + seq![QUOTE] =~= seq![QUOTE] + part
        + seq![QUOTE]);
}

proof fn lemma_until_bar_is(b: Seq<u8>, n: int)
    requires
        0 <= n <= b.len(),
        forall|i: int| 0 <= i < n ==> #[trigger] b[i] != BAR,
        n == b.len() || b[n] == BAR,
    ensures
        until_bar(b) == n,
    decreases n,
{
    if n > 0 {
        assert(b[0] != BAR);
        let rest = b.drop_first();
        assert forall|i: int| 0 <= i < n - 1 implies #[trigger] rest[i] != BAR by {
            assert(rest[i] == b[i + 1]);
        }
        lemma_until_bar_is(rest, n - 1);
    }
}

/// The classes are listed in their order, with a comma between each two.
pub proof fn law_classes_are_listed_in_order(classes: Seq<ClassInfo2>, c: ClassInfo2)
    ensures
        class_entries(Seq::empty()) == Seq::<u8>::empty(),
        class_entries(seq![c]) == class_entry(c),
        classes.len() > 0 ==> class_entries(classes.push(c)) == class_entries(classes) + lit(",\n")
            + class_entry(c),
{
    assert(classes.push(c).drop_last() =~= classes);
}

} // verus!
