//! The VST3 host: what it says to a plugin, and what it makes of the answers.
//!
//! Loading a binary and calling through its interfaces is the application's part. The key
//! codes a host sends, the choice of a class, the errors, and the texts it reads back are
//! decided here.

use vstd::prelude::*;
use vstd::string::*;
use vstd::utf8::{decode_utf8_encode_utf8, encode_utf8, valid_utf8};

use crate::ascii::DASH;
use crate::bundle::words;
use crate::bytes::{lossy, lossy_text, push_byte, same_text};
use crate::decimal::{all_digits, decimal, digits_value, law_decimal_reads_back, push_decimal};
use crate::keys::{Key, Mods};
use crate::session::lit;
use crate::typing::append;

verus! {

// VST3 virtual key codes and modifier mask. A host has to speak these natively, so they are
// defined here rather than borrowed from the plugin.

pub const KEY_BACK: i16 = 1;

pub const KEY_TAB: i16 = 2;

pub const KEY_RETURN: i16 = 4;

pub const KEY_ESCAPE: i16 = 6;

pub const KEY_END: i16 = 9;

pub const KEY_HOME: i16 = 10;

pub const KEY_LEFT: i16 = 11;

pub const KEY_UP: i16 = 12;

pub const KEY_RIGHT: i16 = 13;

pub const KEY_DOWN: i16 = 14;

pub const KEY_PAGEUP: i16 = 15;

pub const KEY_PAGEDOWN: i16 = 16;

pub const KEY_DELETE: i16 = 22;

pub const MOD_SHIFT: i16 = 1;

pub const MOD_ALT: i16 = 2;

pub const MOD_COMMAND: i16 = 4;

pub const MOD_CONTROL: i16 = 8;

/// The answer of a call that went well. VST3 gives "true" and "ok" the same number.
pub const RESULT_OK: i32 = 0;

/// The category of a class that a DAW loads as a plugin.
pub const AUDIO_MODULE: &'static str = "Audio Module Class";

/// The first UTF-16 unit of a char: the char itself, or its high surrogate.
pub open spec fn first_unit(c: char) -> u16 {
    if (c as u32) < 0x10000 {
        (c as u32) as u16
    } else {
        (0xd800 + (c as u32 - 0x10000) / 0x400) as u16
    }
}

/// The char and the virtual key code that a host sends for a key. A char goes without a code,
/// and any other key without a char.
pub open spec fn key_code(key: Key) -> (u16, i16) {
    match key {
        Key::Char(c) => (first_unit(c), -1i16),
        Key::Enter => (0, KEY_RETURN),
        Key::Backspace => (0, KEY_BACK),
        Key::Delete => (0, KEY_DELETE),
        Key::Tab => (0, KEY_TAB),
        Key::Left => (0, KEY_LEFT),
        Key::Right => (0, KEY_RIGHT),
        Key::Up => (0, KEY_UP),
        Key::Down => (0, KEY_DOWN),
        Key::Home => (0, KEY_HOME),
        Key::End => (0, KEY_END),
        Key::PageUp => (0, KEY_PAGEUP),
        Key::PageDown => (0, KEY_PAGEDOWN),
        Key::Escape => (0, KEY_ESCAPE),
    }
}

/// The mask a host sends for the modifiers: Ctrl goes as the command key.
pub open spec fn mods_mask(mods: Mods) -> int {
    (if mods.ctrl {
        MOD_COMMAND as int
    } else {
        0
    }) + (if mods.shift {
        MOD_SHIFT as int
    } else {
        0
    }) + (if mods.alt {
        MOD_ALT as int
    } else {
        0
    })
}

/// Map an editor key onto the pair of char and virtual key code a host sends.
pub fn encode_key(key: Key) -> (r: (u16, i16))
    ensures
        r == key_code(key),
{
    match key {
        Key::Char(c) => {
            let u: u32 = c as u32;
            if u < 0x10000 {
                (u as u16, -1)
            } else {
                ((0xd800 + (u - 0x10000) / 0x400) as u16, -1)
            }
        },
        Key::Enter => (0, KEY_RETURN),
        Key::Backspace => (0, KEY_BACK),
        Key::Delete => (0, KEY_DELETE),
        Key::Tab => (0, KEY_TAB),
        Key::Left => (0, KEY_LEFT),
        Key::Right => (0, KEY_RIGHT),
        Key::Up => (0, KEY_UP),
        Key::Down => (0, KEY_DOWN),
        Key::Home => (0, KEY_HOME),
        Key::End => (0, KEY_END),
        Key::PageUp => (0, KEY_PAGEUP),
        Key::PageDown => (0, KEY_PAGEDOWN),
        Key::Escape => (0, KEY_ESCAPE),
    }
}

/// Map modifier state onto the mask a host sends.
pub fn encode_mods(mods: Mods) -> (m: i16)
    ensures
        m == mods_mask(mods),
{
    let mut m: i16 = 0;
    if mods.ctrl {
        m += MOD_COMMAND;
    }
    if mods.shift {
        m += MOD_SHIFT;
    }
    if mods.alt {
        m += MOD_ALT;
    }
    m
}

/// No two keys are sent alike: a key that is no char has a code of its own, and a char within
/// the first plane goes as itself.
pub proof fn law_key_codes_are_distinct(a: Key, b: Key)
    requires
        a matches Key::Char(c) ==> (c as u32) < 0x10000,
        b matches Key::Char(c) ==> (c as u32) < 0x10000,
        key_code(a) == key_code(b),
    ensures
        a == b,
{
    match (a, b) {
        (Key::Char(c), Key::Char(d)) => {
            assert((c as u32) as u16 == c as u32);
            assert((d as u32) as u16 == d as u32);
        },
        _ => {},
    }
}

/// No two states of the modifiers are sent alike.
pub proof fn law_mods_masks_are_distinct(a: Mods, b: Mods)
    requires
        mods_mask(a) == mods_mask(b),
    ensures
        a == b,
{
}

/// The key a typed char stands for: a newline is the Return key, so typing text of several
/// lines goes through exactly the path a real keyboard would.
pub open spec fn key_for(c: char) -> Key {
    if c == '\n' {
        Key::Enter
    } else {
        Key::Char(c)
    }
}

/// The key presses that type a text, one per char.
pub fn keys_for(text: &str) -> (r: Vec<Key>)
    ensures
        r@ == text@.map_values(|c: char| key_for(c)),
{
    let mut r: Vec<Key> = Vec::new();
    let n: usize = text.unicode_len();
    let mut i: usize = 0;
    while i < n
        invariant
            i <= n,
            n == text@.len(),
            r@ == text@.subrange(0, i as int).map_values(|c: char| key_for(c)),
        decreases n - i,
    {
        let c = text.get_char(i);
        r.push(if c == '\n' {
            Key::Enter
        } else {
            Key::Char(c)
        });
        i += 1;
        proof {
            assert(r@ =~= text@.subrange(0, i as int).map_values(|c: char| key_for(c)));
        }
    }
    proof {
        assert(text@.subrange(0, n as int) =~= text@);
    }
    r
}

// ---- errors -----------------------------------------------------------------------

/// What can go wrong between a host and a plugin.
#[derive(Debug)]
pub enum HostError {
    Load(String),
    MissingEntryPoint(String),
    NoBinary(String),
    NoFactory,
    NoClass,
    NoSuchClass(i32),
    CreateFailed(i32),
    MissingInterface(&'static str),
    NoView,
    Call(&'static str, i32),
}

/// The digits of a number, with a minus before those of a negative one.
pub open spec fn signed_decimal(n: int) -> Seq<u8> {
    if n < 0 {
        seq![DASH] + decimal((-n) as nat)
    } else {
        decimal(n as nat)
    }
}

/// Appends a number to a string.
pub fn push_signed(s: &mut String, n: i64)
    ensures
        encode_utf8(final(s)@) == encode_utf8(old(s)@) + signed_decimal(n as int),
{
    let ghost before = encode_utf8(s@);
    if n < 0 {
        push_byte(s, DASH);
        push_decimal(s, (-(n as i128)) as u128);
        proof {
            assert(encode_utf8(s@) =~= before + signed_decimal(n as int));
        }
    } else {
        push_decimal(s, n as u128);
    }
}

impl HostError {
    /// The error in words.
    pub open spec fn words(self) -> Seq<u8> {
        match self {
            HostError::Load(e) => lit("could not load plugin binary: ") + encode_utf8(e@),
            HostError::MissingEntryPoint(e) => lit("missing VST3 entry point: ") + encode_utf8(e@),
            HostError::NoBinary(p) => lit("no plugin binary found inside ") + encode_utf8(p@),
            HostError::NoFactory => lit("GetPluginFactory returned null"),
            HostError::NoClass => lit("the factory exposes no classes"),
            HostError::NoSuchClass(i) => lit("no class at index ") + signed_decimal(i as int),
            HostError::CreateFailed(c) => lit("createInstance failed (tresult ") + signed_decimal(
                c as int,
            ) + lit(")"),
            HostError::MissingInterface(i) => lit("plugin does not implement ") + encode_utf8(i@),
            HostError::NoView => lit("createView returned null"),
            HostError::Call(m, c) => encode_utf8(m@) + lit(" failed (tresult ") + signed_decimal(
                c as int,
            ) + lit(")"),
        }
    }

    /// The error in words.
    pub fn message(&self) -> (r: String)
        ensures
            encode_utf8(r@) == self.words(),
    {
        match self {
            HostError::Load(e) => joined_words("could not load plugin binary: ", e.as_str()),
            HostError::MissingEntryPoint(e) => joined_words(
                "missing VST3 entry point: ",
                e.as_str(),
            ),
            HostError::NoBinary(p) => joined_words("no plugin binary found inside ", p.as_str()),
            HostError::NoFactory => "GetPluginFactory returned null".to_owned(),
            HostError::NoClass => "the factory exposes no classes".to_owned(),
            HostError::NoSuchClass(i) => {
                let mut s = "no class at index ".to_owned();
                push_signed(&mut s, *i as i64);
                s
            },
            HostError::CreateFailed(c) => {
                let mut s = "createInstance failed (tresult ".to_owned();
                push_signed(&mut s, *c as i64);
                append(&mut s, ")");
                s
            },
            HostError::MissingInterface(i) => joined_words("plugin does not implement ", i),
            HostError::NoView => "createView returned null".to_owned(),
            HostError::Call(m, c) => {
                let mut s = joined_words(m, " failed (tresult ");
                push_signed(&mut s, *c as i64);
                append(&mut s, ")");
                s
            },
        }
    }
}

/// Two strings, one after the other.
fn joined_words(a: &str, b: &str) -> (r: String)
    ensures
        encode_utf8(r@) == a.spec_bytes() + b.spec_bytes(),
{
    let mut s = a.to_owned();
    append(&mut s, b);
    s
}

/// A call that must answer "ok", and the error that any other answer is.
pub fn expect_ok(call: &'static str, result: i32) -> (r: Result<(), HostError>)
    ensures
        result == RESULT_OK ==> r is Ok,
        result != RESULT_OK ==> r == Err::<(), HostError>(HostError::Call(call, result)),
{
    if result == RESULT_OK {
        Ok(())
    } else {
        Err(HostError::Call(call, result))
    }
}

// ---- classes ----------------------------------------------------------------------

/// What a plugin's factory reports of a class: the metadata a DAW uses to decide whether a
/// plugin is an effect or an instrument.
#[derive(Debug)]
pub struct ClassInfo2 {
    pub cid: [u8; 16],
    pub name: String,
    pub category: String,
    pub sub_categories: String,
    pub vendor: String,
    pub version: String,
    pub sdk_version: String,
    pub class_flags: u32,
    pub cardinality: i32,
}

/// Class `i` is one that a DAW would load.
pub open spec fn is_audio_module(categories: Seq<Option<String>>, i: int) -> bool {
    categories[i] matches Some(c) && c@ == AUDIO_MODULE@
}

/// Index of the first class a DAW would load, i.e. the audio module, given the category of
/// each class, as far as the factory tells it.
pub fn first_audio_class(categories: &Vec<Option<String>>) -> (r: Option<usize>)
    ensures
        match r {
            Some(i) => {
                &&& i < categories@.len()
                &&& is_audio_module(categories@, i as int)
                &&& forall|k: int| 0 <= k < i ==> !is_audio_module(categories@, k)
            },
            None => forall|k: int|
                0 <= k < categories@.len() ==> !is_audio_module(categories@, k),
        },
{
    let mut i: usize = 0;
    while i < categories.len()
        invariant
            i <= categories.len(),
            forall|k: int| 0 <= k < i ==> !is_audio_module(categories@, k),
        decreases categories.len() - i,
    {
        match &categories[i] {
            Some(c) => {
                if same_text(c.as_str(), AUDIO_MODULE) {
                    return Some(i);
                }
            },
            None => {},
        }
        i += 1;
    }
    None
}

/// The class to create: the one asked for, or else the first audio module, or else the first.
pub fn class_to_create(asked: Option<i32>, first_audio: Option<i32>) -> (r: i32)
    ensures
        r == match asked {
            Some(i) => i,
            None => match first_audio {
                Some(i) => i,
                None => 0i32,
            },
        },
{
    match asked {
        Some(i) => i,
        None => match first_audio {
            Some(i) => i,
            None => 0,
        },
    }
}

// ---- texts ------------------------------------------------------------------------

/// The units of a fixed-size buffer before its first zero.
pub open spec fn before_zero(units: Seq<u16>) -> Seq<u16>
    decreases units.len(),
{
    if units.len() == 0 || units[0] == 0 {
        Seq::empty()
    } else {
        seq![units[0]] + before_zero(units.drop_first())
    }
}

/// A unit of UTF-16 that is a char by itself, not half of a pair.
pub open spec fn stands_alone(u: u16) -> bool {
    u < 0xd800 || u > 0xdfff
}

/// Two units of UTF-16 that make up a char: a high half and a low one.
pub open spec fn is_pair(high: u16, low: u16) -> bool {
    0xd800 <= high <= 0xdbff && 0xdc00 <= low <= 0xdfff
}

/// The char that a pair of units makes up.
pub open spec fn paired(high: u16, low: u16) -> char {
    (0x10000 + (high - 0xd800) * 0x400 + (low - 0xdc00)) as char
}

/// The text that UTF-16 units stand for. Half of a pair that finds no other half becomes a
/// replacement character.
pub open spec fn utf16_text(units: Seq<u16>) -> Seq<char>
    decreases units.len(),
{
    if units.len() == 0 {
        Seq::empty()
    } else if stands_alone(units[0]) {
        seq![units[0] as char] + utf16_text(units.drop_first())
    } else if units.len() >= 2 && is_pair(units[0], units[1]) {
        seq![paired(units[0], units[1])] + utf16_text(units.subrange(2, units.len() as int))
    } else {
        seq!['\u{fffd}'] + utf16_text(units.drop_first())
    }
}

/// Units that are chars by themselves stand for those chars.
pub proof fn law_units_alone_are_chars(units: Seq<u16>)
    requires
        forall|i: int| 0 <= i < units.len() ==> stands_alone(#[trigger] units[i]),
    ensures
        utf16_text(units) == units.map_values(|u: u16| u as char),
    decreases units.len(),
{
    let f = |u: u16| u as char;
    if units.len() > 0 {
        let rest = units.drop_first();
        assert forall|i: int| 0 <= i < rest.len() implies stands_alone(#[trigger] rest[i]) by {
            assert(rest[i] == units[i + 1]);
        }
        law_units_alone_are_chars(rest);
        assert(utf16_text(units) =~= units.map_values(f));
    } else {
        assert(utf16_text(units) =~= units.map_values(f));
    }
}

/// `String::from_utf16_lossy` turns UTF-16 units into text: a unit alone or a pair of them into
/// a char, and every half of a pair without the other half into a replacement character.
#[verifier::external_body]
fn utf16_lossy(units: &Vec<u16>) -> (r: String)
    ensures
        r@ == utf16_text(units@),
{
    String::from_utf16_lossy(units)
}

/// The text in a fixed-size UTF-16 buffer, up to its first zero.
pub fn utf16_to_string(buf: &[u16]) -> (r: String)
    ensures
        r@ == utf16_text(before_zero(buf@)),
        (forall|i: int| 0 <= i < buf@.len() ==> stands_alone(#[trigger] buf@[i])) ==> r@
            == before_zero(buf@).map_values(|u: u16| u as char),
{
    let mut units: Vec<u16> = Vec::new();
    let mut i: usize = 0;
    proof {
        assert(buf@.subrange(0, buf@.len() as int) =~= buf@);
        assert(units@ + before_zero(buf@) =~= before_zero(buf@));
    }
    while i < buf.len() && buf[i] != 0
        invariant
            i <= buf.len(),
            before_zero(buf@) == units@ + before_zero(buf@.subrange(i as int, buf@.len() as int)),
            forall|k: int| 0 <= k < units@.len() ==> exists|j: int|
                0 <= j < buf@.len() && #[trigger] units@[k] == #[trigger] buf@[j],
        decreases buf.len() - i,
    {
        let ghost rest = buf@.subrange(i as int, buf@.len() as int);
        let ghost before = units@;
        units.push(buf[i]);
        proof {
            assert(rest.drop_first() =~= buf@.subrange(i + 1, buf@.len() as int));
            assert(before + (seq![rest[0]] + before_zero(rest.drop_first())) =~= units@
                + before_zero(rest.drop_first()));
            assert forall|k: int| 0 <= k < units@.len() implies exists|j: int|
                0 <= j < buf@.len() && #[trigger] units@[k] == #[trigger] buf@[j] by {
                if k < before.len() {
                    assert(units@[k] == before[k]);
                } else {
                    assert(units@[k] == buf@[i as int]);
                }
            }
        }
        i += 1;
    }
    proof {
        assert(units@ + Seq::<u16>::empty() =~= units@);
        assert(units@ == before_zero(buf@));
        if forall|k: int| 0 <= k < buf@.len() ==> stands_alone(#[trigger] buf@[k]) {
            law_units_alone_are_chars(units@);
        }
    }
    utf16_lossy(&units)
}

/// How many bytes of a fixed-size buffer stand before its first zero.
pub open spec fn text_len(bytes: Seq<u8>) -> int
    decreases bytes.len(),
{
    if bytes.len() == 0 || bytes[0] == 0 {
        0
    } else {
        1 + text_len(bytes.drop_first())
    }
}

/// The text in a fixed-size byte buffer, up to its first zero.
pub fn cstr_to_string(buf: &[u8]) -> (r: String)
    ensures
        0 <= text_len(buf@) <= buf@.len(),
        r@ == lossy_text(buf@.subrange(0, text_len(buf@))),
        valid_utf8(buf@.subrange(0, text_len(buf@))) ==> encode_utf8(r@) == buf@.subrange(
            0,
            text_len(buf@),
        ),
{
    let n: usize = buf.len();
    let mut i: usize = 0;
    proof {
        assert(buf@.subrange(0, n as int) =~= buf@);
    }
    while i < n && buf[i] != 0
        invariant
            i <= n,
            n == buf.len(),
            text_len(buf@) == i + text_len(buf@.subrange(i as int, n as int)),
        decreases n - i,
    {
        proof {
            assert(buf@.subrange(i as int, n as int).drop_first() =~= buf@.subrange(
                i + 1,
                n as int,
            ));
        }
        i += 1;
    }
    let text = vstd::slice::slice_subrange(buf, 0, i);
    proof {
        if valid_utf8(text@) {
            decode_utf8_encode_utf8(text@);
        }
    }
    lossy(text)
}

/// The size of a rectangle given by its edges.
pub fn rect_size(left: i32, top: i32, right: i32, bottom: i32) -> (r: (i32, i32))
    requires
        i32::MIN <= right - left <= i32::MAX,
        i32::MIN <= bottom - top <= i32::MAX,
    ensures
        r.0 == right - left,
        r.1 == bottom - top,
{
    (right - left, bottom - top)
}

/// What a host hands over to negotiate a speaker arrangement: for each side the arrangement and
/// the number of buses. No bus on a side is an arrangement of zero.
pub fn arrangement_request(input: Option<u64>, output: Option<u64>) -> (r: ((u64, i32), (u64, i32)))
    ensures
        r.0 == match input {
            Some(a) => (a, 1i32),
            None => (0u64, 0i32),
        },
        r.1 == match output {
            Some(a) => (a, 1i32),
            None => (0u64, 0i32),
        },
{
    let ins = match input {
        Some(a) => (a, 1),
        None => (0, 0),
    };
    let outs = match output {
        Some(a) => (a, 1),
        None => (0, 0),
    };
    (ins, outs)
}

/// What shape a plugin has, in words.
pub fn plugin_shape(has_controller: bool, separate: bool) -> (r: &'static str)
    ensures
        r@ == if !has_controller {
            "processor only (no controller)"@
        } else if separate {
            "processor + separate controller"@
        } else {
            "single-component effect"@
        },
{
    if !has_controller {
        "processor only (no controller)"
    } else if separate {
        "processor + separate controller"
    } else {
        "single-component effect"
    }
}

/// A pair of units is one char beyond the basic plane: the high half gives its upper ten bits,
/// the low half its lower ten.
pub proof fn law_pairs_are_chars(high: u16, low: u16, rest: Seq<u16>)
    requires
        0xd800 <= high <= 0xdbff,
        0xdc00 <= low <= 0xdfff,
    ensures
        ({
            let text = utf16_text(seq![high, low] + rest);
            &&& text.len() > 0
            &&& text[0] as u32 == 0x10000 + (high - 0xd800) * 0x400 + (low - 0xdc00)
            &&& text.drop_first() == utf16_text(rest)
        }),
{
    let units = seq![high, low] + rest;
    assert(units.subrange(2, units.len() as int) =~= rest);
    let text = utf16_text(units);
    assert(text == seq![paired(high, low)] + utf16_text(rest));
    assert(text.drop_first() =~= utf16_text(rest));
}

/// Half a pair alone is a replacement character, and what follows it is read on its own.
pub proof fn law_half_a_pair_is_replaced(u: u16, rest: Seq<u16>)
    requires
        0xd800 <= u <= 0xdfff,
        u > 0xdbff || rest.len() == 0 || rest[0] < 0xdc00 || rest[0] > 0xdfff,
    ensures
        utf16_text(seq![u] + rest) == seq!['\u{fffd}'] + utf16_text(rest),
{
    let units = seq![u] + rest;
    assert(units.drop_first() =~= rest);
}

/// Text from a buffer ends at its first zero, or with the buffer.
pub proof fn law_text_ends_at_the_first_zero(a: Seq<u16>, b: Seq<u16>)
    requires
        forall|i: int| 0 <= i < a.len() ==> #[trigger] a[i] != 0,
        b.len() == 0 || b[0] == 0,
    ensures
        before_zero(a + b) == a,
    decreases a.len(),
{
    if a.len() > 0 {
        let rest = a.drop_first();
        assert((a + b).drop_first() =~= rest + b);
        assert forall|i: int| 0 <= i < rest.len() implies #[trigger] rest[i] != 0 by {
            assert(rest[i] == a[i + 1]);
        }
        law_text_ends_at_the_first_zero(rest, b);
        assert(before_zero(a + b) =~= a);
    } else {
        assert(a + b =~= b);
        assert(before_zero(b) =~= a);
    }
}

/// The same of bytes.
pub proof fn law_bytes_end_at_the_first_zero(a: Seq<u8>, b: Seq<u8>)
    requires
        forall|i: int| 0 <= i < a.len() ==> #[trigger] a[i] != 0,
        b.len() == 0 || b[0] == 0,
    ensures
        text_len(a + b) == a.len(),
    decreases a.len(),
{
    if a.len() > 0 {
        let rest = a.drop_first();
        assert((a + b).drop_first() =~= rest + b);
        assert forall|i: int| 0 <= i < rest.len() implies #[trigger] rest[i] != 0 by {
            assert(rest[i] == a[i + 1]);
        }
        law_bytes_end_at_the_first_zero(rest, b);
    } else {
        assert(a + b =~= b);
    }
}

/// The codes that keys are sent with: a char goes as its own unit and no virtual key, and each
/// other key as its virtual key and no char.
pub proof fn law_keys_are_sent_by_their_codes(c: char)
    ensures
        (c as u32) < 0x10000 ==> key_code(Key::Char(c)).0 == c as u32,
        key_code(Key::Char(c)).1 == -1,
        key_code(Key::Enter) == (0u16, KEY_RETURN),
        key_code(Key::Backspace) == (0u16, KEY_BACK),
        key_code(Key::Delete) == (0u16, KEY_DELETE),
        key_code(Key::Tab) == (0u16, KEY_TAB),
        key_code(Key::Left) == (0u16, KEY_LEFT),
        key_code(Key::Right) == (0u16, KEY_RIGHT),
        key_code(Key::Up) == (0u16, KEY_UP),
        key_code(Key::Down) == (0u16, KEY_DOWN),
        key_code(Key::Home) == (0u16, KEY_HOME),
        key_code(Key::End) == (0u16, KEY_END),
        key_code(Key::PageUp) == (0u16, KEY_PAGEUP),
        key_code(Key::PageDown) == (0u16, KEY_PAGEDOWN),
        key_code(Key::Escape) == (0u16, KEY_ESCAPE),
{
}

/// Each modifier has a bit of its own in the mask.
pub proof fn law_modifiers_have_their_bits(mods: Mods)
    ensures
        mods_mask(mods) % 2 == 1 <==> mods.shift,
        (mods_mask(mods) / 2) % 2 == 1 <==> mods.alt,
        (mods_mask(mods) / 4) % 2 == 1 <==> mods.ctrl,
        0 <= mods_mask(mods) < 8,
{
}

/// A number is written as its digits, behind a dash if it is negative.
pub proof fn law_signed_numbers_read_back(n: int)
    ensures
        n >= 0 ==> digits_value(signed_decimal(n)) == n && all_digits(signed_decimal(n)),
        n < 0 ==> {
            let b = signed_decimal(n);
            &&& b[0] == 0x2d
            &&& all_digits(b.drop_first())
            &&& digits_value(b.drop_first()) == -n
        },
{
    if n < 0 {
        law_decimal_reads_back((-n) as nat);
        assert(signed_decimal(n).drop_first() =~= decimal((-n) as nat));
    } else {
        law_decimal_reads_back(n as nat);
    }
}

} // verus!
