//! The command line of the standalone host, and what it shows of a plugin's state.
//!
//! ```text
//! vst3-host <path-to-plugin> [options]
//!
//!   --class <n>     instantiate class n instead of the first audio module
//!   --list          list the factory's classes and stop
//!   --no-editor     do not create the editor view
//!   --type <text>   send the text to the editor as key presses
//!   --state <file>  write the plugin's state to a file
//! ```

use vstd::prelude::*;
use vstd::string::*;
use vstd::utf8::{encode_utf8, valid_utf8};

use crate::ascii::{DASH, NINE, PLUS, ZERO};
use crate::block::tail;
use crate::bundle::words;
use crate::bytes::same_text;
use crate::decimal::{all_digits, digits_value, is_digit};
use crate::host::{AUDIO_MODULE, push_signed, signed_decimal};
use crate::input::is_control;
use crate::session::lit;
use crate::typing::append;

verus! {

/// What the host was asked to do.
#[derive(Debug)]
pub struct Args {
    pub path: String,
    pub class: Option<i32>,
    pub list: bool,
    pub editor: bool,
    pub type_text: Option<String>,
    pub state: Option<String>,
}

/// The arguments as mathematics.
#[verifier::ext_equal]
pub struct Order {
    pub path: Seq<char>,
    pub class: Option<i32>,
    pub list: bool,
    pub editor: bool,
    pub type_text: Option<Seq<char>>,
    pub state: Option<Seq<char>>,
}

/// The text of a string that may be there.
pub open spec fn text_of(s: Option<String>) -> Option<Seq<char>> {
    match s {
        Some(t) => Some(t@),
        None => None,
    }
}

impl View for Args {
    type V = Order;

    open spec fn view(&self) -> Order {
        Order {
            path: self.path@,
            class: self.class,
            list: self.list,
            editor: self.editor,
            type_text: text_of(self.type_text),
            state: text_of(self.state),
        }
    }
}

/// The number that a numeral stands for: digits, with a sign before them or not, as far as it
/// is one of thirty-two bits.
pub open spec fn number_of(b: Seq<u8>) -> Option<i32> {
    let signed = b.len() > 1 && (b[0] == DASH || b[0] == PLUS);
    let digits = if signed {
        tail(b, 1)
    } else {
        b
    };
    let n = digits_value(digits) as int;
    let value = if signed && b[0] == DASH {
        -n
    } else {
        n
    };
    if digits.len() > 0 && all_digits(digits) && i32::MIN <= value <= i32::MAX {
        Some(value as i32)
    } else {
        None
    }
}

/// More digits make no smaller number.
proof fn lemma_digits_grow(b: Seq<u8>, k: int)
    requires
        0 <= k <= b.len(),
        all_digits(b),
    ensures
        digits_value(b.subrange(0, k)) <= digits_value(b),
    decreases b.len(),
{
    if k < b.len() {
        assert(is_digit(b[b.len() - 1]));
        assert forall|i: int| 0 <= i < b.drop_last().len() implies is_digit(
            #[trigger] b.drop_last()[i],
        ) by {
            assert(is_digit(b[i]));
        }
        lemma_digits_grow(b.drop_last(), k);
        assert(b.drop_last().subrange(0, k) =~= b.subrange(0, k));
    } else {
        assert(b.subrange(0, k) =~= b);
    }
}

/// Read a number.
pub fn parse_number(s: &str) -> (r: Option<i32>)
    ensures
        r == number_of(s.spec_bytes()),
{
    let b = s.as_bytes();
    let signed = b.len() > 1 && (b[0] == DASH || b[0] == PLUS);
    let negative = signed && b[0] == DASH;
    let start: usize = if signed {
        1
    } else {
        0
    };
    let ghost digits = if signed {
        tail(b@, 1)
    } else {
        b@
    };
    if b.len() == start {
        return None;
    }
    let mut n: i64 = 0;
    let mut i: usize = start;
    proof {
        assert(digits.subrange(0, 0) =~= Seq::<u8>::empty());
        assert(digits =~= tail(b@, start as int));
    }
    while i < b.len()
        invariant
            start <= i <= b@.len(),
            start <= 1,
            b@ == s.spec_bytes(),
            digits == tail(b@, start as int),
            digits.len() > 0,
            signed == (b@.len() > 1 && (b@[0] == DASH || b@[0] == PLUS)),
            start == if signed {
                1int
            } else {
                0int
            },
            n == digits_value(digits.subrange(0, i - start)),
            0 <= n <= 0x8000_0000,
            forall|k: int| 0 <= k < i - start ==> is_digit(#[trigger] digits[k]),
        decreases b@.len() - i,
    {
        let x: u8 = b[i];
        proof {
            assert(digits[i - start] == x);
            assert(tail(b@, 0) =~= b@);
        }
        if x < ZERO || x > NINE {
            return None;
        }
        proof {
            let longer = digits.subrange(0, i + 1 - start);
            assert(longer.drop_last() =~= digits.subrange(0, i - start));
            assert(longer.last() == x);
        }
        let next: i64 = n * 10 + (x - ZERO) as i64;
        if next > 0x8000_0000 {
            proof {
                if all_digits(digits) {
                    lemma_digits_grow(digits, i + 1 - start);
                }
            }
            return None;
        }
        n = next;
        i += 1;
    }
    proof {
        assert(digits.subrange(0, i - start) =~= digits);
        assert(all_digits(digits));
        assert(tail(b@, 0) =~= b@);
    }
    if negative {
        Some((-n) as i32)
    } else if n < 0x8000_0000 {
        Some(n as i32)
    } else {
        None
    }
}

/// What the arguments from `i` on make of the order so far. A flag that wants a value takes the
/// argument after it, or gets none; arguments that are not known are passed over.
pub open spec fn order_from(args: Seq<Seq<char>>, i: int, so_far: Order) -> Order
    decreases args.len() + 1 - i,
{
    let value = if i + 1 < args.len() {
        Some(args[i + 1])
    } else {
        None
    };
    if i < 0 || i >= args.len() {
        so_far
    } else if args[i] == "--class"@ {
        order_from(
            args,
            i + 2,
            Order {
                class: match value {
                    Some(v) => number_of(encode_utf8(v)),
                    None => None,
                },
                ..so_far
            },
        )
    } else if args[i] == "--list"@ {
        order_from(args, i + 1, Order { list: true, ..so_far })
    } else if args[i] == "--no-editor"@ {
        order_from(args, i + 1, Order { editor: false, ..so_far })
    } else if args[i] == "--type"@ {
        order_from(args, i + 2, Order { type_text: value, ..so_far })
    } else if args[i] == "--state"@ {
        order_from(args, i + 2, Order { state: value, ..so_far })
    } else {
        order_from(args, i + 1, so_far)
    }
}

/// What the arguments, without the name of the program, ask for. None if there are none.
pub open spec fn order_of(args: Seq<Seq<char>>) -> Option<Order> {
    if args.len() == 0 {
        None
    } else {
        Some(
            order_from(
                args,
                1,
                Order {
                    path: args[0],
                    class: None,
                    list: false,
                    editor: true,
                    type_text: None,
                    state: None,
                },
            ),
        )
    }
}

/// The argument at `i`, if there is one.
fn argument(args: &Vec<String>, i: usize) -> (r: Option<String>)
    ensures
        text_of(r) == if i < args@.len() {
            Some(args@[i as int]@)
        } else {
            None
        },
{
    if i < args.len() {
        Some(args[i].clone())
    } else {
        None
    }
}

/// Read the command line, without the name of the program. None if it names no plugin.
pub fn parse_args(raw: &Vec<String>) -> (r: Option<Args>)
    ensures
        match (r, order_of(words(raw@))) {
            (Some(args), Some(order)) => args@ == order,
            (None, None) => true,
            _ => false,
        },
{
    if raw.len() == 0 {
        return None;
    }
    let ghost all = words(raw@);
    let mut args = Args {
        path: raw[0].clone(),
        class: None,
        list: false,
        editor: true,
        type_text: None,
        state: None,
    };
    let ghost target = order_from(all, 1, args@);
    let mut i: usize = 1;
    while i < raw.len()
        invariant
            1 <= i,
            all == words(raw@),
            target == order_from(all, i as int, args@),
        decreases raw@.len() + 1 - i,
    {
        proof {
            assert(all[i as int] == raw@[i as int]@);
            if i + 1 < raw@.len() {
                assert(all[i + 1] == raw@[i + 1]@);
            }
        }
        let ghost from = i;
        let flag = raw[i].as_str();
        if same_text(flag, "--class") {
            args.class = match argument(raw, i + 1) {
                Some(v) => parse_number(v.as_str()),
                None => None,
            };
            i = skip_two(i, raw.len());
        } else if same_text(flag, "--list") {
            args.list = true;
            i += 1;
        } else if same_text(flag, "--no-editor") {
            args.editor = false;
            i += 1;
        } else if same_text(flag, "--type") {
            args.type_text = argument(raw, i + 1);
            i = skip_two(i, raw.len());
        } else if same_text(flag, "--state") {
            args.state = argument(raw, i + 1);
            i = skip_two(i, raw.len());
        } else {
            i += 1;
        }
        proof {
            if i == raw@.len() {
                assert(order_from(all, from + 2, args@) == args@);
            }
            assert(target == order_from(all, i as int, args@));
        }
    }
    Some(args)
}

/// Two further, or the end.
fn skip_two(i: usize, n: usize) -> (r: usize)
    requires
        i < n,
    ensures
        i + 2 <= n ==> r == i + 2,
        i + 2 > n ==> r == n,
{
    if n - i >= 2 {
        i + 2
    } else {
        n
    }
}

/// The line that lists a class: the one that would be created is marked.
pub fn class_line(index: i32, name: &str, category: &str, chosen: bool) -> (r: String)
    ensures
        encode_utf8(r@) == (if chosen {
            lit("  *[")
        } else {
            lit("   [")
        }) + signed_decimal(index as int) + lit("] ") + name.spec_bytes() + lit("  (")
            + category.spec_bytes() + lit(")"),
{
    let mut r = (if chosen {
        "  *["
    } else {
        "   ["
    }).to_owned();
    push_signed(&mut r, index as i64);
    append(&mut r, "] ");
    append(&mut r, name);
    append(&mut r, "  (");
    append(&mut r, category);
    append(&mut r, ")");
    r
}

/// What to say before a class is created that is not an audio module. Only the processor can
/// be created directly; asking for a controller gives a bare E_NOINTERFACE, which is a confusing
/// thing to be told.
pub fn class_note(category: &str) -> (r: Option<String>)
    ensures
        match r {
            None => category@ == AUDIO_MODULE@,
            Some(note) => category@ != AUDIO_MODULE@ && encode_utf8(note@) == lit(
                "  note         this is a ",
            ) + category.spec_bytes() + lit(", not an ") + lit(AUDIO_MODULE) + lit(
                ".\n               Only the processor can be created directly; its\n",
            ) + lit("               controller is created automatically alongside it."),
        },
{
    if same_text(category, AUDIO_MODULE) {
        return None;
    }
    let mut r = "  note         this is a ".to_owned();
    append(&mut r, category);
    append(&mut r, ", not an ");
    append(&mut r, AUDIO_MODULE);
    append(&mut r, ".\n               Only the processor can be created directly; its\n");
    append(&mut r, "               controller is created automatically alongside it.");
    Some(r)
}

/// Parameters named in the report before it only counts the rest.
pub const NAMED_PARAMETERS: i32 = 5;

/// How many of a plugin's parameters are named in the report, and how many are only counted.
pub fn named_parameters(count: i32) -> (r: (i32, i32))
    ensures
        count <= 0 ==> r == (0i32, 0i32),
        0 <= count <= NAMED_PARAMETERS ==> r == (count, 0i32),
        count >= NAMED_PARAMETERS ==> r.0 == NAMED_PARAMETERS && r.1 == count - NAMED_PARAMETERS,
{
    if count <= 0 {
        (0, 0)
    } else if count <= NAMED_PARAMETERS {
        (count, 0)
    } else {
        (NAMED_PARAMETERS, count - NAMED_PARAMETERS)
    }
}

/// How much of a state is shown.
pub const PREVIEW_CHARS: usize = 200;

/// Text fit to be shown: there is some, and no control chars in it but newlines.
pub open spec fn is_printable(text: Seq<char>) -> bool {
    text.len() > 0 && forall|i: int|
        0 <= i < text.len() ==> !is_control(#[trigger] text[i]) || text[i] == '\n'
}

/// `std::str::from_utf8` checks that bytes are UTF-8, and hands them back as a string slice if
/// they are.
#[verifier::external_body]
fn checked_text(bytes: &[u8]) -> (r: Option<&str>)
    ensures
        match r {
            Some(s) => s.spec_bytes() == bytes@,
            None => !valid_utf8(bytes@),
        },
{
    std::str::from_utf8(bytes).ok()
}

/// The first chars of a state that is text fit to be shown.
pub fn state_preview(state: &[u8]) -> (r: Option<String>)
    ensures
        match r {
            Some(p) => exists|text: Seq<char>| #[trigger]
                encode_utf8(text) == state@ && is_printable(text) && p@ == text.subrange(
                    0,
                    if text.len() < PREVIEW_CHARS {
                        text.len() as int
                    } else {
                        PREVIEW_CHARS as int
                    },
                ),
            None => !valid_utf8(state@) || (exists|text: Seq<char>| #[trigger]
                encode_utf8(text) == state@ && !is_printable(text)),
        },
{
    let text = match checked_text(state) {
        Some(t) => t,
        None => {
            return None;
        },
    };
    let n: usize = text.unicode_len();
    let mut p = String::new();
    let mut i: usize = 0;
    proof {
        assert(encode_utf8(text@) == state@);
        assert(text@.subrange(0, 0) =~= Seq::<char>::empty());
    }
    if n == 0 {
        return None;
    }
    while i < n
        invariant
            i <= n,
            n == text@.len(),
            n > 0,
            encode_utf8(text@) == state@,
            forall|k: int| 0 <= k < i ==> !is_control(#[trigger] text@[k]) || text@[k] == '\n',
            p@ == text@.subrange(
                0,
                if i < PREVIEW_CHARS {
                    i as int
                } else {
                    PREVIEW_CHARS as int
                },
            ),
        decreases n - i,
    {
        let c = text.get_char(i);
        let u: u32 = c as u32;
        if c != '\n' && (u < 0x20 || (0x7f <= u && u <= 0x9f)) {
            return None;
        }
        if i < PREVIEW_CHARS {
            p.push(c);
            proof {
                assert(p@ =~= text@.subrange(0, i + 1));
            }
        }
        i += 1;
    }
    Some(p)
}

/// Digits stand for their number, and for its negative behind a dash; a plus says nothing. What
/// does not fit in thirty-two bits is no number.
pub proof fn law_numbers_are_read(digits: Seq<u8>)
    requires
        digits.len() > 0,
        all_digits(digits),
    ensures
        ({
            let n = digits_value(digits) as int;
            let (minus, plus) = (seq![0x2du8] + digits, seq![0x2bu8] + digits);
            &&& n <= i32::MAX ==> number_of(digits) == Some(n as i32)
            &&& n > i32::MAX ==> number_of(digits) is None
            &&& -n >= i32::MIN ==> number_of(minus) == Some((-n) as i32)
            &&& -n < i32::MIN ==> number_of(minus) is None
            &&& number_of(plus) == number_of(digits)
        }),
{
    assert(is_digit(digits[0]));
    assert(tail(seq![0x2du8] + digits, 1) =~= digits);
    assert(tail(seq![0x2bu8] + digits, 1) =~= digits);
}

/// Nothing else is a number: not an empty text, nor one with anything but digits behind a sign.
pub proof fn law_only_digits_are_numbers(b: Seq<u8>, i: int)
    requires
        number_of(b) is Some,
        0 <= i < b.len(),
    ensures
        0x30 <= b[i] <= 0x39 || (i == 0 && b.len() > 1 && (b[0] == 0x2d || b[0] == 0x2b)),
{
    let digits = tail(b, 1);
    if b.len() > 1 && (b[0] == DASH || b[0] == PLUS) {
        if i > 0 {
            assert(is_digit(digits[i - 1]));
        }
    } else {
        assert(is_digit(b[i]));
    }
}

/// What each option asks for. Those with a value take the argument behind them, if there is
/// one, and reading goes on behind that.
pub proof fn law_options_ask_for(args: Seq<Seq<char>>, i: int, o: Order)
    requires
        0 <= i < args.len(),
    ensures
        args[i] == "--list"@ ==> order_from(args, i, o) == order_from(
            args,
            i + 1,
            Order { list: true, ..o },
        ),
        args[i] == "--no-editor"@ ==> order_from(args, i, o) == order_from(
            args,
            i + 1,
            Order { editor: false, ..o },
        ),
        i + 1 < args.len() ==> {
            let value = args[i + 1];
            &&& args[i] == "--class"@ ==> order_from(args, i, o) == order_from(
                args,
                i + 2,
                Order { class: number_of(encode_utf8(value)), ..o },
            )
            &&& args[i] == "--type"@ ==> order_from(args, i, o) == order_from(
                args,
                i + 2,
                Order { type_text: Some(value), ..o },
            )
            &&& args[i] == "--state"@ ==> order_from(args, i, o) == order_from(
                args,
                i + 2,
                Order { state: Some(value), ..o },
            )
        },
{
    reveal_strlit("--class");
    reveal_strlit("--list");
    reveal_strlit("--no-editor");
    reveal_strlit("--type");
    reveal_strlit("--state");
    assert("--list"@.len() != "--class"@.len());
    assert("--no-editor"@.len() != "--class"@.len() && "--no-editor"@.len() != "--list"@.len());
    assert("--type"@[2] != "--list"@[2] && "--type"@.len() != "--class"@.len());
    assert("--state"@[2] != "--class"@[2]);
    assert("--state"@.len() != "--list"@.len() && "--state"@.len() != "--type"@.len());
}

/// Without options a plugin is opened with its editor, and nothing is typed into it.
pub proof fn law_path_comes_first(path: Seq<char>)
    ensures
        order_of(Seq::empty()) is None,
        order_of(seq![path]) == Some(
            Order {
                path,
                class: None,
                list: false,
                editor: true,
                type_text: None,
                state: None,
            },
        ),
{
}

/// A state is shown as text if it is some, and holds no control chars but newlines: a text is
/// printable exactly if it is not empty and each of its chars is.
pub proof fn law_printable_text(a: Seq<char>, c: char)
    ensures
        !is_printable(Seq::empty()),
        is_printable(seq![c]) <==> c == '\n' || !((c as u32) < 0x20 || 0x7f <= c as u32 <= 0x9f),
        a.len() > 0 ==> (is_printable(a.push(c)) <==> is_printable(a) && is_printable(seq![c])),
{
    let (b, one) = (a.push(c), seq![c]);
    assert(one[0] == c);
    if a.len() > 0 {
        if is_printable(b) {
            assert(b[a.len() as int] == c);
            assert forall|i: int| 0 <= i < a.len() implies !is_control(#[trigger] a[i]) || a[i]
                == '\n' by {
                assert(b[i] == a[i]);
            }
        }
        if is_printable(a) && is_printable(one) {
            assert forall|i: int| 0 <= i < b.len() implies !is_control(#[trigger] b[i]) || b[i]
                == '\n' by {
                if i < a.len() {
                    assert(b[i] == a[i]);
                } else {
                    assert(b[i] == one[0]);
                }
            }
        }
    }
}

} // verus!
