//! Documents and files: what opening and saving come to.
//!
//! Reading and writing the disk is the application's part. It hands what it read to
//! [`Editor::open_path`], asks [`Editor::save`] or [`Editor::save_as`] where to write, and
//! reports back with [`Editor::written`] once the text is on disk.

use vstd::prelude::*;
use vstd::string::*;
use vstd::utf8::{encode_utf8, valid_utf8};

use crate::ascii::{
    BACKSLASH, COLON, DOT, LOWER_A, LOWER_Z, NEWLINE, QUESTION, RETURN, SLASH, UPPER_A, UPPER_C,
    UPPER_N, UPPER_U, UPPER_Z,
};
use crate::block::tail;
use crate::bundle::Os;
use crate::bytes::{is_boundary, lemma_boundary, lemma_str_valid, slice};
use crate::edit::Editor;
use crate::session::{lit, Session};
use crate::text::lemma_after_ascii;
use crate::typing::append;

verus! {

/// Extensions offered in the open and save dialogs.
pub const MARKDOWN_EXTENSIONS: [&'static str; 5] = ["md", "markdown", "mdown", "mkd", "txt"];

/// Why a document cannot be saved.
#[derive(Clone, Copy, PartialEq, Eq, Debug, Structural)]
pub enum FileError {
    /// The document has no path yet.
    NoFile,
}

impl FileError {
    /// The error in words.
    pub fn message(&self) -> (r: &'static str)
        ensures
            r@ == "no file associated with this document"@,
    {
        "no file associated with this document"
    }
}

/// `b` with every carriage return that stands before a newline left out.
pub open spec fn unix_lines(b: Seq<u8>) -> Seq<u8>
    decreases b.len(),
{
    if b.len() == 0 {
        Seq::empty()
    } else if b.len() >= 2 && b[0] == RETURN && b[1] == NEWLINE {
        unix_lines(b.drop_first())
    } else {
        seq![b[0]] + unix_lines(b.drop_first())
    }
}

/// How a path is read.
#[derive(Clone, Copy, PartialEq, Eq, Debug, Structural)]
pub enum PathStyle {
    /// Slashes separate.
    Unix,
    /// Slashes and backslashes separate.
    Windows,
    /// A Windows path that starts with `\\?\`: backslashes separate, and nothing in it stands
    /// for anything else.
    Verbatim,
}

/// A path starts with `\\?\`.
pub open spec fn is_verbatim(p: Seq<u8>) -> bool {
    p.len() >= 4 && p[0] == BACKSLASH && p[1] == BACKSLASH && p[2] == QUESTION && p[3] == BACKSLASH
}

/// How a system reads a path.
pub open spec fn style_of(os: Os, p: Seq<u8>) -> PathStyle {
    if os != Os::Windows {
        PathStyle::Unix
    } else if is_verbatim(p) {
        PathStyle::Verbatim
    } else {
        PathStyle::Windows
    }
}

/// A byte that separates the components of a path.
pub open spec fn is_separator(style: PathStyle, x: u8) -> bool {
    ||| x == SLASH && style != PathStyle::Verbatim
    ||| x == BACKSLASH && style != PathStyle::Unix
}

/// A letter that a drive can have.
pub open spec fn is_letter(x: u8) -> bool {
    (UPPER_A <= x && x <= UPPER_Z) || (LOWER_A <= x && x <= LOWER_Z)
}

/// A path starts with the letter of a drive and a colon.
pub open spec fn on_drive(p: Seq<u8>) -> bool {
    p.len() >= 2 && is_letter(p[0]) && p[1] == COLON
}

/// Where the component that starts at `i` ends.
pub open spec fn component_end(style: PathStyle, p: Seq<u8>, i: int) -> int
    decreases p.len() - i,
{
    if i >= p.len() || is_separator(style, p[i]) {
        i
    } else {
        component_end(style, p, i + 1)
    }
}

/// Two separators stand at the start of a path.
pub open spec fn starts_doubly(style: PathStyle, p: Seq<u8>) -> bool {
    p.len() >= 2 && is_separator(style, p[0]) && is_separator(style, p[1])
}

/// A path starts with the name of a device: `\\.\` and a component.
pub open spec fn on_device(style: PathStyle, p: Seq<u8>) -> bool {
    starts_doubly(style, p) && p.len() >= 4 && p[2] == DOT && is_separator(style, p[3])
}

/// Length of a server and a share that stand at the start of a path behind two separators, if
/// both are there.
pub open spec fn share_len(style: PathStyle, p: Seq<u8>) -> int {
    let server = component_end(style, p, 2);
    let share = component_end(style, p, server + 1);
    if starts_doubly(style, p) && 2 < server && server + 1 < share {
        share
    } else {
        0
    }
}

/// A verbatim path goes on with `UNC\`, a server and a share.
pub open spec fn on_verbatim_share(p: Seq<u8>) -> bool {
    p.len() >= 8 && p[4] == UPPER_U && p[5] == UPPER_N && p[6] == UPPER_C && p[7] == BACKSLASH
}

/// A verbatim path goes on with a drive and nothing else in that component.
pub open spec fn on_verbatim_drive(p: Seq<u8>) -> bool {
    p.len() >= 6 && is_letter(p[4]) && p[5] == COLON && (p.len() == 6 || p[6] == BACKSLASH)
}

/// Length of what stands before the first component of a verbatim path: a server and a share,
/// a drive, or one component whatever it is.
pub open spec fn verbatim_len(p: Seq<u8>) -> int {
    let style = PathStyle::Verbatim;
    if on_verbatim_share(p) {
        let server = component_end(style, p, 8);
        let share = component_end(style, p, server + 1);
        if server + 1 < share {
            share
        } else {
            server
        }
    } else if on_verbatim_drive(p) {
        6
    } else {
        component_end(style, p, 4)
    }
}

/// Length of what stands before the first component of a path: on Windows a drive, a share or
/// a device.
pub open spec fn prefix_len(os: Os, p: Seq<u8>) -> int {
    let style = style_of(os, p);
    if style == PathStyle::Unix {
        0
    } else if style == PathStyle::Verbatim {
        verbatim_len(p)
    } else if on_drive(p) {
        2
    } else if on_device(style, p) {
        component_end(style, p, 4)
    } else {
        share_len(style, p)
    }
}

/// Length of a path without the separators, and the components that stand for the directory
/// itself, at its end.
pub open spec fn trimmed_len(style: PathStyle, p: Seq<u8>) -> int
    decreases p.len(),
{
    if p.len() > 0 && is_separator(style, p.last()) {
        trimmed_len(style, p.drop_last())
    } else if p.len() >= 2 && p.last() == DOT && is_separator(style, p[p.len() - 2]) && style
        != PathStyle::Verbatim {
        trimmed_len(style, p.drop_last())
    } else {
        p.len() as int
    }
}

/// Where the last component of `p` starts.
pub open spec fn name_start(style: PathStyle, p: Seq<u8>) -> int
    decreases p.len(),
{
    if p.len() == 0 || is_separator(style, p.last()) {
        p.len() as int
    } else {
        name_start(style, p.drop_last())
    }
}

/// Where the name of the file that a path leads to ends.
pub open spec fn name_end_of(os: Os, p: Seq<u8>) -> int {
    let prefix = prefix_len(os, p);
    prefix + trimmed_len(style_of(os, p), tail(p, prefix))
}

/// The name of the file that a path leads to.
pub open spec fn file_name_of(os: Os, p: Seq<u8>) -> Seq<u8> {
    let q = p.subrange(prefix_len(os, p), name_end_of(os, p));
    tail(q, name_start(style_of(os, p), q))
}

/// A path leads to a file: its last component is a name, and not `.` or `..`.
pub open spec fn is_file_name(name: Seq<u8>) -> bool {
    &&& name.len() > 0
    &&& name != seq![DOT]
    &&& name != seq![DOT, DOT]
}

/// A name has an extension if a dot stands in it anywhere but at its start.
pub open spec fn has_extension(name: Seq<u8>) -> bool {
    exists|i: int| 1 <= i < name.len() && #[trigger] name[i] == DOT
}

/// A path with `.md` put behind a file name that has no extension.
pub open spec fn default_extension(os: Os, p: Seq<u8>) -> Seq<u8> {
    let name = file_name_of(os, p);
    if is_file_name(name) && !has_extension(name) {
        p.subrange(0, name_end_of(os, p)) + lit(".md")
    } else {
        p
    }
}

impl Session {
    /// A file opened: its text replaces the document, with Unix line ends, the caret goes to
    /// the start, and the history is forgotten.
    pub open spec fn opened(self, path: Seq<char>, contents: Seq<u8>) -> Session {
        Session {
            file: Some(path),
            dirty: false,
            ..self.replaced(unix_lines(contents)).caret_at(0)
        }.forgotten()
    }

    /// The document written to a file, which is now its own.
    pub open spec fn saved_to(self, path: Seq<char>) -> Session {
        Session { file: Some(path), dirty: false, ..self }
    }
}

/// Opening a file leaves nothing of the document before it: not its text, its caret, its
/// unsaved changes or its history. View, theme and size stay as they were.
pub proof fn law_opening_starts_afresh(s: Session, path: Seq<char>, contents: Seq<u8>)
    requires
        valid_utf8(contents),
    ensures
        ({
            let t = s.opened(path, contents);
            &&& t.text == unix_lines(contents)
            &&& t.caret == 0
            &&& t.anchor == 0
            &&& t.file == Some(path)
            &&& !t.dirty
            &&& t.undo.len() == 0
            &&& t.redo.len() == 0
            &&& t.mode == s.mode
            &&& t.theme == s.theme
            &&& t.width == s.width
            &&& t.height == s.height
        }),
{
}

/// A text without carriage returns is left as it is.
pub proof fn law_unix_text_is_kept(b: Seq<u8>)
    requires
        forall|i: int| 0 <= i < b.len() ==> #[trigger] b[i] != RETURN,
    ensures
        unix_lines(b) == b,
    decreases b.len(),
{
    if b.len() > 0 {
        let rest = b.drop_first();
        assert forall|i: int| 0 <= i < rest.len() implies #[trigger] rest[i] != RETURN by {
            assert(rest[i] == b[i + 1]);
        }
        law_unix_text_is_kept(rest);
        assert(seq![b[0]] + rest =~= b);
    }
}

/// Every line end stays, and nothing but carriage returns before a newline goes.
pub proof fn law_unix_lines_keeps_newlines(b: Seq<u8>)
    ensures
        unix_lines(b).filter(|x: u8| x != RETURN) == b.filter(|x: u8| x != RETURN),
    decreases b.len(),
{
    let keep = |x: u8| x != RETURN;
    reveal_with_fuel(Seq::filter, 2);
    if b.len() > 0 {
        law_unix_lines_keeps_newlines(b.drop_first());
        let head = seq![b[0]];
        let rest = b.drop_first();
        assert(b =~= head + rest);
        Seq::filter_distributes_over_add(head, rest, keep);
        Seq::filter_distributes_over_add(head, unix_lines(rest), keep);
        assert(head.drop_last() =~= Seq::<u8>::empty());
        if b.len() >= 2 && b[0] == RETURN && b[1] == NEWLINE {
            assert(head.filter(keep) =~= Seq::<u8>::empty());
            assert(b.filter(keep) =~= rest.filter(keep));
        }
    }
}

/// A carriage return and a newline stand at `i`.
pub open spec fn ends_line_at(b: Seq<u8>, i: int) -> bool {
    0 <= i && i + 1 < b.len() && b[i] == RETURN && b[i + 1] == NEWLINE
}

/// Wherever a carriage return and a newline stand in a text, a newline alone comes of them, and
/// what stands before and behind them is read as if it stood by itself.
pub proof fn law_line_end_becomes_a_newline(a: Seq<u8>, c: Seq<u8>)
    ensures
        unix_lines(a + seq![RETURN, NEWLINE] + c) == unix_lines(a) + seq![NEWLINE] + unix_lines(c),
    decreases a.len(),
{
    let b = a + seq![RETURN, NEWLINE] + c;
    if a.len() == 0 {
        let rest = b.drop_first();
        assert(b[0] == RETURN);
        assert(b[1] == NEWLINE);
        assert(rest[0] == NEWLINE);
        assert(rest.drop_first() =~= c);
        assert(unix_lines(rest) == seq![rest[0]] + unix_lines(rest.drop_first()));
        assert(unix_lines(b) == seq![NEWLINE] + unix_lines(c));
        assert(unix_lines(a) =~= Seq::<u8>::empty());
        assert(unix_lines(a) + seq![NEWLINE] + unix_lines(c) =~= seq![NEWLINE] + unix_lines(c));
    } else {
        let d = a.drop_first();
        law_line_end_becomes_a_newline(d, c);
        assert(b.drop_first() =~= d + seq![RETURN, NEWLINE] + c);
        assert(b[0] == a[0]);
        if a.len() >= 2 {
            assert(b[1] == a[1]);
        } else {
            assert(b[1] == RETURN);
        }
        assert(unix_lines(b) =~= unix_lines(a) + seq![NEWLINE] + unix_lines(c));
    }
}

/// A text in which no newline follows a carriage return is left as it is, whatever carriage
/// returns it holds by themselves.
pub proof fn law_lone_returns_stay(b: Seq<u8>)
    requires
        forall|i: int| !#[trigger] ends_line_at(b, i),
    ensures
        unix_lines(b) == b,
    decreases b.len(),
{
    if b.len() > 0 {
        let rest = b.drop_first();
        assert(!ends_line_at(b, 0));
        assert forall|i: int| !#[trigger] ends_line_at(rest, i) by {
            assert(!ends_line_at(b, i + 1));
            if 0 <= i && i + 1 < rest.len() {
                assert(rest[i] == b[i + 1]);
                assert(rest[i + 1] == b[i + 2]);
            }
        }
        law_lone_returns_stay(rest);
        assert(seq![b[0]] + rest =~= b);
    }
}

/// An opened text has no Windows line end left in it, but for one that a carriage return before
/// it makes up: a text without two of those in a row has none.
pub proof fn law_no_windows_line_end_is_left(b: Seq<u8>)
    requires
        forall|i: int| 0 <= i && i + 1 < b.len() ==> !(#[trigger] b[i] == RETURN && b[i + 1] == RETURN),
    ensures
        forall|i: int| !#[trigger] ends_line_at(unix_lines(b), i),
    decreases b.len(),
{
    let u = unix_lines(b);
    if b.len() > 0 {
        let rest = b.drop_first();
        assert forall|i: int| 0 <= i && i + 1 < rest.len() implies !(#[trigger] rest[i] == RETURN
            && rest[i + 1] == RETURN) by {
            assert(rest[i] == b[i + 1]);
            assert(rest[i + 1] == b[i + 2]);
        }
        law_no_windows_line_end_is_left(rest);
        let v = unix_lines(rest);
        if !(b.len() >= 2 && b[0] == RETURN && b[1] == NEWLINE) {
            assert(u == seq![b[0]] + v);
            assert forall|i: int| !#[trigger] ends_line_at(u, i) by {
                if i == 0 {
                    if b[0] == RETURN && u.len() >= 2 {
                        assert(rest[0] == b[1]);
                        assert(b[1] != RETURN);
                        assert(v[0] == b[1]);
                        assert(u[1] == v[0]);
                    }
                } else if i > 0 && i + 1 < u.len() {
                    assert(!ends_line_at(v, i - 1));
                    assert(u[i] == v[i - 1]);
                    assert(u[i + 1] == v[i]);
                }
            }
        }
    }
}

/// A path that leads to a file has an extension once the default is applied, and applying it
/// again changes nothing.
pub proof fn law_default_extension_settles(os: Os, p: Seq<u8>)
    ensures
        is_file_name(file_name_of(os, p)) ==> has_extension(
            file_name_of(os, default_extension(os, p)),
        ),
        default_extension(os, default_extension(os, p)) == default_extension(os, p),
{
    let name = file_name_of(os, p);
    let style = style_of(os, p);
    let prefix = prefix_len(os, p);
    let end = name_end_of(os, p);
    let q = p.subrange(prefix, end);
    let md = lit(".md");
    lemma_name_end(os, p);
    lemma_name_start(style, q);
    if is_file_name(name) && !has_extension(name) {
        let d = default_extension(os, p);
        reveal_strlit(".md");
        vstd::utf8::is_ascii_chars_encode_utf8(".md"@);
        assert(!is_separator(style, p[end - 1])) by {
            lemma_name_is_plain(style, q);
            assert(name.last() == p[end - 1]);
        }
        lemma_prefix_stays(os, p, end, md);
        assert(tail(d, prefix) =~= q + md);
        assert(tail(d, prefix).last() == md[2]);
        assert(trimmed_len(style, tail(d, prefix)) == q.len() + 3);
        assert(d.subrange(prefix, name_end_of(os, d)) =~= q + md);
        lemma_name_start_grows(style, q, md);
        let longer = file_name_of(os, d);
        assert(longer =~= name + md);
        assert(longer[name.len() as int] == md[0]);
    }
}

/// On every system but Windows a backslash is a letter like any other: what stands behind the
/// last slash is the name, backslashes and all.
pub proof fn law_only_slashes_separate(os: Os, p: Seq<u8>, i: int)
    requires
        os != Os::Windows,
        0 <= i <= p.len(),
        i > 0 ==> p[i - 1] == SLASH,
        forall|k: int| i <= k < p.len() ==> #[trigger] p[k] != SLASH,
        is_file_name(tail(p, i)),
    ensures
        file_name_of(os, p) == tail(p, i),
{
    let style = PathStyle::Unix;
    assert(tail(p, 0) =~= p);
    assert(p.last() == tail(p, i).last());
    if p.len() >= 2 && p.last() == DOT && p[p.len() - 2] == SLASH {
        assert(tail(p, i) =~= seq![DOT]);
    }
    assert(trimmed_len(style, p) == p.len());
    assert(p.subrange(0, p.len() as int) =~= p);
    lemma_name_start_is(style, p, i);
}

/// The last component starts behind the last separator.
proof fn lemma_name_start_is(style: PathStyle, p: Seq<u8>, i: int)
    requires
        0 <= i <= p.len(),
        i > 0 ==> is_separator(style, p[i - 1]),
        forall|k: int| i <= k < p.len() ==> !is_separator(style, #[trigger] p[k]),
    ensures
        name_start(style, p) == i,
    decreases p.len(),
{
    if p.len() > i {
        let q = p.drop_last();
        assert(p.last() == p[p.len() - 1]);
        assert forall|k: int| i <= k < q.len() implies !is_separator(style, #[trigger] q[k]) by {
            assert(q[k] == p[k]);
        }
        lemma_name_start_is(style, q, i);
    } else if i > 0 {
        assert(p.last() == p[i - 1]);
    }
}

proof fn lemma_component_end(style: PathStyle, p: Seq<u8>, i: int)
    requires
        0 <= i,
    ensures
        i <= component_end(style, p, i),
        i <= p.len() ==> component_end(style, p, i) <= p.len(),
        i > p.len() ==> component_end(style, p, i) == i,
        component_end(style, p, i) < p.len() ==> is_separator(style, p[component_end(style, p, i)]),
        forall|k: int|
            i <= k < component_end(style, p, i) ==> k < p.len() && !is_separator(
                style,
                #[trigger] p[k],
            ),
    decreases p.len() - i,
{
    if i < p.len() && !is_separator(style, p[i]) {
        lemma_component_end(style, p, i + 1);
    }
}

/// The component that starts at `i` ends at the first separator behind it, or with the path.
proof fn lemma_component_end_is(style: PathStyle, p: Seq<u8>, i: int, end: int)
    requires
        0 <= i <= end <= p.len(),
        end < p.len() ==> is_separator(style, p[end]),
        forall|k: int| i <= k < end ==> !is_separator(style, #[trigger] p[k]),
    ensures
        component_end(style, p, i) == end,
    decreases end - i,
{
    if i < end {
        lemma_component_end_is(style, p, i + 1, end);
    }
}

/// Two components, one behind the other.
proof fn lemma_two_components(style: PathStyle, p: Seq<u8>, i: int)
    requires
        0 <= i <= p.len(),
    ensures
        ({
            let first = component_end(style, p, i);
            let second = component_end(style, p, first + 1);
            &&& i <= first <= p.len()
            &&& first + 1 <= second
            &&& first + 1 < second ==> second <= p.len()
        }),
{
    lemma_component_end(style, p, i);
    lemma_component_end(style, p, component_end(style, p, i) + 1);
}

proof fn lemma_prefix_len(os: Os, p: Seq<u8>)
    ensures
        0 <= prefix_len(os, p) <= p.len(),
{
    let style = style_of(os, p);
    if p.len() >= 2 {
        lemma_two_components(style, p, 2);
    }
    if p.len() >= 4 {
        lemma_component_end(style, p, 4);
    }
    if p.len() >= 8 {
        lemma_two_components(style, p, 8);
    }
}

proof fn lemma_trimmed_len(style: PathStyle, p: Seq<u8>)
    ensures
        0 <= trimmed_len(style, p) <= p.len(),
    decreases p.len(),
{
    if p.len() > 0 {
        lemma_trimmed_len(style, p.drop_last());
    }
}

proof fn lemma_name_end(os: Os, p: Seq<u8>)
    ensures
        0 <= prefix_len(os, p) <= name_end_of(os, p) <= p.len(),
{
    lemma_prefix_len(os, p);
    lemma_trimmed_len(style_of(os, p), tail(p, prefix_len(os, p)));
}

proof fn lemma_name_start(style: PathStyle, p: Seq<u8>)
    ensures
        0 <= name_start(style, p) <= p.len(),
    decreases p.len(),
{
    if p.len() > 0 {
        lemma_name_start(style, p.drop_last());
    }
}

/// A name, if there is one, does not end in a separator.
proof fn lemma_name_is_plain(style: PathStyle, q: Seq<u8>)
    ensures
        name_start(style, q) < q.len() ==> !is_separator(style, q.last()),
{
}

/// A name starts at the same place when bytes other than separators are put behind it.
proof fn lemma_name_start_grows(style: PathStyle, q: Seq<u8>, more: Seq<u8>)
    requires
        forall|i: int| 0 <= i < more.len() ==> !is_separator(style, #[trigger] more[i]),
    ensures
        name_start(style, q + more) == name_start(style, q),
    decreases more.len(),
{
    if more.len() == 0 {
        assert(q + more =~= q);
    } else {
        assert((q + more).drop_last() =~= q + more.drop_last());
        assert((q + more).last() == more[more.len() - 1]);
        lemma_name_start_grows(style, q, more.drop_last());
    }
}

/// Leaving out what stands behind the name of a path leaves text.
proof fn lemma_trimming_leaves_text(style: PathStyle, p: Seq<u8>, prefix: int)
    requires
        valid_utf8(p),
        0 <= prefix <= p.len(),
    ensures
        valid_utf8(p.subrange(0, prefix + trimmed_len(style, tail(p, prefix)))),
    decreases p.len(),
{
    let rest = tail(p, prefix);
    lemma_trimmed_len(style, rest);
    if trimmed_len(style, rest) == rest.len() {
        assert(p.subrange(0, p.len() as int) =~= p);
    } else {
        let n = p.len() - 1;
        assert(rest.last() == p[n]);
        lemma_after_ascii(p, n);
        lemma_boundary(p, n);
        vstd::utf8::valid_utf8_split(p, n);
        let q = p.subrange(0, n);
        lemma_trimming_leaves_text(style, q, prefix);
        assert(tail(q, prefix) =~= rest.drop_last());
        lemma_trimmed_len(style, rest.drop_last());
        let end = prefix + trimmed_len(style, rest);
        assert(q.subrange(0, end) =~= p.subrange(0, end));
    }
}

/// A path that is text is still text once the default extension is applied.
pub proof fn law_default_extension_is_text(os: Os, p: Seq<u8>)
    requires
        valid_utf8(p),
    ensures
        valid_utf8(default_extension(os, p)),
{
    lemma_prefix_len(os, p);
    lemma_trimming_leaves_text(style_of(os, p), p, prefix_len(os, p));
    lemma_str_valid(".md"@);
    vstd::utf8::valid_utf8_concat(p.subrange(0, name_end_of(os, p)), lit(".md"));
}

/// `d` is `p` up to `end`, where `p` goes on with no separator before it, and then a dot and
/// more, without separators.
spec fn extends(style: PathStyle, p: Seq<u8>, end: int, d: Seq<u8>) -> bool {
    &&& 0 < end <= p.len()
    &&& !is_separator(style, p[end - 1])
    &&& end < d.len()
    &&& d[end] == DOT
    &&& forall|k: int| 0 <= k < end ==> #[trigger] d[k] == p[k]
    &&& forall|k: int| end <= k < d.len() ==> !is_separator(style, #[trigger] d[k])
}

/// A component that ends before the extension ends in the same place, and one that does not
/// runs to the end.
proof fn lemma_component_stays(style: PathStyle, p: Seq<u8>, end: int, d: Seq<u8>, i: int)
    requires
        extends(style, p, end, d),
        0 <= i <= end,
    ensures
        component_end(style, p, i) < end ==> component_end(style, d, i) == component_end(
            style,
            p,
            i,
        ),
        component_end(style, p, i) >= end ==> component_end(style, d, i) == d.len(),
{
    let e = component_end(style, p, i);
    lemma_component_end(style, p, i);
    if e < end {
        assert(d[e] == p[e]);
        assert forall|k: int| i <= k < e implies !is_separator(style, #[trigger] d[k]) by {
            assert(d[k] == p[k]);
        }
        lemma_component_end_is(style, d, i, e);
    } else {
        assert forall|k: int| i <= k < d.len() implies !is_separator(style, #[trigger] d[k]) by {
            if k < end {
                assert(d[k] == p[k]);
            }
        }
        lemma_component_end_is(style, d, i, d.len() as int);
    }
}

/// The second of two components, where the first ends before the extension.
proof fn lemma_second_stays(style: PathStyle, p: Seq<u8>, end: int, d: Seq<u8>, i: int)
    requires
        extends(style, p, end, d),
        0 <= i <= end,
        component_end(style, p, i) < end,
    ensures
        ({
            let first = component_end(style, p, i);
            let second = component_end(style, p, first + 1);
            &&& component_end(style, d, i) == first
            &&& first + 1 < end
            &&& second < end ==> component_end(style, d, first + 1) == second
            &&& second >= end ==> component_end(style, d, first + 1) == d.len()
        }),
{
    let first = component_end(style, p, i);
    lemma_component_end(style, p, i);
    lemma_component_stays(style, p, end, d, i);
    assert(is_separator(style, p[first]));
    lemma_component_stays(style, p, end, d, first + 1);
}

/// An extension put behind a name changes nothing of how a verbatim path starts.
proof fn lemma_verbatim_prefix_stays(p: Seq<u8>, end: int, d: Seq<u8>)
    requires
        extends(PathStyle::Verbatim, p, end, d),
        is_verbatim(p),
        verbatim_len(p) < end,
    ensures
        verbatim_len(d) == verbatim_len(p),
        is_verbatim(d),
{
    let style = PathStyle::Verbatim;
    lemma_component_end(style, p, 4);
    assert(end >= 4) by {
        if on_verbatim_share(p) {
            lemma_two_components(style, p, 8);
        }
    }
    assert(end > 4);
    assert(d[0] == p[0] && d[1] == p[1] && d[2] == p[2] && d[3] == p[3]);
    assert(d[4] == p[4]);
    if end > 5 {
        assert(d[5] == p[5]);
    }
    if end > 6 {
        assert(d[6] == p[6]);
    }
    if end > 7 {
        assert(d[7] == p[7]);
    }
    if on_verbatim_share(p) {
        lemma_two_components(style, p, 8);
        lemma_second_stays(style, p, end, d, 8);
    } else {
        assert(!on_verbatim_share(d));
        if on_verbatim_drive(p) {
            assert(end > 7);
        } else {
            assert(!on_verbatim_drive(d));
            lemma_component_stays(style, p, end, d, 4);
        }
    }
}

/// An extension put behind a name changes nothing of what stands before the first component.
proof fn lemma_prefix_stays(os: Os, p: Seq<u8>, end: int, more: Seq<u8>)
    requires
        prefix_len(os, p) < end <= p.len(),
        !is_separator(style_of(os, p), p[end - 1]),
        more.len() > 0,
        more[0] == DOT,
        forall|i: int| 0 <= i < more.len() ==> #[trigger] more[i] != SLASH && more[i] != BACKSLASH,
    ensures
        prefix_len(os, p.subrange(0, end) + more) == prefix_len(os, p),
        style_of(os, p.subrange(0, end) + more) == style_of(os, p),
{
    let d = p.subrange(0, end) + more;
    let style = style_of(os, p);
    lemma_prefix_len(os, p);
    assert forall|k: int| end <= k < d.len() implies !is_separator(style, #[trigger] d[k]) by {
        assert(d[k] == more[k - end]);
    }
    assert(d[end] == DOT);
    assert(extends(style, p, end, d));
    if style == PathStyle::Verbatim {
        lemma_verbatim_prefix_stays(p, end, d);
    } else if style == PathStyle::Windows {
        if end < 4 {
            assert(d[end] == DOT);
        }
        assert(!is_verbatim(d)) by {
            if end >= 4 {
                assert(d[0] == p[0] && d[1] == p[1] && d[2] == p[2] && d[3] == p[3]);
            }
        }
        assert(on_drive(d) == on_drive(p));
        if !on_drive(p) {
            lemma_windows_prefix_stays(p, end, d);
        }
    }
}

/// The same of a device or a share.
proof fn lemma_windows_prefix_stays(p: Seq<u8>, end: int, d: Seq<u8>)
    requires
        extends(PathStyle::Windows, p, end, d),
        (if on_device(PathStyle::Windows, p) {
            component_end(PathStyle::Windows, p, 4)
        } else {
            share_len(PathStyle::Windows, p)
        }) < end,
    ensures
        on_device(PathStyle::Windows, d) == on_device(PathStyle::Windows, p),
        on_device(PathStyle::Windows, p) ==> component_end(PathStyle::Windows, d, 4)
            == component_end(PathStyle::Windows, p, 4),
        !on_device(PathStyle::Windows, p) ==> share_len(PathStyle::Windows, d) == share_len(
            PathStyle::Windows,
            p,
        ),
{
    let style = PathStyle::Windows;
    if end == 1 {
        assert(!is_separator(style, d[1]));
    } else {
        assert(d[0] == p[0] && d[1] == p[1]);
    }
    if end > 2 {
        assert(d[2] == p[2]);
    }
    if end == 3 {
        assert(!is_separator(style, d[3]));
    } else if end > 3 {
        assert(d[3] == p[3]);
    }
    if starts_doubly(style, p) && end >= 2 {
        assert(end >= 3);
        lemma_two_components(style, p, 2);
        lemma_component_stays(style, p, end, d, 2);
        if on_device(style, p) {
            lemma_component_end(style, p, 4);
            lemma_component_stays(style, p, end, d, 4);
        } else if component_end(style, p, 2) < end {
            lemma_second_stays(style, p, end, d, 2);
        } else {
            lemma_component_end(style, d, d.len() as int + 1);
        }
    }
}

/// A string with Unix line ends.
pub fn to_unix_lines(s: &str) -> (r: String)
    ensures
        encode_utf8(r@) == unix_lines(s.spec_bytes()),
{
    let b = s.as_bytes();
    let n: usize = b.len();
    let mut r = String::new();
    let mut start: usize = 0;
    let mut i: usize = 0;
    proof {
        lemma_str_valid(s@);
        assert(encode_utf8(r@) =~= Seq::<u8>::empty());
        assert(tail(b@, 0) =~= b@);
        assert(unix_lines(b@) =~= encode_utf8(r@) + b@.subrange(0, 0) + unix_lines(tail(b@, 0)));
    }
    while i < n
        invariant
            start <= i <= n,
            n == b.len(),
            b@ == s.spec_bytes(),
            valid_utf8(b@),
            is_boundary(b@, start as int),
            is_boundary(b@, n as int),
            unix_lines(b@) == encode_utf8(r@) + b@.subrange(start as int, i as int) + unix_lines(
                tail(b@, i as int),
            ),
        decreases n - i,
    {
        let ghost rest = tail(b@, i as int);
        let ghost done = encode_utf8(r@);
        proof {
            assert(rest.drop_first() =~= tail(b@, i + 1));
            assert(rest[0] == b[i as int]);
            if i + 1 < n {
                assert(rest[1] == b[i + 1]);
            }
        }
        if n - i >= 2 && b[i] == RETURN && b[i + 1] == NEWLINE {
            proof {
                lemma_after_ascii(b@, i as int);
            }
            append(&mut r, slice(s, start, i));
            start = i + 1;
            proof {
                assert(b@.subrange(i + 1, i + 1) =~= Seq::<u8>::empty());
                assert(unix_lines(b@) =~= encode_utf8(r@) + b@.subrange(i + 1, i + 1) + unix_lines(
                    tail(b@, i + 1),
                ));
            }
        } else {
            proof {
                let part = b@.subrange(start as int, i as int);
                assert(b@.subrange(start as int, i + 1) =~= part + seq![b[i as int]]);
                assert(done + part + (seq![rest[0]] + unix_lines(tail(b@, i + 1))) =~= done + b@.subrange(
                    start as int,
                    i + 1,
                ) + unix_lines(tail(b@, i + 1)));
            }
        }
        i += 1;
    }
    let ghost done = encode_utf8(r@);
    append(&mut r, slice(s, start, n));
    proof {
        assert(tail(b@, n as int) =~= Seq::<u8>::empty());
        assert(done + b@.subrange(start as int, n as int) + Seq::<u8>::empty() =~= encode_utf8(r@));
    }
    r
}

/// How a path is read.
fn path_style(os: Os, b: &[u8]) -> (r: PathStyle)
    ensures
        r == style_of(os, b@),
{
    if os != Os::Windows {
        PathStyle::Unix
    } else if b.len() >= 4 && b[0] == BACKSLASH && b[1] == BACKSLASH && b[2] == QUESTION && b[3]
        == BACKSLASH {
        PathStyle::Verbatim
    } else {
        PathStyle::Windows
    }
}

/// Whether a byte separates the components of a path.
fn separates(style: PathStyle, x: u8) -> (r: bool)
    ensures
        r == is_separator(style, x),
{
    (x == SLASH && style != PathStyle::Verbatim) || (x == BACKSLASH && style != PathStyle::Unix)
}

/// Whether a byte is a letter that a drive can have.
fn names_drive(x: u8) -> (r: bool)
    ensures
        r == is_letter(x),
{
    (UPPER_A <= x && x <= UPPER_Z) || (LOWER_A <= x && x <= LOWER_Z)
}

/// Where the component that starts at `i` ends.
fn find_component_end(style: PathStyle, b: &[u8], i: usize) -> (r: usize)
    requires
        i <= b@.len(),
    ensures
        r == component_end(style, b@, i as int),
        i <= r <= b@.len(),
        r < b@.len() ==> is_separator(style, b@[r as int]),
{
    let mut j: usize = i;
    while j < b.len() && !separates(style, b[j])
        invariant
            i <= j <= b@.len(),
            component_end(style, b@, i as int) == component_end(style, b@, j as int),
        decreases b@.len() - j,
    {
        j += 1;
    }
    j
}

/// Where the second of two components ends, the first of which starts at `i`. None if there is
/// no second one, and where the first ends.
fn find_second_end(style: PathStyle, b: &[u8], i: usize) -> (r: (usize, Option<usize>))
    requires
        i <= b@.len(),
    ensures
        ({
            let first = component_end(style, b@, i as int);
            let second = component_end(style, b@, first + 1);
            &&& r.0 == first
            &&& i <= r.0 <= b@.len()
            &&& r.0 < b@.len() ==> is_separator(style, b@[r.0 as int])
            &&& match r.1 {
                Some(end) => {
                    &&& first + 1 < second
                    &&& end == second
                    &&& end <= b@.len()
                    &&& end < b@.len() ==> is_separator(style, b@[end as int])
                },
                None => second == first + 1,
            }
        }),
{
    let first: usize = find_component_end(style, b, i);
    if first == b.len() {
        proof {
            lemma_component_end(style, b@, first + 1);
        }
        return (first, None);
    }
    let second: usize = find_component_end(style, b, first + 1);
    if second == first + 1 {
        (first, None)
    } else {
        (first, Some(second))
    }
}

/// Length of the drive, the share or the device at the start of a path.
fn find_prefix(os: Os, path: &str) -> (r: usize)
    ensures
        r == prefix_len(os, path.spec_bytes()),
        r <= path.spec_bytes().len(),
        is_boundary(path.spec_bytes(), r as int),
{
    let b = path.as_bytes();
    let style = path_style(os, b);
    proof {
        lemma_str_valid(path@);
        lemma_prefix_len(os, b@);
        crate::bytes::lemma_start_is_boundary(b@);
    }
    let r: usize = match style {
        PathStyle::Unix => 0,
        PathStyle::Verbatim => find_verbatim_prefix(b),
        PathStyle::Windows => find_windows_prefix(b),
    };
    proof {
        if 0 < r < b@.len() {
            if b@[r as int] < 0x80 {
                lemma_after_ascii(b@, r as int);
            } else {
                lemma_after_ascii(b@, r - 1);
            }
        }
    }
    r
}

/// Length of what stands before the first component of a verbatim path.
fn find_verbatim_prefix(b: &[u8]) -> (r: usize)
    requires
        is_verbatim(b@),
    ensures
        r == verbatim_len(b@),
        r <= b@.len(),
        r < b@.len() ==> b@[r as int] < 0x80,
{
    let style = PathStyle::Verbatim;
    if b.len() >= 8 && b[4] == UPPER_U && b[5] == UPPER_N && b[6] == UPPER_C && b[7] == BACKSLASH {
        let (server, share) = find_second_end(style, b, 8);
        match share {
            Some(end) => end,
            None => server,
        }
    } else if b.len() >= 6 && names_drive(b[4]) && b[5] == COLON && (b.len() == 6 || b[6]
        == BACKSLASH) {
        6
    } else {
        find_component_end(style, b, 4)
    }
}

/// Length of what stands before the first component of any other Windows path.
fn find_windows_prefix(b: &[u8]) -> (r: usize)
    requires
        !is_verbatim(b@),
    ensures
        r == prefix_len(Os::Windows, b@),
        r <= b@.len(),
        0 < r < b@.len() ==> b@[r as int] < 0x80 || b@[r - 1] < 0x80,
{
    let style = PathStyle::Windows;
    if b.len() < 2 {
        return 0;
    }
    if names_drive(b[0]) && b[1] == COLON {
        return 2;
    }
    if !separates(style, b[0]) || !separates(style, b[1]) {
        return 0;
    }
    if b.len() >= 4 && b[2] == DOT && separates(style, b[3]) {
        return find_component_end(style, b, 4);
    }
    let (server, share) = find_second_end(style, b, 2);
    match share {
        Some(end) if server > 2 => end,
        _ => 0,
    }
}

/// Where the file name of a path starts and ends, its trailing separators left out.
fn name_range(os: Os, path: &str) -> (r: (usize, usize))
    ensures
        r.1 == name_end_of(os, path.spec_bytes()),
        r.0 <= r.1 <= path.spec_bytes().len(),
        path.spec_bytes().subrange(r.0 as int, r.1 as int) == file_name_of(os, path.spec_bytes()),
        is_boundary(path.spec_bytes(), r.0 as int),
        is_boundary(path.spec_bytes(), r.1 as int),
{
    let b = path.as_bytes();
    let ghost p = b@;
    let style = path_style(os, b);
    let prefix: usize = find_prefix(os, path);
    let ghost rest = tail(p, prefix as int);
    let mut end: usize = b.len();
    proof {
        lemma_str_valid(path@);
        assert(rest.subrange(0, end - prefix) =~= rest);
    }
    while end > prefix && (separates(style, b[end - 1]) || (end - prefix >= 2 && b[end - 1] == DOT
        && separates(style, b[end - 2]) && style != PathStyle::Verbatim))
        invariant
            prefix <= end <= b.len(),
            p == b@,
            valid_utf8(p),
            rest == tail(p, prefix as int),
            is_boundary(p, end as int),
            trimmed_len(style, rest) == trimmed_len(style, rest.subrange(0, end - prefix)),
        decreases end,
    {
        proof {
            let q = rest.subrange(0, end - prefix);
            assert(q.drop_last() =~= rest.subrange(0, end - prefix - 1));
            assert(q.last() == b[end - 1]);
            if q.len() >= 2 {
                assert(q[q.len() - 2] == b[end - 2]);
            }
            lemma_after_ascii(p, end - 1);
        }
        end -= 1;
    }
    let ghost q = p.subrange(prefix as int, end as int);
    proof {
        assert(rest.subrange(0, end - prefix) =~= q);
        if end > prefix {
            assert(q.last() == b[end - 1]);
        }
        if end - prefix >= 2 {
            assert(q[q.len() - 2] == b[end - 2]);
        }
        assert(trimmed_len(style, rest) == end - prefix);
        assert(q.subrange(0, end - prefix) =~= q);
    }
    let mut start: usize = end;
    while start > prefix && !separates(style, b[start - 1])
        invariant
            prefix <= start <= end <= b.len(),
            p == b@,
            q == p.subrange(prefix as int, end as int),
            name_start(style, q) == name_start(style, q.subrange(0, start - prefix)),
        decreases start,
    {
        proof {
            let part = q.subrange(0, start - prefix);
            assert(part.drop_last() =~= q.subrange(0, start - prefix - 1));
            assert(part.last() == b[start - 1]);
        }
        start -= 1;
    }
    proof {
        if start > prefix {
            assert(q.subrange(0, start - prefix).last() == b[start - 1]);
            lemma_after_ascii(p, start - 1);
        }
        assert(name_start(style, q) == start - prefix);
        assert(tail(q, start - prefix) =~= p.subrange(start as int, end as int));
    }
    (start, end)
}

/// What is a name, by length.
proof fn lemma_is_file_name(name: Seq<u8>)
    ensures
        is_file_name(name) == !(name.len() == 0 || (name.len() == 1 && name[0] == DOT) || (
        name.len() == 2 && name[0] == DOT && name[1] == DOT)),
{
    if name.len() == 1 && name[0] == DOT {
        assert(name =~= seq![DOT]);
    }
    if name.len() == 2 && name[0] == DOT && name[1] == DOT {
        assert(name =~= seq![DOT, DOT]);
    }
    assert(seq![DOT][0] == DOT);
    assert(seq![DOT, DOT][1] == DOT);
}

/// The name of the file that a path leads to, if it leads to one.
pub fn file_name(os: Os, path: &str) -> (r: Option<&str>)
    ensures
        match r {
            Some(name) => name.spec_bytes() == file_name_of(os, path.spec_bytes()) && is_file_name(
                name.spec_bytes(),
            ),
            None => !is_file_name(file_name_of(os, path.spec_bytes())),
        },
{
    let b = path.as_bytes();
    let (start, end) = name_range(os, path);
    let ghost name = file_name_of(os, b@);
    let len: usize = end - start;
    proof {
        if len > 0 {
            assert(name[0] == b[start as int]);
        }
        if len > 1 {
            assert(name[1] == b[start + 1]);
        }
        lemma_is_file_name(name);
    }
    if len == 0 || (len == 1 && b[start] == DOT) || (len == 2 && b[start] == DOT && b[start + 1]
        == DOT) {
        return None;
    }
    Some(slice(path, start, end))
}

/// Whether a file name has an extension.
pub fn name_has_extension(name: &str) -> (r: bool)
    ensures
        r == has_extension(name.spec_bytes()),
{
    let b = name.as_bytes();
    let mut i: usize = 1;
    while i < b.len()
        invariant
            1 <= i,
            b@ == name.spec_bytes(),
            forall|k: int| 1 <= k < i && k < b.len() ==> #[trigger] b[k] != DOT,
        decreases b.len() - i,
    {
        if b[i] == DOT {
            return true;
        }
        i += 1;
    }
    false
}

/// Append `.md` when the user typed a name without an extension.
pub fn with_default_extension(os: Os, path: &str) -> (r: String)
    ensures
        encode_utf8(r@) == default_extension(os, path.spec_bytes()),
{
    proof {
        lemma_str_valid(path@);
    }
    let (_, end) = name_range(os, path);
    match file_name(os, path) {
        Some(name) => {
            if name_has_extension(name) {
                path.to_owned()
            } else {
                let mut r = slice(path, 0, end).to_owned();
                append(&mut r, ".md");
                r
            }
        },
        None => path.to_owned(),
    }
}

impl Editor {
    /// Load what was read from `path` into the editor, replacing the current document. A file
    /// that could not be read changes nothing, and its error is handed back.
    pub fn open_path<E>(&mut self, path: &str, contents: Result<String, E>) -> (r: Result<(), E>)
        requires
            old(self)@.wf(),
        ensures
            match contents {
                Ok(t) => r is Ok && final(self)@ == old(self)@.opened(path@, encode_utf8(t@)),
                Err(e) => r == Err::<(), E>(e) && final(self)@ == old(self)@,
            },
            final(self)@.wf(),
    {
        match contents {
            Ok(t) => {
                let ghost before = self@;
                // Normalise line ends so caret arithmetic stays byte-exact.
                let text = to_unix_lines(t.as_str());
                self.set_text(text.as_str());
                self.set_caret(0);
                self.file = Some(path.to_owned());
                self.dirty = false;
                self.clear_history();
                proof {
                    assert(self@ =~= before.opened(path@, encode_utf8(t@)));
                }
                Ok(())
            },
            Err(e) => Err(e),
        }
    }

    /// The path to write the document to. Fails if the document has no path yet, in which case
    /// the caller should fall back to Save As.
    pub fn save(&self) -> (r: Result<String, FileError>)
        ensures
            match (r, self@.file) {
                (Ok(path), Some(file)) => path@ == file,
                (Err(e), None) => e == FileError::NoFile,
                _ => false,
            },
    {
        match &self.file {
            Some(path) => Ok(path.clone()),
            None => Err(FileError::NoFile),
        }
    }

    /// The path to write the document to when the user has chosen `path`.
    pub fn save_as(&self, os: Os, path: &str) -> (r: String)
        ensures
            encode_utf8(r@) == default_extension(os, path.spec_bytes()),
    {
        with_default_extension(os, path)
    }

    /// The document is now on disk at `path`, which it adopts.
    pub fn written(&mut self, path: &str)
        ensures
            final(self)@ == old(self)@.saved_to(path@),
            old(self)@.wf() ==> final(self)@.wf(),
    {
        self.file = Some(path.to_owned());
        self.dirty = false;
    }

    /// True when there are unsaved changes relative to disk or project state.
    pub fn is_dirty(&self) -> (r: bool)
        ensures
            r == self@.dirty,
    {
        self.dirty
    }
}

/// A name alone, or behind a slash, with no dot in it but perhaps at its start, gets the
/// extension of a markdown file; with a dot further on it stays as it is.
pub proof fn law_names_without_extension_get_one(os: Os, p: Seq<u8>, i: int)
    requires
        os != Os::Windows,
        0 <= i <= p.len(),
        i > 0 ==> p[i - 1] == SLASH,
        forall|k: int| i <= k < p.len() ==> #[trigger] p[k] != SLASH,
        is_file_name(tail(p, i)),
    ensures
        (forall|k: int| i < k < p.len() ==> #[trigger] p[k] != DOT) ==> default_extension(os, p) == p
            + seq![0x2eu8, 0x6du8, 0x64u8],
        (exists|k: int| i < k < p.len() && #[trigger] p[k] == DOT) ==> default_extension(os, p)
            == p,
{
    law_only_slashes_separate(os, p, i);
    let name = tail(p, i);
    lemma_whole_name(PathStyle::Unix, p, i);
    assert(tail(p, 0) =~= p);
    lemma_md();
    if forall|k: int| i < k < p.len() ==> #[trigger] p[k] != DOT {
        assert(!has_extension(name)) by {
            if has_extension(name) {
                let k = choose|k: int| 1 <= k < name.len() && #[trigger] name[k] == DOT;
                assert(p[i + k] == DOT);
            }
        }
        assert(p.subrange(0, p.len() as int) =~= p);
    }
    if exists|k: int| i < k < p.len() && #[trigger] p[k] == DOT {
        let k = choose|k: int| i < k < p.len() && #[trigger] p[k] == DOT;
        assert(name[k - i] == DOT);
    }
}

/// The same on Windows of a name alone or behind the directories of a drive or of the place
/// that the process is in: either slash parts them.
pub proof fn law_windows_names_without_extension_get_one(p: Seq<u8>, i: int)
    requires
        !(p.len() >= 2 && is_separator(PathStyle::Windows, p[0]) && is_separator(
            PathStyle::Windows,
            p[1],
        )),
        0 <= i <= p.len(),
        i > 0 ==> p[i - 1] == SLASH || p[i - 1] == BACKSLASH,
        on_drive(p) ==> i >= 2,
        forall|k: int| i <= k < p.len() ==> #[trigger] p[k] != SLASH && p[k] != BACKSLASH,
        is_file_name(tail(p, i)),
    ensures
        (forall|k: int| i < k < p.len() ==> #[trigger] p[k] != DOT) ==> default_extension(
            Os::Windows,
            p,
        ) == p + seq![0x2eu8, 0x6du8, 0x64u8],
        (exists|k: int| i < k < p.len() && #[trigger] p[k] == DOT) ==> default_extension(
            Os::Windows,
            p,
        ) == p,
{
    let style = PathStyle::Windows;
    let os = Os::Windows;
    let prefix = prefix_len(os, p);
    let q = tail(p, prefix);
    let name = tail(p, i);
    assert(style_of(os, p) == style);
    assert(prefix == if on_drive(p) {
        2int
    } else {
        0
    });
    assert(tail(q, i - prefix) =~= name);
    assert forall|k: int| i - prefix <= k < q.len() implies !is_separator(style, #[trigger] q[k]) by {
        assert(q[k] == p[k + prefix]);
    }
    if i > prefix {
        assert(q[i - prefix - 1] == p[i - 1]);
    }
    lemma_whole_name(style, q, i - prefix);
    assert(p.subrange(prefix, p.len() as int) =~= q);
    assert(file_name_of(os, p) == name);
    lemma_md();
    if forall|k: int| i < k < p.len() ==> #[trigger] p[k] != DOT {
        assert(!has_extension(name)) by {
            if has_extension(name) {
                let k = choose|k: int| 1 <= k < name.len() && #[trigger] name[k] == DOT;
                assert(p[i + k] == DOT);
            }
        }
        assert(p.subrange(0, p.len() as int) =~= p);
    }
    if exists|k: int| i < k < p.len() && #[trigger] p[k] == DOT {
        let k = choose|k: int| i < k < p.len() && #[trigger] p[k] == DOT;
        assert(name[k - i] == DOT);
    }
}

/// A path that ends in a name ends there, and the name starts behind the last separator.
proof fn lemma_whole_name(style: PathStyle, p: Seq<u8>, i: int)
    requires
        0 <= i <= p.len(),
        i > 0 ==> is_separator(style, p[i - 1]),
        forall|k: int| i <= k < p.len() ==> !is_separator(style, #[trigger] p[k]),
        is_file_name(tail(p, i)),
    ensures
        trimmed_len(style, p) == p.len(),
        name_start(style, p) == i,
{
    assert(p.last() == tail(p, i).last());
    assert(p.last() == p[p.len() - 1]);
    if p.len() >= 2 && p.last() == DOT && is_separator(style, p[p.len() - 2]) {
        assert(tail(p, i) =~= seq![DOT]);
    }
    lemma_name_start_is(style, p, i);
}

proof fn lemma_md()
    ensures
        lit(".md") == seq![0x2eu8, 0x6du8, 0x64u8],
{
    reveal_strlit(".md");
    vstd::utf8::is_ascii_chars_encode_utf8(".md"@);
    assert(lit(".md") =~= seq![0x2eu8, 0x6du8, 0x64u8]);
}

} // verus!
