//! Open, Save and Save As, as far as they need no dialog and no disk.
//!
//! Shared by the key handler and the toolbar so both behave identically: [`perform`] says what
//! a command asks of the application, and [`conclude`] what becomes of the document, and what
//! the user is told, once the application has done it.

use vstd::prelude::*;
use vstd::string::*;
use vstd::utf8::{decode_utf8, decode_utf8_encode_utf8, encode_utf8, encode_utf8_decode_utf8};

use crate::bundle::Os;
use crate::bytes::{lemma_encode_concat, lemma_str_valid};
use crate::edit::Editor;
use crate::file::{
    default_extension, file_name, file_name_of, is_file_name, law_default_extension_is_text,
    unix_lines,
};
use crate::keys::Command;
use crate::session::{lit, Session};
use crate::state::Saved;
use crate::typing::append;

verus! {

/// What the application has to do for a command.
#[derive(Debug)]
pub enum Request {
    /// Let the user pick a file, and read it.
    Open,
    /// Write the document to its file.
    Write(String),
    /// Let the user pick a file to write the document to, with a name suggested.
    WriteElsewhere(String),
}

/// A request as mathematics.
#[verifier::ext_equal]
pub enum Asked {
    Open,
    Write(Seq<char>),
    WriteElsewhere(Seq<u8>),
}

/// How it went. A path that the user picked is given as they picked it.
#[derive(Debug)]
pub enum Answer {
    /// The user closed the dialog without picking a file.
    Cancelled,
    /// The file that the user picked was read, or why it could not be.
    Opened { path: String, contents: Result<String, String> },
    /// The document was written to its file, or why it could not be.
    Saved { path: String, failure: Option<String> },
    /// The document was written to the file that the user picked, once that had an extension,
    /// or why it could not be.
    SavedAs { path: String, failure: Option<String> },
}

impl Answer {
    /// The application could not do what it was asked.
    pub open spec fn failed(self) -> bool {
        match self {
            Answer::Cancelled => false,
            Answer::Opened { contents, .. } => contents is Err,
            Answer::Saved { failure, .. } => failure is Some,
            Answer::SavedAs { failure, .. } => failure is Some,
        }
    }
}

/// What to tell the user when a command failed.
pub open spec fn failure_of(command: Command, path: Seq<char>, reason: Seq<char>) -> Seq<u8> {
    match command {
        Command::Open => lit("could not open ") + encode_utf8(path) + lit(": ") + encode_utf8(
            reason,
        ),
        Command::Save => lit("could not save: ") + encode_utf8(reason),
        Command::SaveAs => lit("could not save ") + encode_utf8(path) + lit(": ") + encode_utf8(
            reason,
        ),
    }
}

impl View for Request {
    type V = Asked;

    open spec fn view(&self) -> Asked {
        match self {
            Request::Open => Asked::Open,
            Request::Write(path) => Asked::Write(path@),
            Request::WriteElsewhere(name) => Asked::WriteElsewhere(encode_utf8(name@)),
        }
    }
}

impl Session {
    /// The name to suggest for a file: that of the file the document has, if it has one.
    pub open spec fn suggested_name(self, os: Os) -> Seq<u8> {
        match self.file {
            Some(path) => if is_file_name(file_name_of(os, encode_utf8(path))) {
                file_name_of(os, encode_utf8(path))
            } else {
                lit("Untitled.md")
            },
            None => lit("Untitled.md"),
        }
    }

    /// What a command asks of the application. With nothing to save over yet, Save behaves as
    /// Save As.
    pub open spec fn asked(self, os: Os, command: Command) -> Asked {
        match (command, self.file) {
            (Command::Open, _) => Asked::Open,
            (Command::Save, Some(path)) => Asked::Write(path),
            _ => Asked::WriteElsewhere(self.suggested_name(os)),
        }
    }

    /// What becomes of the document, and what the user is told, once the application has done
    /// what it was asked.
    pub open spec fn concluded(self, os: Os, answer: Answer) -> (Session, Option<Seq<u8>>) {
        match answer {
            Answer::Cancelled => (self, None),
            Answer::Opened { path, contents } => match contents {
                Ok(text) => (self.opened(path@, encode_utf8(text@)), None),
                Err(reason) => (self, Some(failure_of(Command::Open, path@, reason@))),
            },
            Answer::Saved { path, failure } => match failure {
                None => (self.saved_to(path@), None),
                Some(reason) => (self, Some(failure_of(Command::Save, path@, reason@))),
            },
            Answer::SavedAs { path, failure } => match failure {
                None => (self.saved_to(decode_utf8(default_extension(os, encode_utf8(path@)))), None),
                Some(reason) => (self, Some(failure_of(Command::SaveAs, path@, reason@))),
            },
        }
    }
}

/// The name to suggest for a file.
pub fn suggested_name(os: Os, editor: &Editor) -> (r: String)
    ensures
        encode_utf8(r@) == editor@.suggested_name(os),
{
    match &editor.file {
        Some(path) => match file_name(os, path.as_str()) {
            Some(name) => name.to_owned(),
            None => "Untitled.md".to_owned(),
        },
        None => "Untitled.md".to_owned(),
    }
}

/// What a host-level command asks of the application.
pub fn perform(os: Os, editor: &Editor, command: Command) -> (r: Request)
    ensures
        r@ == editor@.asked(os, command),
{
    match command {
        Command::Open => Request::Open,
        Command::Save => match editor.save() {
            Ok(path) => Request::Write(path),
            Err(_) => Request::WriteElsewhere(suggested_name(os, editor)),
        },
        Command::SaveAs => Request::WriteElsewhere(suggested_name(os, editor)),
    }
}

/// A message made of four parts.
fn message(a: &str, b: &str, c: &str, d: &str) -> (r: String)
    ensures
        encode_utf8(r@) == a.spec_bytes() + b.spec_bytes() + c.spec_bytes() + d.spec_bytes(),
{
    let mut r = a.to_owned();
    append(&mut r, b);
    append(&mut r, c);
    append(&mut r, d);
    r
}

/// What to tell the user when a file could not be opened.
pub fn open_failed(path: &str, reason: &str) -> (r: String)
    ensures
        encode_utf8(r@) == failure_of(Command::Open, path@, reason@),
{
    message("could not open ", path, ": ", reason)
}

/// What to tell the user when the document could not be saved to its file.
pub fn save_failed(reason: &str) -> (r: String)
    ensures
        encode_utf8(r@) == lit("could not save: ") + encode_utf8(reason@),
{
    let mut r = "could not save: ".to_owned();
    append(&mut r, reason);
    r
}

/// What to tell the user when the document could not be saved to a file they picked.
pub fn save_as_failed(path: &str, reason: &str) -> (r: String)
    ensures
        encode_utf8(r@) == failure_of(Command::SaveAs, path@, reason@),
{
    message("could not save ", path, ": ", reason)
}

/// What to tell the user of a command on `path` that was carried out, or why it failed.
/// Nothing, if it did not fail.
pub fn outcome(command: Command, path: &str, failure: Option<String>) -> (r: Option<String>)
    ensures
        match failure {
            None => r is None,
            Some(reason) => r is Some && encode_utf8(r->0@) == failure_of(
                command,
                path@,
                reason@,
            ),
        },
{
    match failure {
        None => None,
        Some(reason) => Some(
            match command {
                Command::Open => open_failed(path, reason.as_str()),
                Command::Save => save_failed(reason.as_str()),
                Command::SaveAs => save_as_failed(path, reason.as_str()),
            },
        ),
    }
}

/// Take in what the application did for a command. Returns an error message if it failed;
/// `None` means it succeeded or the user cancelled the dialog.
pub fn conclude(os: Os, editor: &mut Editor, answer: Answer) -> (r: Option<String>)
    requires
        old(editor)@.wf(),
    ensures
        final(editor)@ == old(editor)@.concluded(os, answer).0,
        match r {
            Some(text) => old(editor)@.concluded(os, answer).1 == Some(encode_utf8(text@)),
            None => old(editor)@.concluded(os, answer).1 is None,
        },
        final(editor)@.wf(),
{
    match answer {
        Answer::Cancelled => None,
        Answer::Opened { path, contents } => {
            let failure = match editor.open_path(path.as_str(), contents) {
                Ok(()) => None,
                Err(reason) => Some(reason),
            };
            outcome(Command::Open, path.as_str(), failure)
        },
        Answer::Saved { path, failure } => {
            if failure.is_none() {
                editor.written(path.as_str());
            }
            outcome(Command::Save, path.as_str(), failure)
        },
        Answer::SavedAs { path, failure } => {
            if failure.is_none() {
                let target = editor.save_as(os, path.as_str());
                proof {
                    encode_utf8_decode_utf8(target@);
                }
                editor.written(target.as_str());
            }
            outcome(Command::SaveAs, path.as_str(), failure)
        },
    }
}

/// With no file to save over yet, Save does what Save As does, and suggests a name of its own.
pub proof fn law_save_without_a_file_is_save_as(s: Session, os: Os)
    requires
        s.file is None,
    ensures
        s.asked(os, Command::Save) == s.asked(os, Command::SaveAs),
        s.asked(os, Command::Save) == Asked::WriteElsewhere(lit("Untitled.md")),
{
}

/// A document that has a file is saved to it with no dialog, and stays the same but for what
/// was unsaved.
pub proof fn law_save_writes_to_the_file(s: Session, os: Os, path: String)
    requires
        s.file == Some(path@),
    ensures
        s.asked(os, Command::Save) == Asked::Write(path@),
        s.concluded(os, Answer::Saved { path, failure: None }) == (
            (Session { dirty: false, ..s }),
            None::<Seq<u8>>,
        ),
{
}

/// A dialog that was cancelled leaves everything as it was, and nothing to tell.
pub proof fn law_cancelling_changes_nothing(s: Session, os: Os)
    ensures
        s.concluded(os, Answer::Cancelled) == (s, None::<Seq<u8>>),
{
}

/// The user is told of a failure, and of nothing else, and a command that failed changes
/// nothing.
pub proof fn law_a_message_means_a_failure(s: Session, os: Os, answer: Answer)
    ensures
        s.concluded(os, answer).1 is Some <==> answer.failed(),
        answer.failed() ==> s.concluded(os, answer).0 == s,
{
}

/// A document saved under a name that the user picked has a file with an extension from then
/// on, and nothing unsaved; saving it again asks for nothing but to write that file.
pub proof fn law_save_as_adopts_the_file(s: Session, os: Os, path: String)
    ensures
        ({
            let t = s.concluded(os, Answer::SavedAs { path, failure: None }).0;
            let file = decode_utf8(default_extension(os, encode_utf8(path@)));
            &&& encode_utf8(file) == default_extension(os, encode_utf8(path@))
            &&& t == s.saved_to(file)
            &&& t.asked(os, Command::Save) == Asked::Write(file)
        }),
{
    lemma_str_valid(path@);
    law_default_extension_is_text(os, encode_utf8(path@));
    decode_utf8_encode_utf8(default_extension(os, encode_utf8(path@)));
}

/// What the user is told of a failure: what could not be done, to which file, and why.
pub proof fn law_message_names_the_file_and_the_reason(
    s: Session,
    os: Os,
    path: String,
    reason: String,
)
    ensures
        s.concluded(os, Answer::Opened { path, contents: Err(reason) }).1 == Some(
            encode_utf8("could not open "@ + path@ + ": "@ + reason@),
        ),
        s.concluded(os, Answer::Saved { path, failure: Some(reason) }).1 == Some(
            encode_utf8("could not save: "@ + reason@),
        ),
        s.concluded(os, Answer::SavedAs { path, failure: Some(reason) }).1 == Some(
            encode_utf8("could not save "@ + path@ + ": "@ + reason@),
        ),
{
    lemma_encode_concat("could not open "@, path@);
    lemma_encode_concat("could not open "@ + path@, ": "@);
    lemma_encode_concat("could not open "@ + path@ + ": "@, reason@);
    lemma_encode_concat("could not save: "@, reason@);
    lemma_encode_concat("could not save "@, path@);
    lemma_encode_concat("could not save "@ + path@, ": "@);
    lemma_encode_concat("could not save "@ + path@ + ": "@, reason@);
}

/// Opening asks for a file, whatever file the document has. Saving elsewhere suggests the name
/// of the file that the document has.
pub proof fn law_save_as_suggests_the_name_of_the_file(s: Session, os: Os, path: Seq<char>)
    requires
        s.file == Some(path),
    ensures
        s.asked(os, Command::Open) == Asked::Open,
        is_file_name(file_name_of(os, encode_utf8(path))) ==> s.asked(os, Command::SaveAs)
            == Asked::WriteElsewhere(file_name_of(os, encode_utf8(path))),
        !is_file_name(file_name_of(os, encode_utf8(path))) ==> s.asked(os, Command::SaveAs)
            == Asked::WriteElsewhere(lit("Untitled.md")),
{
}

/// Opening a file puts its text in place of the document, with the caret before it.
pub proof fn law_opened_file_is_the_document(s: Session, os: Os, path: String, text: String)
    ensures
        ({
            let t = s.concluded(os, Answer::Opened { path, contents: Ok(text) }).0;
            &&& t.text == unix_lines(encode_utf8(text@))
            &&& t.caret == 0 && t.anchor == 0
            &&& t.file == Some(path@)
            &&& !t.dirty
        }),
{
    lemma_str_valid(text@);
}

} // verus!
