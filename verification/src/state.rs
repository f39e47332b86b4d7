//! Plugin state: what a DAW writes into its project file.
//!
//! It carries the notes, the view mode, the theme, the editor window size and the path of the
//! file on disk (if the notes came from one), so reopening a project restores the session
//! exactly. The bytes are JSON, which the application encodes and decodes; which bytes stand
//! for which session is decided here.

use vstd::prelude::*;
use vstd::string::*;
use vstd::utf8::{decode_utf8_encode_utf8, encode_utf8, valid_utf8};

use crate::bytes::{lossy, lossy_text};
use crate::edit::Editor;
use crate::keys::{Theme, ViewMode};
use crate::session::{
    lit, DEFAULT_HEIGHT, DEFAULT_WIDTH, MAX_HEIGHT, MAX_WIDTH, MIN_HEIGHT, MIN_WIDTH, Session,
};

verus! {

/// Bumped whenever the layout changes incompatibly.
pub const STATE_VERSION: u32 = 1;

/// A persisted session, field by field.
#[derive(Debug)]
pub struct PluginState {
    pub version: u32,
    pub notes: String,
    pub mode: String,
    /// "light", "dark" or "auto".
    pub theme: String,
    pub width: i32,
    pub height: i32,
    pub caret: usize,
    pub file: Option<String>,
}

/// What a persisted session holds.
#[verifier::ext_equal]
pub struct Saved {
    pub version: u32,
    pub notes: Seq<u8>,
    pub mode: Seq<char>,
    pub theme: Seq<char>,
    pub width: i32,
    pub height: i32,
    pub caret: int,
    pub file: Option<Seq<char>>,
}

impl View for PluginState {
    type V = Saved;

    open spec fn view(&self) -> Saved {
        Saved {
            version: self.version,
            notes: encode_utf8(self.notes@),
            mode: self.mode@,
            theme: self.theme@,
            width: self.width,
            height: self.height,
            caret: self.caret as int,
            file: match self.file {
                Some(f) => Some(f@),
                None => None,
            },
        }
    }
}

impl Saved {
    /// A fresh document holding `notes`.
    pub open spec fn fresh(notes: Seq<u8>) -> Saved {
        Saved {
            version: STATE_VERSION,
            notes,
            mode: ViewMode::Wysiwyg.name(),
            theme: Theme::Auto.name(),
            width: DEFAULT_WIDTH,
            height: DEFAULT_HEIGHT,
            caret: 0,
            file: None,
        }
    }

    /// What a blob stands for: nothing is a fresh document, what parsed is what it parsed to,
    /// and anything else is taken for note text, word for word where it is text.
    pub open spec fn of_blob(bytes: Seq<u8>, parsed: Option<Saved>) -> Saved {
        if bytes.len() == 0 {
            Saved::fresh(Seq::empty())
        } else {
            match parsed {
                Some(state) => state,
                None => Saved::fresh(
                    if valid_utf8(bytes) {
                        bytes
                    } else {
                        encode_utf8(lossy_text(bytes))
                    },
                ),
            }
        }
    }
}

impl Session {
    /// Everything the DAW should persist.
    pub open spec fn saved(self) -> Saved {
        Saved {
            version: STATE_VERSION,
            notes: self.text,
            mode: self.mode.name(),
            theme: self.theme.name(),
            width: self.width,
            height: self.height,
            caret: self.caret,
            file: self.file,
        }
    }

    /// The session restored from what was persisted.
    pub open spec fn loaded(self, state: Saved) -> Session {
        Session {
            mode: ViewMode::named(state.mode),
            theme: Theme::named(state.theme),
            file: state.file,
            dirty: false,
            ..self.replaced(state.notes).sized(state.width, state.height).caret_at(state.caret)
        }.forgotten()
    }
}

impl Default for PluginState {
    fn default() -> (r: PluginState)
        ensures
            r@ == Saved::fresh(Seq::empty()),
    {
        proof {
            crate::edit::lemma_empty_str();
        }
        PluginState::holding("")
    }
}

impl Clone for PluginState {
    fn clone(&self) -> (r: PluginState)
        ensures
            r@ == self@,
    {
        PluginState {
            version: self.version,
            notes: self.notes.clone(),
            mode: self.mode.clone(),
            theme: self.theme.clone(),
            width: self.width,
            height: self.height,
            caret: self.caret,
            file: self.file.clone(),
        }
    }
}

impl PluginState {
    /// A fresh document that holds `notes`.
    fn holding(notes: &str) -> (r: PluginState)
        ensures
            r@ == Saved::fresh(notes.spec_bytes()),
    {
        PluginState {
            version: STATE_VERSION,
            notes: notes.to_owned(),
            mode: ViewMode::Wysiwyg.as_str().to_owned(),
            theme: Theme::default().as_str().to_owned(),
            width: DEFAULT_WIDTH,
            height: DEFAULT_HEIGHT,
            caret: 0,
            file: None,
        }
    }

    /// The bytes to persist: what encoding came to, or an empty object if it failed.
    pub fn from_encoding(encoded: Option<Vec<u8>>) -> (r: Vec<u8>)
        ensures
            match encoded {
                Some(bytes) => r@ == bytes@,
                None => r@ == lit("{}"),
            },
    {
        match encoded {
            Some(bytes) => bytes,
            None => {
                let b = "{}".as_bytes();
                let r = vstd::slice::slice_to_vec(b);
                r
            },
        }
    }

    /// Encode the state. An encoder that fails leaves an empty object.
    pub fn to_bytes<F: Fn(&PluginState) -> Option<Vec<u8>>>(&self, encode: F) -> (r: Vec<u8>)
        requires
            call_requires(encode, (self,)),
        ensures
            exists|encoded: Option<Vec<u8>>| #[trigger]
                call_ensures(encode, (self,), encoded) && match encoded {
                    Some(bytes) => r@ == bytes@,
                    None => r@ == lit("{}"),
                },
    {
        let encoded = encode(self);
        PluginState::from_encoding(encoded)
    }

    /// The state that a blob stands for, given what parsing it came to.
    ///
    /// Anything that does not parse is treated as raw note text, so a state blob from a
    /// hand-written host (or a future format we fail to parse) still restores the user's words
    /// rather than losing them.
    pub fn from_parsed(bytes: &[u8], parsed: Option<PluginState>) -> (r: PluginState)
        ensures
            r@ == Saved::of_blob(
                bytes@,
                match parsed {
                    Some(state) => Some(state@),
                    None => None,
                },
            ),
    {
        if bytes.len() == 0 {
            return PluginState::default();
        }
        match parsed {
            Some(state) => state,
            None => {
                let notes = lossy(bytes);
                proof {
                    if valid_utf8(bytes@) {
                        decode_utf8_encode_utf8(bytes@);
                    }
                }
                PluginState::holding(notes.as_str())
            },
        }
    }

    /// Parse state written by [`PluginState::to_bytes`].
    pub fn from_bytes<F: Fn(&[u8]) -> Option<PluginState>>(bytes: &[u8], parse: F) -> (r:
        PluginState)
        requires
            bytes@.len() > 0 ==> call_requires(parse, (bytes,)),
        ensures
            bytes@.len() == 0 ==> r@ == Saved::fresh(Seq::empty()),
            bytes@.len() > 0 ==> exists|parsed: Option<PluginState>| #[trigger]
                call_ensures(parse, (bytes,), parsed) && r@ == Saved::of_blob(
                    bytes@,
                    match parsed {
                        Some(state) => Some(state@),
                        None => None,
                    },
                ),
    {
        if bytes.len() == 0 {
            return PluginState::default();
        }
        let parsed = parse(bytes);
        PluginState::from_parsed(bytes, parsed)
    }
}

impl Editor {
    /// Capture everything the DAW should persist.
    pub fn save_state(&self) -> (r: PluginState)
        ensures
            r@ == self@.saved(),
    {
        PluginState {
            version: STATE_VERSION,
            notes: self.text.clone(),
            mode: self.mode.as_str().to_owned(),
            theme: self.theme.as_str().to_owned(),
            width: self.width,
            height: self.height,
            caret: self.caret,
            file: self.file.clone(),
        }
    }

    /// Restore from persisted state.
    pub fn load_state(&mut self, state: &PluginState)
        requires
            old(self)@.wf(),
        ensures
            final(self)@ == old(self)@.loaded(state@),
            final(self)@.wf(),
    {
        let ghost before = self@;
        self.set_text(state.notes.as_str());
        self.mode = ViewMode::from_str(state.mode.as_str());
        self.theme = Theme::from_str(state.theme.as_str());
        self.set_size(state.width, state.height);
        self.set_caret(state.caret);
        self.file = state.file.clone();
        self.dirty = false;
        self.clear_history();
        proof {
            assert(self@ =~= before.loaded(state@));
        }
    }

    /// The state as bytes.
    pub fn state_bytes<F: Fn(&PluginState) -> Option<Vec<u8>>>(&self, encode: F) -> (r: Vec<u8>)
        requires
            forall|state: PluginState| call_requires(encode, (&state,)),
        ensures
            exists|state: PluginState, encoded: Option<Vec<u8>>|
                state@ == self@.saved() && #[trigger] call_ensures(encode, (&state,), encoded)
                    && match encoded {
                    Some(bytes) => r@ == bytes@,
                    None => r@ == lit("{}"),
                },
    {
        let state = self.save_state();
        state.to_bytes(encode)
    }

    /// Restore from bytes.
    pub fn load_state_bytes<F: Fn(&[u8]) -> Option<PluginState>>(&mut self, bytes: &[u8], parse: F)
        requires
            old(self)@.wf(),
            bytes@.len() > 0 ==> call_requires(parse, (bytes,)),
        ensures
            bytes@.len() == 0 ==> final(self)@ == old(self)@.loaded(Saved::fresh(Seq::empty())),
            bytes@.len() > 0 ==> exists|parsed: Option<PluginState>| #[trigger]
                call_ensures(parse, (bytes,), parsed) && final(self)@ == old(self)@.loaded(
                    Saved::of_blob(
                        bytes@,
                        match parsed {
                            Some(state) => Some(state@),
                            None => None,
                        },
                    ),
                ),
            final(self)@.wf(),
    {
        let state = PluginState::from_bytes(bytes, parse);
        self.load_state(&state);
    }
}

/// A blob that is text but does not parse is kept word for word.
pub proof fn law_unparsed_text_is_kept(into: Session, bytes: Seq<u8>)
    requires
        bytes.len() > 0,
        valid_utf8(bytes),
    ensures
        into.loaded(Saved::of_blob(bytes, None)).text == bytes,
{
}

/// A session saved and loaded again comes back: the notes, the caret, the view, the theme, the
/// window size and the file, with nothing unsaved and nothing to undo.
///
/// The size comes back if it is one a window can have; [`Editor::set_size`] gives no other.
pub proof fn law_state_round_trip(s: Session, into: Session)
    requires
        s.wf(),
        MIN_WIDTH <= s.width <= MAX_WIDTH,
        MIN_HEIGHT <= s.height <= MAX_HEIGHT,
    ensures
        ({
            let t = into.loaded(s.saved());
            &&& t.text == s.text
            &&& t.caret == s.caret
            &&& t.anchor == s.caret
            &&& t.mode == s.mode
            &&& t.theme == s.theme
            &&& t.width == s.width
            &&& t.height == s.height
            &&& t.file == s.file
            &&& !t.dirty
            &&& t.undo.len() == 0
            &&& t.redo.len() == 0
        }),
{
    crate::keys::law_view_name_reads_back(s.mode);
    crate::keys::law_theme_name_reads_back(s.theme);
}

/// Whatever size a state carries, the window that comes of it is within bounds.
pub proof fn law_loaded_size_is_bounded(s: Session, state: Saved)
    ensures
        MIN_WIDTH <= s.loaded(state).width <= MAX_WIDTH,
        MIN_HEIGHT <= s.loaded(state).height <= MAX_HEIGHT,
{
}

/// Whatever caret a state carries, it ends up on a char boundary of the notes.
pub proof fn law_loaded_caret_is_a_boundary(s: Session, state: Saved)
    requires
        valid_utf8(state.notes),
        state.caret >= 0,
    ensures
        crate::bytes::is_boundary(s.loaded(state).text, s.loaded(state).caret),
        s.loaded(state).anchor == s.loaded(state).caret,
{
    crate::text::lemma_boundary_below(
        state.notes,
        if state.caret <= state.notes.len() {
            state.caret
        } else {
            state.notes.len() as int
        },
    );
}

/// Loading depends on the state alone: whatever session it is loaded into, the same one comes
/// of it.
pub proof fn law_loading_forgets_the_session(s: Session, t: Session, state: Saved)
    ensures
        s.loaded(state) == t.loaded(state),
{
    assert(s.loaded(state) =~= t.loaded(state));
}

} // verus!
