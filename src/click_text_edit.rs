use vstd::prelude::*;

use crate::hexcode::{decode, hex_decodable};
use crate::text::{parse_i64, signed_text_value};

verus! {

/// What text an editor accepts for commit.
pub enum Validation {
    /// Any text.
    Any,
    /// The decimal text of an `i64`.
    Integer,
    /// An even number of hexadecimal digits.
    Hex,
    /// A dictionary key: the current key, or one no sibling holds.
    Key { current: String, siblings: Vec<String> },
}

impl Validation {
    pub open spec fn accepts(&self, s: Seq<char>) -> bool {
        match self {
            Validation::Any => true,
            Validation::Integer => signed_text_value(s) matches Some(v) && i64::MIN <= v
                <= i64::MAX,
            Validation::Hex => hex_decodable(s),
            Validation::Key { current, siblings } => s == current@ || !(exists|i: int|
                0 <= i < siblings@.len() && #[trigger] siblings@[i]@ == s),
        }
    }

    /// Whether `s` may be committed.
    pub fn check(&self, s: &str) -> (r: bool)
        ensures
            r == self.accepts(s@),
    {
        match self {
            Validation::Any => true,
            Validation::Integer => parse_i64(s).is_some(),
            Validation::Hex => decode(s).is_some(),
            Validation::Key { current, siblings } => {
                let t = s.to_owned();
                *current == t || !holds(siblings, s)
            },
        }
    }
}

/// Whether one of `keys` is `s`.
fn holds(keys: &Vec<String>, s: &str) -> (r: bool)
    ensures
        r == exists|i: int| 0 <= i < keys@.len() && #[trigger] keys@[i]@ == s@,
{
    let t = s.to_owned();
    let mut i: usize = 0;
    while i < keys.len()
        invariant
            i <= keys@.len(),
            t@ == s@,
            forall|j: int| 0 <= j < i ==> #[trigger] keys@[j]@ != s@,
        decreases keys@.len() - i,
    {
        if keys[i] == t {
            assert(keys@[i as int]@ == s@);
            return true;
        }
        i += 1;
    }
    false
}

/// The text being typed into an editor, kept between passes.
#[derive(Clone, Debug)]
pub struct State {
    pub edit_string: String,
}

impl State {
    pub fn new(edit_string: String) -> (r: State)
        ensures
            r.edit_string@ == edit_string@,
    {
        State { edit_string }
    }
}

/// What the user did to a click-to-edit field.
pub enum EditEvent {
    /// Double-clicked the inert text: editing starts from the committed text.
    DoubleClick,
    /// The text in the field is now this.
    Typed(String),
    /// Pressed Enter.
    Enter,
    /// Moved focus elsewhere.
    FocusLost,
}

/// A field that shows committed text until double-clicked, then edits a
/// buffer of its own and commits it on Enter once the buffer is valid.
pub struct ClickableTextEdit {
    pub validation: Validation,
    pub frame: bool,
}

impl ClickableTextEdit {
    pub fn from_get_set(validation: Validation, frame: bool) -> (r: Self)
        ensures
            r.validation == validation,
            r.frame == frame,
    {
        ClickableTextEdit { validation, frame }
    }

    /// Whether the buffer `s` is valid; an invalid buffer is flagged and
    /// cannot be committed.
    pub fn is_valid(&self, s: &str) -> (r: bool)
        ensures
            r == self.validation.accepts(s@),
    {
        self.validation.check(s)
    }

    /// One event: the editing state afterwards (`None`: showing the
    /// committed text) and the text to commit, if any.
    pub fn step(&self, committed: &str, state: Option<State>, event: EditEvent) -> (r: (
        Option<State>,
        Option<String>,
    ))
        ensures
            match (state, event) {
                (None, EditEvent::DoubleClick) => r.1 is None && (r.0 matches Some(s)
                    && s.edit_string@ == committed@),
                (Some(s), EditEvent::Typed(t)) => r.1 is None && (r.0 matches Some(n)
                    && n.edit_string@ == t@),
                (Some(s), EditEvent::Enter) => if self.validation.accepts(s.edit_string@) {
                    r.0 is None && (r.1 matches Some(c) && c@ == s.edit_string@)
                } else {
                    r.1 is None && (r.0 matches Some(n) && n.edit_string@ == s.edit_string@)
                },
                (Some(s), EditEvent::FocusLost) => r.1 is None && if self.validation.accepts(
                    s.edit_string@,
                ) {
                    r.0 is None
                } else {
                    r.0 matches Some(n) && n.edit_string@ == s.edit_string@
                },
                (Some(s), EditEvent::DoubleClick) => r.1 is None && (r.0 matches Some(n)
                    && n.edit_string@ == s.edit_string@),
                (None, _) => r.0 is None && r.1 is None,
            },
    {
        match (state, event) {
            (None, EditEvent::DoubleClick) => (Some(State::new(committed.to_owned())), None),
            (Some(_), EditEvent::Typed(t)) => (Some(State::new(t)), None),
            (Some(s), EditEvent::Enter) => {
                if self.is_valid(s.edit_string.as_str()) {
                    (None, Some(s.edit_string))
                } else {
                    (Some(s), None)
                }
            },
            (Some(s), EditEvent::FocusLost) => {
                if self.is_valid(s.edit_string.as_str()) {
                    (None, None)
                } else {
                    (Some(s), None)
                }
            },
            (Some(s), EditEvent::DoubleClick) => (Some(s), None),
            (None, _) => (None, None),
        }
    }
}

} // verus!
