use vstd::prelude::*;

use crate::edit::ChangeState;
use crate::value::{Dictionary, Tree, Value};

verus! {

/// The name shown for a document that has no file yet.
pub open spec fn untitled() -> Seq<char> {
    seq!['U', 'n', 't', 'i', 't', 'l', 'e', 'd', '.', 'p', 'l', 'i', 's', 't']
}

/// The marker shown after the name while there are unsaved changes.
pub open spec fn unsaved_marker() -> Seq<char> {
    seq![' ', '*']
}

/// The state of the editing session around the document: where it is
/// saved, whether it has unsaved changes, the error waiting to be
/// acknowledged, and where closing the window stands.
pub struct Session {
    pub path: Option<String>,
    pub unsaved: bool,
    pub error: Option<String>,
    /// The user asked to close with unsaved changes and is being asked to
    /// confirm.
    pub closing: bool,
    /// The user confirmed closing.
    pub can_close: bool,
}

impl Session {
    pub fn new(path: Option<String>) -> (r: Session)
        ensures
            r.path == path,
            !r.unsaved,
            r.error is None,
            !r.closing,
            !r.can_close,
    {
        Session { path, unsaved: false, error: None, closing: false, can_close: false }
    }

    /// The outcome of reading and parsing the document's file: the parsed
    /// document, or, on an error, an empty dictionary and the error kept
    /// for the user.
    pub fn opened(&mut self, result: Result<Value, String>) -> (r: Value)
        ensures
            match result {
                Ok(v) => r == v && final(self).error is None,
                Err(e) => r.tree() == Tree::Dict(Seq::empty()) && final(self).error == Some(e),
            },
            final(self).path == old(self).path,
            final(self).unsaved == old(self).unsaved,
            final(self).closing == old(self).closing,
            final(self).can_close == old(self).can_close,
    {
        match result {
            Ok(v) => {
                self.error = None;
                v
            },
            Err(e) => {
                self.error = Some(e);
                Value::Dictionary(Dictionary::new())
            },
        }
    }

    /// The user acknowledged the error: it is cleared, and so is the path,
    /// so that a later save asks where to write rather than overwriting a
    /// file that failed to open.
    pub fn error_acknowledged(&mut self)
        ensures
            final(self).error is None,
            final(self).path is None,
            final(self).unsaved == old(self).unsaved,
            final(self).closing == old(self).closing,
            final(self).can_close == old(self).can_close,
    {
        self.error = None;
        self.path = None;
    }

    /// The outcome of writing the document: changes stay unsaved, and the
    /// error is kept for the user, exactly when it failed.
    pub fn saved(&mut self, result: Result<(), String>)
        ensures
            match result {
                Ok(_) => final(self).error is None && !final(self).unsaved,
                Err(e) => final(self).error == Some(e) && final(self).unsaved,
            },
            final(self).path == old(self).path,
            final(self).closing == old(self).closing,
            final(self).can_close == old(self).can_close,
    {
        match result {
            Ok(_) => {
                self.error = None;
                self.unsaved = false;
            },
            Err(e) => {
                self.error = Some(e);
                self.unsaved = true;
            },
        }
    }

    /// A rendering pass ended with `outcome`: any change leaves the
    /// document unsaved.
    pub fn pass_finished(&mut self, outcome: ChangeState)
        ensures
            final(self).unsaved == (old(self).unsaved || outcome != ChangeState::Unchanged),
            final(self).path == old(self).path,
            final(self).error == old(self).error,
            final(self).closing == old(self).closing,
            final(self).can_close == old(self).can_close,
    {
        if outcome != ChangeState::Unchanged {
            self.unsaved = true;
        }
    }

    /// The window was asked to close. Returns whether the close must be
    /// held back to ask the user first: so it is while there are unsaved
    /// changes that the user has not agreed to lose.
    pub fn close_requested(&mut self) -> (r: bool)
        ensures
            r == (old(self).unsaved && !old(self).can_close),
            final(self).closing == (old(self).closing || r),
            final(self).unsaved == old(self).unsaved,
            final(self).can_close == old(self).can_close,
            final(self).path == old(self).path,
            final(self).error == old(self).error,
    {
        let hold = self.unsaved && !self.can_close;
        if hold {
            self.closing = true;
        }
        hold
    }

    /// The user answered whether to close anyway. Returns whether the
    /// window should close now.
    pub fn exit_answered(&mut self, close: bool) -> (r: bool)
        ensures
            r == close,
            close ==> final(self).can_close && final(self).closing == old(self).closing,
            !close ==> !final(self).closing && final(self).can_close == old(self).can_close,
            final(self).unsaved == old(self).unsaved,
            final(self).path == old(self).path,
            final(self).error == old(self).error,
    {
        if close {
            self.can_close = true;
        } else {
            self.closing = false;
        }
        close
    }

    /// The window title: the file's path, or the untitled name, followed by
    /// a marker while there are unsaved changes.
    pub fn title(&self) -> (r: String)
        ensures
            r@ == (match self.path {
                Some(p) => p@,
                None => untitled(),
            }) + (if self.unsaved {
                unsaved_marker()
            } else {
                Seq::empty()
            }),
    {
        let mut t = match &self.path {
            Some(p) => p.clone(),
            None => {
                let u = "Untitled.plist";
                proof {
                    reveal_strlit("Untitled.plist");
                }
                u.to_owned()
            },
        };
        let ghost base = t@;
        if self.unsaved {
            proof {
                reveal_strlit(" *");
            }
            t.append(" *");
        } else {
            proof {
                assert(base + Seq::<char>::empty() =~= base);
            }
        }
        proof {
            if self.path is None {
                assert(base =~= untitled());
            }
        }
        t
    }
}

} // verus!
