//! The editing engine of a property-list editor.
//!
//! - `value`: the document model (`Value`, `Dictionary`) and its
//!   mathematical view (`Tree`).
//! - `path`: resolving paths of keys and indices to nodes.
//! - `keys`: the keys given to new and copied dictionary entries.
//! - `edit`: structural edits (add child, duplicate, remove, rename, sort,
//!   change of kind) and their outcomes (`ChangeState`).
//! - `editor`: the text shown for scalar nodes and what committing text,
//!   a number or a click does to them.
//! - `click_text_edit`, `toggle`: the state of click-to-edit fields and of
//!   switches.
//! - `walker`: one pass over the rows of the document, applying what the
//!   user did on each row and keeping the pass off removed subtrees.
//! - `session`: open/save outcomes, unsaved changes, closing, the title.
//! - `laws`: properties that relate several operations.
//! - `text`, `hexcode`: decimal and hexadecimal text.

pub mod click_text_edit;
pub mod edit;
pub mod editor;
pub mod hexcode;
pub mod keys;
pub mod laws;
pub mod path;
pub mod session;
pub mod text;
pub mod toggle;
pub mod value;
pub mod walker;
