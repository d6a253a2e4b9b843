use vstd::prelude::*;

use crate::edit::ChangeState;
use crate::hexcode::{decode, encode_upper, hex_decodable, hex_decoded, upper_hex_of};
use crate::path::{pv, replace_at, segs};
use crate::text::{i64_text, parse_i64, signed_decimal, signed_text_value};
use crate::value::{Tree, Value};

verus! {

/// The text that a click-to-edit field shows for a node: a string as it
/// is, an integer in decimal, bytes in uppercase hexadecimal. Other kinds
/// have no text field.
pub fn display_text(v: &Value) -> (r: Option<String>)
    ensures
        match v.tree() {
            Tree::Str(s) => r matches Some(t) && t@ == s,
            Tree::Integer(i) => r matches Some(t) && t@ == signed_decimal(i as int),
            Tree::Data(b) => r matches Some(t) && upper_hex_of(t@, b),
            _ => r is None,
        },
{
    match v {
        Value::String(s) => Some(s.clone()),
        Value::Integer(i) => Some(i64_text(*i)),
        Value::Data(b) => Some(encode_upper(b.as_slice())),
        _ => None,
    }
}

/// The node that committing `text` to a node of tree `t` gives: the text
/// for a string, the number it spells for an integer, the bytes it spells
/// for data; `None` where the kind takes no text or the text is invalid.
pub open spec fn committed(t: Tree, text: Seq<char>) -> Option<Tree> {
    match t {
        Tree::Str(_) => Some(Tree::Str(text)),
        Tree::Integer(_) => match signed_text_value(text) {
            Some(v) => if i64::MIN <= v <= i64::MAX {
                Some(Tree::Integer(v as i64))
            } else {
                None
            },
            None => None,
        },
        Tree::Data(_) => if hex_decodable(text) {
            Some(Tree::Data(hex_decoded(text)))
        } else {
            None
        },
        _ => None,
    }
}

/// Puts `v` in place of the node at `path`, which must exist.
fn set_node(doc: &mut Value, path: &[String], v: Value)
    requires
        old(doc).tree().resolve(segs(path@)) is Some,
    ensures
        final(doc).tree() == old(doc).tree().update_at(segs(path@), v.tree()),
{
    proof {
        assert(segs(path@).subrange(0, path@.len() as int) =~= segs(path@));
    }
    let _ = replace_at(doc, path, 0, path.len(), v);
}

/// What `commit_text` does: `t1` is `t0` after committing `text` to the node at
/// `p`, with outcome `r`.
pub open spec fn commit_text_post(
    t0: Tree,
    t1: Tree,
    p: Seq<Seq<char>>,
    text: Seq<char>,
    r: ChangeState,
) -> bool {
    match t0.resolve(p) {
        Some(t) => if committed(t, text) is Some {
            r == ChangeState::Changed && t1 == t0.update_at(p, committed(t, text).unwrap())
        } else {
            r == ChangeState::Unchanged && t1 == t0
        },
        None => r == ChangeState::Unchanged && t1 == t0,
    }
}

/// Commits text typed into the field of the node at `path`. A string takes
/// the text; an integer or data node takes what the text spells, where it
/// is valid. Anything else leaves the document as it is.
pub fn commit_text(doc: &mut Value, path: &[String], text: &str) -> (r: ChangeState)
    ensures
        commit_text_post(old(doc).tree(), final(doc).tree(), segs(path@), text@, r),
{
    let ghost t0 = doc.tree();
    let ghost sp = segs(path@);
    let fresh = match pv(path, doc) {
        Some(Value::String(_)) => Value::String(text.to_owned()),
        Some(Value::Integer(_)) => match parse_i64(text) {
            Some(i) => Value::Integer(i),
            None => return ChangeState::Unchanged,
        },
        Some(Value::Data(_)) => match decode(text) {
            Some(b) => Value::Data(b),
            None => return ChangeState::Unchanged,
        },
        _ => return ChangeState::Unchanged,
    };
    set_node(doc, path, fresh);
    ChangeState::Changed
}

/// What `set_real` does: `t1` is `t0` with the real at `p` set to `bits`, with
/// outcome `r`.
pub open spec fn set_real_post(
    t0: Tree,
    t1: Tree,
    p: Seq<Seq<char>>,
    bits: u64,
    r: ChangeState,
) -> bool {
    if t0.resolve(p) matches Some(Tree::Real(_)) {
        r == ChangeState::Changed && t1 == t0.update_at(p, Tree::Real(bits))
    } else {
        r == ChangeState::Unchanged && t1 == t0
    }
}

/// Sets the real node at `path` to the number with IEEE-754 bits `bits`.
pub fn set_real(doc: &mut Value, path: &[String], bits: u64) -> (r: ChangeState)
    ensures
        set_real_post(old(doc).tree(), final(doc).tree(), segs(path@), bits, r),
{
    match pv(path, doc) {
        Some(Value::Real(_)) => {},
        _ => return ChangeState::Unchanged,
    }
    set_node(doc, path, Value::Real(bits));
    ChangeState::Changed
}

/// What `toggle_boolean` does: `t1` is `t0` with the boolean at `p` flipped,
/// with outcome `r`.
pub open spec fn toggle_boolean_post(
    t0: Tree,
    t1: Tree,
    p: Seq<Seq<char>>,
    r: ChangeState,
) -> bool {
    match t0.resolve(p) {
        Some(Tree::Boolean(b)) => r == ChangeState::Changed && t1 == t0.update_at(
            p,
            Tree::Boolean(!b),
        ),
        _ => r == ChangeState::Unchanged && t1 == t0,
    }
}

/// Flips the boolean node at `path`.
pub fn toggle_boolean(doc: &mut Value, path: &[String]) -> (r: ChangeState)
    ensures
        toggle_boolean_post(old(doc).tree(), final(doc).tree(), segs(path@), r),
{
    let b = match pv(path, doc) {
        Some(Value::Boolean(b)) => *b,
        _ => return ChangeState::Unchanged,
    };
    set_node(doc, path, Value::Boolean(!b));
    ChangeState::Changed
}

} // verus!
