use vstd::prelude::*;

use crate::edit::{copy_key, duplicated, empty_string, renamed};
use crate::editor::committed;
use crate::hexcode::{lemma_hex_round_trip, upper_hex_of};
use crate::path::lemma_update_resolve;
use crate::text::{lemma_decimal_round_trip, lemma_signed_round_trip, signed_decimal};
use crate::value::{distinct_keys, has_key, key_pos, lemma_key_pos, lemma_key_pos_distinct, Tree};

verus! {

/// A new entry under a key that is not yet used keeps the keys distinct.
pub proof fn law_fresh_entry_keeps_keys_distinct(e: Seq<(Seq<char>, Tree)>, k: Seq<char>, t: Tree)
    requires
        distinct_keys(e),
        !has_key(e, k),
    ensures
        distinct_keys(e.push((k, t))),
{
    let e2 = e.push((k, t));
    assert forall|i: int, j: int|
        0 <= i < e2.len() && 0 <= j < e2.len() && i != j implies e2[i].0 != e2[j].0 by {
        if i == e.len() as int {
            assert(e[j].0 == e2[j].0);
        } else if j == e.len() as int {
            assert(e[i].0 == e2[i].0);
        }
    }
}

/// Adding a child to a dictionary with distinct keys, under the key that
/// adding a child picks, leaves the dictionary's keys distinct.
pub proof fn law_add_child_keeps_keys_distinct(t: Tree, path: Seq<Seq<char>>, k: Seq<char>)
    requires
        t.resolve(path) matches Some(Tree::Dict(e)) && distinct_keys(e) && !has_key(e, k),
    ensures
        t.update_at(path, Tree::Dict(t.resolve(path)->Some_0->Dict_0.push((k, empty_string())))).resolve(path)
            matches Some(Tree::Dict(e2)) && distinct_keys(e2),
{
    let e = t.resolve(path)->Some_0->Dict_0;
    let n = Tree::Dict(e.push((k, empty_string())));
    lemma_update_resolve(t, path, n, n);
    law_fresh_entry_keeps_keys_distinct(e, k, empty_string());
}

/// Duplicating an entry of a dictionary with distinct keys leaves the
/// dictionary's keys distinct.
pub proof fn law_duplicate_keeps_keys_distinct(t: Tree, path: Seq<Seq<char>>, k: Seq<char>)
    requires
        path.len() > 0,
        t.resolve(path.drop_last()) matches Some(Tree::Dict(e)) && distinct_keys(e),
        copy_key(t, path, k),
        duplicated(t, path, k) is Some,
    ensures
        duplicated(t, path, k).unwrap().resolve(path.drop_last()) matches Some(Tree::Dict(e2))
            && distinct_keys(e2),
{
    let pp = path.drop_last();
    let e = t.resolve(pp)->Some_0->Dict_0;
    let n = Tree::Dict(e.push((k, e[key_pos(e, path.last())].1)));
    lemma_update_resolve(t, pp, n, n);
    law_fresh_entry_keeps_keys_distinct(e, k, e[key_pos(e, path.last())].1);
}

/// Renaming an entry of a dictionary with distinct keys leaves the
/// dictionary's keys distinct.
pub proof fn law_rename_keeps_keys_distinct(t: Tree, path: Seq<Seq<char>>, new: Seq<char>)
    requires
        path.len() > 0,
        t.resolve(path.drop_last()) matches Some(Tree::Dict(e)) && distinct_keys(e),
        renamed(t, path, new) is Some,
    ensures
        renamed(t, path, new).unwrap().resolve(path.drop_last()) matches Some(Tree::Dict(e2))
            && distinct_keys(e2),
{
    let pp = path.drop_last();
    let e = t.resolve(pp)->Some_0->Dict_0;
    lemma_key_pos(e, path.last());
    let p = key_pos(e, path.last());
    let e2 = e.update(p, (new, e[p].1));
    let n = Tree::Dict(e2);
    lemma_update_resolve(t, pp, n, n);
    assert forall|i: int, j: int|
        0 <= i < e2.len() && 0 <= j < e2.len() && i != j implies e2[i].0 != e2[j].0 by {
        if i == p {
            assert(e2[j].0 == e[j].0);
        } else if j == p {
            assert(e2[i].0 == e[i].0);
        }
    }
}

/// Renaming a dictionary entry to a key that a sibling already holds is
/// refused: `rename` then leaves the document as it is.
pub proof fn law_rename_to_taken_key_is_refused(t: Tree, path: Seq<Seq<char>>, new: Seq<char>)
    requires
        path.len() > 0,
        t.resolve(path.drop_last()) matches Some(Tree::Dict(e)) && has_key(e, new),
    ensures
        renamed(t, path, new) is None,
{
}

/// Each name that a container lists for its children leads back to the
/// child at that position: a key to its entry, a decimal index to its
/// element.
pub proof fn law_child_names_lead_to_children(t: Tree, i: int)
    requires
        0 <= i < t.child_names().len(),
        t matches Tree::Dict(e) ==> distinct_keys(e),
    ensures
        t.child(t.child_names()[i]) == match t {
            Tree::Dict(e) => Some(e[i].1),
            Tree::Array(s) => Some(s[i]),
            _ => None,
        },
{
    match t {
        Tree::Dict(e) => {
            lemma_key_pos_distinct(e, e[i].0, i);
        },
        Tree::Array(s) => {
            lemma_decimal_round_trip(i as nat);
        },
        _ => {},
    }
}

/// Committing the text that a field shows for a string, integer or data
/// node gives back the same node.
pub proof fn law_shown_text_commits_back(t: Tree, text: Seq<char>)
    requires
        match t {
            Tree::Str(s) => text == s,
            Tree::Integer(i) => text == signed_decimal(i as int),
            Tree::Data(b) => upper_hex_of(text, b),
            _ => false,
        },
    ensures
        committed(t, text) == Some(t),
{
    match t {
        Tree::Integer(i) => {
            lemma_signed_round_trip(i as int);
        },
        Tree::Data(b) => {
            lemma_hex_round_trip(text, b);
        },
        _ => {},
    }
}

} // verus!
