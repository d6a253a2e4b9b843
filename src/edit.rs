use vstd::prelude::*;

use crate::keys::{generated_key, get_new_key, new_child_name};
use crate::path::{lemma_update_resolve, pv_prefix, replace_at, segs};
use crate::text::{parse_usize, unsigned_text_value};
use crate::value::{
    has_key, key_pos, keys_sorted, lemma_key_pos, lemma_trees_of, remove_entry, trees_of, Dictionary,
    Tree, Value, ValueType,
};

verus! {

/// What a row's pass did to the document, by increasing severity.
#[derive(Clone, Copy, Debug, PartialEq, Eq, Structural)]
pub enum ChangeState {
    /// Nothing changed.
    Unchanged,
    /// A value or a membership changed; the node keeps its place.
    Changed,
    /// The node was deleted, renamed or given a container kind it did not
    /// have (or lost one): what was gathered for its path is stale.
    Removed,
}

impl ChangeState {
    pub open spec fn rank(self) -> nat {
        match self {
            ChangeState::Unchanged => 0,
            ChangeState::Changed => 1,
            ChangeState::Removed => 2,
        }
    }

    /// The more severe of two outcomes.
    pub open spec fn join(self, rhs: ChangeState) -> ChangeState {
        if self.rank() >= rhs.rank() {
            self
        } else {
            rhs
        }
    }

    /// The more severe of two outcomes.
    pub fn bitor(self, rhs: ChangeState) -> (r: ChangeState)
        ensures
            r == self.join(rhs),
    {
        match (self, rhs) {
            (ChangeState::Removed, _) => ChangeState::Removed,
            (_, ChangeState::Removed) => ChangeState::Removed,
            (ChangeState::Changed, _) => ChangeState::Changed,
            (_, ChangeState::Changed) => ChangeState::Changed,
            _ => ChangeState::Unchanged,
        }
    }

    /// Raises this outcome to `rhs` where `rhs` is more severe.
    pub fn bitor_assign(&mut self, rhs: ChangeState)
        ensures
            *final(self) == old(self).join(rhs),
    {
        *self = self.bitor(rhs);
    }
}

/// The empty string node that new children start as.
pub open spec fn empty_string() -> Tree {
    Tree::Str(Seq::empty())
}

/// The fresh value a node takes when its kind is changed to `ty`; a date is
/// not offered.
pub open spec fn default_tree(ty: ValueType) -> Option<Tree> {
    match ty {
        ValueType::Array => Some(Tree::Array(Seq::empty())),
        ValueType::Dictionary => Some(Tree::Dict(Seq::empty())),
        ValueType::Boolean => Some(Tree::Boolean(false)),
        ValueType::Data => Some(Tree::Data(Seq::empty())),
        ValueType::Real => Some(Tree::Real(0)),
        ValueType::Integer => Some(Tree::Integer(0)),
        ValueType::String => Some(empty_string()),
        ValueType::Date => None,
    }
}

/// The fresh value for a kind, as `default_tree` gives it.
pub fn default_value(ty: ValueType) -> (r: Option<Value>)
    ensures
        r matches Some(v) ==> default_tree(ty) == Some(v.tree()),
        r is None <==> default_tree(ty) is None,
{
    match ty {
        ValueType::Array => {
            let v: Vec<Value> = Vec::new();
            proof {
                assert(trees_of(v@) =~= Seq::<Tree>::empty());
            }
            Some(Value::Array(v))
        },
        ValueType::Dictionary => Some(Value::Dictionary(Dictionary::new())),
        ValueType::Boolean => Some(Value::Boolean(false)),
        ValueType::Data => {
            let v: Vec<u8> = Vec::new();
            proof {
                assert(v@ =~= Seq::<u8>::empty());
            }
            Some(Value::Data(v))
        },
        ValueType::Real => Some(Value::Real(0)),
        ValueType::Integer => Some(Value::Integer(0)),
        ValueType::String => Some(Value::String(String::new())),
        ValueType::Date => None,
    }
}

/// Takes the node at the first `n` segments of `path` out of `doc`.
fn take_node(doc: &mut Value, path: &[String], n: usize) -> (r: Value)
    requires
        n <= path@.len(),
        old(doc).tree().resolve(segs(path@).take(n as int)) is Some,
    ensures
        old(doc).tree().resolve(segs(path@).take(n as int)) == Some(r.tree()),
        final(doc).tree() == old(doc).tree().update_at(
            segs(path@).take(n as int),
            Tree::Boolean(false),
        ),
{
    proof {
        assert(segs(path@).subrange(0, n as int) =~= segs(path@).take(n as int));
    }
    replace_at(doc, path, 0, n, Value::Boolean(false))
}

/// Puts `v` back where `take_node` took a node from.
fn put_node(doc: &mut Value, path: &[String], n: usize, v: Value, Ghost(t0): Ghost<Tree>)
    requires
        n <= path@.len(),
        t0.resolve(segs(path@).take(n as int)) is Some,
        old(doc).tree() == t0.update_at(segs(path@).take(n as int), Tree::Boolean(false)),
    ensures
        final(doc).tree() == t0.update_at(segs(path@).take(n as int), v.tree()),
{
    let ghost sp = segs(path@).take(n as int);
    proof {
        assert(segs(path@).subrange(0, n as int) =~= sp);
        lemma_update_resolve(t0, sp, Tree::Boolean(false), v.tree());
    }
    let _ = replace_at(doc, path, 0, n, v);
}

/// What `add_child` does: `t1` is the document `t0` after adding a child at
/// `p`, with outcome `r`.
pub open spec fn add_child_post(t0: Tree, t1: Tree, p: Seq<Seq<char>>, r: ChangeState) -> bool {
    match t0.resolve(p) {
        Some(Tree::Dict(e)) => r == ChangeState::Changed && exists|k: Seq<char>|
            generated_key(e, new_child_name(), k) && !has_key(e, k) && t1 == t0.update_at(
                p,
                Tree::Dict(e.push((k, empty_string()))),
            ),
        Some(Tree::Array(s)) => r == ChangeState::Changed && t1 == t0.update_at(
            p,
            Tree::Array(s.push(empty_string())),
        ),
        _ => r == ChangeState::Unchanged && t1 == t0,
    }
}

/// Adds a child to the container at `path`: an empty string under a new
/// key derived from `"New Child"` in a dictionary, an empty string at the
/// end of an array. Other nodes, and paths that lead nowhere, are left alone.
pub fn add_child(doc: &mut Value, path: &[String]) -> (r: ChangeState)
    ensures
        add_child_post(old(doc).tree(), final(doc).tree(), segs(path@), r),
{
    let n = path.len();
    let ghost t0 = doc.tree();
    let ghost sp = segs(path@);
    proof {
        assert(segs(path@).take(n as int) =~= sp);
    }
    match pv_prefix(path, n, doc) {
        Some(Value::Dictionary(_)) | Some(Value::Array(_)) => {},
        _ => return ChangeState::Unchanged,
    }
    let mut node = take_node(doc, path, n);
    let ghost mut witness: Seq<char> = Seq::empty();
    match &mut node {
        Value::Dictionary(d) => {
            let base = "New Child";
            proof {
                reveal_strlit("New Child");
                assert(base@ =~= new_child_name());
            }
            let key = get_new_key(d, base);
            let ghost k = key@;
            let ghost e = d.entry_trees();
            d.insert(key, Value::String(String::new()));
            proof {
                assert(d.entry_trees() == e.push((k, empty_string())));
                witness = k;
            }
        },
        Value::Array(a) => {
            let ghost s = a@;
            a.push(Value::String(String::new()));
            proof {
                lemma_trees_of(s);
                lemma_trees_of(a@);
                assert(trees_of(a@) =~= trees_of(s).push(empty_string()));
            }
        },
        _ => {},
    }
    put_node(doc, path, n, node, Ghost(t0));
    proof {
        if let Some(Tree::Dict(e)) = t0.resolve(sp) {
            assert(generated_key(e, new_child_name(), witness) && !has_key(e, witness));
        }
    }
    ChangeState::Changed
}

/// What `sort` does: `t1` is `t0` with the dictionary at `p` sorted by key,
/// with outcome `r`.
pub open spec fn sort_post(t0: Tree, t1: Tree, p: Seq<Seq<char>>, r: ChangeState) -> bool {
    match t0.resolve(p) {
        Some(Tree::Dict(e)) => r == ChangeState::Changed && exists|e2: Seq<(Seq<char>, Tree)>|
            keys_sorted(e2) && e2.len() == e.len() && (forall|x: (Seq<char>, Tree)|
                e2.contains(x) <==> e.contains(x)) && t1 == t0.update_at(p, Tree::Dict(e2)),
        _ => r == ChangeState::Unchanged && t1 == t0,
    }
}

/// Sorts the dictionary at `path` by key; other nodes are left alone.
pub fn sort(doc: &mut Value, path: &[String]) -> (r: ChangeState)
    ensures
        sort_post(old(doc).tree(), final(doc).tree(), segs(path@), r),
{
    let n = path.len();
    let ghost t0 = doc.tree();
    proof {
        assert(segs(path@).take(n as int) =~= segs(path@));
    }
    match pv_prefix(path, n, doc) {
        Some(Value::Dictionary(_)) => {},
        _ => return ChangeState::Unchanged,
    }
    let mut node = take_node(doc, path, n);
    match &mut node {
        Value::Dictionary(d) => {
            d.sort_keys();
        },
        _ => {},
    }
    put_node(doc, path, n, node, Ghost(t0));
    ChangeState::Changed
}

/// The document after a copy of the node at `path` is added to its parent,
/// under key `k` in a dictionary, at the end of an array; `None` where
/// `path` names no child of a container.
pub open spec fn duplicated(t: Tree, path: Seq<Seq<char>>, k: Seq<char>) -> Option<Tree> {
    if path.len() == 0 {
        None
    } else {
        match t.resolve(path.drop_last()) {
            Some(Tree::Dict(e)) => if has_key(e, path.last()) {
                Some(
                    t.update_at(
                        path.drop_last(),
                        Tree::Dict(e.push((k, e[key_pos(e, path.last())].1))),
                    ),
                )
            } else {
                None
            },
            Some(Tree::Array(s)) => match unsigned_text_value(path.last()) {
                Some(i) => if i < s.len() {
                    Some(t.update_at(path.drop_last(), Tree::Array(s.push(s[i as int]))))
                } else {
                    None
                },
                None => None,
            },
            _ => None,
        }
    }
}

/// `k` is the key that a copy of the node at `path` gets in a dictionary
/// parent (any `k` where the parent is an array).
pub open spec fn copy_key(t: Tree, path: Seq<Seq<char>>, k: Seq<char>) -> bool {
    match t.resolve(path.drop_last()) {
        Some(Tree::Dict(e)) => generated_key(e, path.last(), k) && !has_key(e, k),
        _ => true,
    }
}

/// The document after the node at `path` is removed from its parent: the
/// last entry of a dictionary takes its place, later array elements move
/// down; `None` where `path` names no child of a container.
pub open spec fn removed(t: Tree, path: Seq<Seq<char>>) -> Option<Tree> {
    if path.len() == 0 {
        None
    } else {
        match t.resolve(path.drop_last()) {
            Some(Tree::Dict(e)) => if has_key(e, path.last()) {
                Some(t.update_at(path.drop_last(), Tree::Dict(remove_entry(e, path.last()))))
            } else {
                None
            },
            Some(Tree::Array(s)) => match unsigned_text_value(path.last()) {
                Some(i) => if i < s.len() {
                    Some(t.update_at(path.drop_last(), Tree::Array(s.remove(i as int))))
                } else {
                    None
                },
                None => None,
            },
            _ => None,
        }
    }
}

/// The document after the dictionary entry at `path` takes the key `new`,
/// in its place; `None` where the parent is no dictionary, `path` names no
/// entry of it, or `new` is already a key there.
pub open spec fn renamed(t: Tree, path: Seq<Seq<char>>, new: Seq<char>) -> Option<Tree> {
    if path.len() == 0 {
        None
    } else {
        match t.resolve(path.drop_last()) {
            Some(Tree::Dict(e)) => if has_key(e, path.last()) && !has_key(e, new) {
                Some(
                    t.update_at(
                        path.drop_last(),
                        Tree::Dict(
                            e.update(
                                key_pos(e, path.last()),
                                (new, e[key_pos(e, path.last())].1),
                            ),
                        ),
                    ),
                )
            } else {
                None
            },
            _ => None,
        }
    }
}

/// Checks that the first `n = len - 1` segments of `path` lead to a
/// container holding the child that the last segment names.
fn parent_holds(doc: &Value, path: &[String]) -> (r: bool)
    requires
        path@.len() > 0,
    ensures
        r == (match doc.tree().resolve(segs(path@).drop_last()) {
            Some(Tree::Dict(e)) => has_key(e, segs(path@).last()),
            Some(Tree::Array(s)) => match unsigned_text_value(segs(path@).last()) {
                Some(i) => i < s.len(),
                None => false,
            },
            _ => false,
        }),
{
    let n = path.len() - 1;
    proof {
        assert(segs(path@).take(n as int) =~= segs(path@).drop_last());
    }
    match pv_prefix(path, n, doc) {
        Some(Value::Dictionary(d)) => d.contains_key(path[n].as_str()),
        Some(Value::Array(a)) => {
            proof {
                lemma_trees_of(a@);
            }
            let len = a.len();
            match parse_usize(path[n].as_str()) {
                Some(i) => i < len,
                None => false,
            }
        },
        _ => false,
    }
}

/// What `duplicate` does: `t1` is `t0` with a copy of the node at `p` added to
/// its parent, with outcome `r`.
pub open spec fn duplicate_post(t0: Tree, t1: Tree, p: Seq<Seq<char>>, r: ChangeState) -> bool {
    &&& r == ChangeState::Changed <==> exists|k: Seq<char>| duplicated(t0, p, k) is Some
    &&& r == ChangeState::Changed ==> exists|k: Seq<char>|
        copy_key(t0, p, k) && duplicated(t0, p, k) == Some(t1)
    &&& r != ChangeState::Changed ==> r == ChangeState::Unchanged && t1 == t0
}

/// Adds a copy of the node at `path` to its parent: under a new key derived
/// from its own in a dictionary, at the end of an array.
pub fn duplicate(doc: &mut Value, path: &[String]) -> (r: ChangeState)
    ensures
        duplicate_post(old(doc).tree(), final(doc).tree(), segs(path@), r),
{
    if path.len() == 0 {
        return ChangeState::Unchanged;
    }
    let ghost t0 = doc.tree();
    let ghost sp = segs(path@);
    if !parent_holds(doc, path) {
        return ChangeState::Unchanged;
    }
    let n = path.len() - 1;
    proof {
        assert(segs(path@).take(n as int) =~= sp.drop_last());
        assert(sp.last() == path@[n as int]@);
    }
    let mut node = take_node(doc, path, n);
    let ghost mut witness: Seq<char> = Seq::empty();
    match &mut node {
        Value::Dictionary(d) => {
            let key = get_new_key(d, path[n].as_str());
            let ghost e = d.entry_trees();
            proof {
                witness = key@;
                lemma_key_pos(e, sp.last());
            }
            match d.get(path[n].as_str()) {
                Some(v) => {
                    let c = v.copy();
                    d.insert(key, c);
                },
                None => {},
            }
        },
        Value::Array(a) => {
            proof {
                lemma_trees_of(a@);
            }
            let ghost s = a@;
            match parse_usize(path[n].as_str()) {
                Some(i) => if i < a.len() {
                    let c = a[i].copy();
                    a.push(c);
                    proof {
                        lemma_trees_of(a@);
                        assert(trees_of(a@) =~= trees_of(s).push(trees_of(s)[i as int]));
                    }
                },
                None => {},
            }
        },
        _ => {},
    }
    put_node(doc, path, n, node, Ghost(t0));
    proof {
        assert(copy_key(t0, sp, witness));
        assert(duplicated(t0, sp, witness) == Some(doc.tree()));
    }
    ChangeState::Changed
}

/// What `remove` does: `t1` is `t0` without the node at `p`, with outcome `r`.
pub open spec fn remove_post(t0: Tree, t1: Tree, p: Seq<Seq<char>>, r: ChangeState) -> bool {
    &&& r == ChangeState::Removed <==> removed(t0, p) is Some
    &&& r == ChangeState::Removed ==> removed(t0, p) == Some(t1)
    &&& r != ChangeState::Removed ==> r == ChangeState::Unchanged && t1 == t0
}

/// Removes the node at `path` from its parent.
pub fn remove(doc: &mut Value, path: &[String]) -> (r: ChangeState)
    ensures
        remove_post(old(doc).tree(), final(doc).tree(), segs(path@), r),
{
    if path.len() == 0 {
        return ChangeState::Unchanged;
    }
    let ghost t0 = doc.tree();
    let ghost sp = segs(path@);
    if !parent_holds(doc, path) {
        return ChangeState::Unchanged;
    }
    let n = path.len() - 1;
    proof {
        assert(segs(path@).take(n as int) =~= sp.drop_last());
        assert(sp.last() == path@[n as int]@);
    }
    let mut node = take_node(doc, path, n);
    match &mut node {
        Value::Dictionary(d) => {
            let ghost e = d.entry_trees();
            let _ = d.remove(path[n].as_str());
            proof {
                assert(d.entry_trees() == remove_entry(e, sp.last()));
            }
        },
        Value::Array(a) => {
            proof {
                lemma_trees_of(a@);
            }
            let ghost s = a@;
            let len = a.len();
            match parse_usize(path[n].as_str()) {
                Some(i) => if i < len {
                    let _ = a.remove(i);
                    proof {
                        lemma_trees_of(a@);
                        assert(trees_of(a@) =~= trees_of(s).remove(i as int));
                    }
                },
                None => {},
            }
        },
        _ => {},
    }
    put_node(doc, path, n, node, Ghost(t0));
    proof {
        match t0.resolve(sp.drop_last()) {
            Some(Tree::Dict(e)) => {
                assert(has_key(e, sp.last()));
                assert(removed(t0, sp) == Some(doc.tree()));
            },
            Some(Tree::Array(q)) => {
                assert(removed(t0, sp) == Some(doc.tree()));
            },
            _ => {},
        }
    }
    ChangeState::Removed
}

/// What `rename` does: `t1` is `t0` with the entry at `path_before` under
/// the key `new`, and `path_after` its path, with outcome `r`.
pub open spec fn rename_post(
    t0: Tree,
    t1: Tree,
    path_before: Seq<Seq<char>>,
    path_after: Seq<Seq<char>>,
    new: Seq<char>,
    r: ChangeState,
) -> bool {
    &&& r == ChangeState::Removed <==> renamed(t0, path_before, new) is Some
    &&& r == ChangeState::Removed ==> renamed(t0, path_before, new) == Some(t1) && path_after
        == path_before.update(path_before.len() - 1, new)
    &&& r != ChangeState::Removed ==> r == ChangeState::Unchanged && t1 == t0 && path_after
        == path_before
}

/// Gives the dictionary entry at `path` the key `new`, in its place, and
/// makes `path` name it; refused (nothing changes) where `new` is already a
/// key of that dictionary.
pub fn rename(doc: &mut Value, path: &mut Vec<String>, new: String) -> (r: ChangeState)
    ensures
        rename_post(
            old(doc).tree(),
            final(doc).tree(),
            segs(old(path)@),
            segs(final(path)@),
            new@,
            r,
        ),
        r != ChangeState::Removed ==> final(path)@ == old(path)@,
{
    if path.len() == 0 {
        return ChangeState::Unchanged;
    }
    let ghost t0 = doc.tree();
    let ghost sp = segs(path@);
    let n = path.len() - 1;
    proof {
        assert(segs(path@).take(n as int) =~= sp.drop_last());
        assert(sp.last() == path@[n as int]@);
    }
    let ok = match pv_prefix(path.as_slice(), n, doc) {
        Some(Value::Dictionary(d)) => d.contains_key(path[n].as_str()) && !d.contains_key(
            new.as_str(),
        ),
        _ => false,
    };
    if !ok {
        return ChangeState::Unchanged;
    }
    let ghost newv = new@;
    let mut node = take_node(doc, path.as_slice(), n);
    match &mut node {
        Value::Dictionary(d) => {
            let ghost e = d.entry_trees();
            let _ = d.rename(path[n].as_str(), new.clone());
        },
        _ => {},
    }
    put_node(doc, path.as_slice(), n, node, Ghost(t0));
    let ghost old_path = path@;
    path.set(n, new);
    proof {
        assert(segs(path@) =~= segs(old_path).update(n as int, newv));
    }
    ChangeState::Removed
}

/// What `set_type` does: `t1` is `t0` with the node at `p` replaced by a fresh
/// value of kind `ty`, with outcome `r`.
pub open spec fn set_type_post(
    t0: Tree,
    t1: Tree,
    p: Seq<Seq<char>>,
    ty: ValueType,
    r: ChangeState,
) -> bool {
    match t0.resolve(p) {
        Some(t) => if t.value_type() != ty && default_tree(ty) is Some {
            t1 == t0.update_at(p, default_tree(ty).unwrap()) && r == (if t.value_type().expandable()
                || ty.expandable() {
                ChangeState::Removed
            } else {
                ChangeState::Changed
            })
        } else {
            r == ChangeState::Unchanged && t1 == t0
        },
        None => r == ChangeState::Unchanged && t1 == t0,
    }
}

/// Replaces the node at `path` with the fresh value of kind `ty`, where it
/// is of another kind. Crossing between container and leaf counts as
/// `Removed`, any other change as `Changed`.
pub fn set_type(doc: &mut Value, path: &[String], ty: ValueType) -> (r: ChangeState)
    ensures
        set_type_post(old(doc).tree(), final(doc).tree(), segs(path@), ty, r),
{
    let n = path.len();
    let ghost t0 = doc.tree();
    proof {
        assert(segs(path@).take(n as int) =~= segs(path@));
    }
    let prev = match pv_prefix(path, n, doc) {
        Some(v) => ValueType::of(v),
        None => return ChangeState::Unchanged,
    };
    if prev == ty {
        return ChangeState::Unchanged;
    }
    let fresh = match default_value(ty) {
        Some(v) => v,
        None => return ChangeState::Unchanged,
    };
    let _ = take_node(doc, path, n);
    put_node(doc, path, n, fresh, Ghost(t0));
    if prev.is_expandable() || ty.is_expandable() {
        ChangeState::Removed
    } else {
        ChangeState::Changed
    }
}

} // verus!
