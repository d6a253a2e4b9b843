use vstd::prelude::*;

use crate::text::{decimal, lemma_decimal_injective, parse_usize, unsigned_text_value, usize_text};
use crate::value::{
    has_key, key_pos, keys_of, lemma_key_pos, lemma_key_pos_is, lemma_trees_of, trees_of, Tree, Value,
    ValueType,
};

verus! {

/// The segments of a path as character sequences.
pub open spec fn segs(path: Seq<String>) -> Seq<Seq<char>> {
    path.map_values(|s: String| s@)
}

impl Tree {
    /// The child that a path segment names: a key of a dictionary, or the
    /// decimal index of an array element.
    pub open spec fn child(self, seg: Seq<char>) -> Option<Tree> {
        match self {
            Tree::Dict(e) => if has_key(e, seg) {
                Some(e[key_pos(e, seg)].1)
            } else {
                None
            },
            Tree::Array(s) => match unsigned_text_value(seg) {
                Some(n) => if n < s.len() {
                    Some(s[n as int])
                } else {
                    None
                },
                None => None,
            },
            _ => None,
        }
    }

    /// The tree with the child named by `seg` replaced by `c`.
    pub open spec fn with_child(self, seg: Seq<char>, c: Tree) -> Tree {
        match self {
            Tree::Dict(e) => if has_key(e, seg) {
                Tree::Dict(e.update(key_pos(e, seg), (seg, c)))
            } else {
                self
            },
            Tree::Array(s) => match unsigned_text_value(seg) {
                Some(n) => if n < s.len() {
                    Tree::Array(s.update(n as int, c))
                } else {
                    self
                },
                None => self,
            },
            _ => self,
        }
    }

    /// The node that `path` leads to from this tree.
    pub open spec fn resolve(self, path: Seq<Seq<char>>) -> Option<Tree>
        decreases path.len(),
    {
        if path.len() == 0 {
            Some(self)
        } else {
            match self.child(path[0]) {
                Some(c) => c.resolve(path.drop_first()),
                None => None,
            }
        }
    }

    /// This tree with the node at `path` replaced by `t`; unchanged where
    /// `path` leads nowhere.
    pub open spec fn update_at(self, path: Seq<Seq<char>>, t: Tree) -> Tree
        decreases path.len(),
    {
        if path.len() == 0 {
            t
        } else {
            match self.child(path[0]) {
                Some(c) => self.with_child(path[0], c.update_at(path.drop_first(), t)),
                None => self,
            }
        }
    }

    /// The names of the children: keys in order for a dictionary, decimal
    /// indices for an array, none otherwise.
    pub open spec fn child_names(self) -> Seq<Seq<char>> {
        match self {
            Tree::Dict(e) => keys_of(e),
            Tree::Array(s) => Seq::new(s.len(), |i: int| decimal(i as nat)),
            _ => Seq::empty(),
        }
    }
}

pub proof fn lemma_resolve_push(t: Tree, path: Seq<Seq<char>>, seg: Seq<char>)
    ensures
        t.resolve(path.push(seg)) == match t.resolve(path) {
            Some(c) => c.child(seg),
            None => None,
        },
    decreases path.len(),
{
    if path.len() == 0 {
        assert(path.push(seg).drop_first() =~= Seq::<Seq<char>>::empty());
        if let Some(c) = t.child(seg) {
            assert(c.resolve(path.push(seg).drop_first()) == Some(c));
        }
    } else {
        assert(path.push(seg).drop_first() =~= path.drop_first().push(seg));
        match t.child(path[0]) {
            Some(c) => lemma_resolve_push(c, path.drop_first(), seg),
            None => {},
        }
    }
}

/// Replacing a child keeps the names that lead to children.
pub proof fn lemma_with_child(t: Tree, seg: Seq<char>, c: Tree, other: Seq<char>)
    requires
        t.child(seg) is Some,
    ensures
        t.with_child(seg, c).child(other) is Some <==> t.child(other) is Some,
        t.with_child(seg, c).child(seg) == Some(c),
        t.with_child(seg, c).value_type() == t.value_type(),
{
    match t {
        Tree::Dict(e) => {
            lemma_key_pos(e, seg);
            let p = key_pos(e, seg);
            let e2 = e.update(p, (seg, c));
            lemma_key_pos_is(e2, seg, p);
            assert(has_key(e2, seg));
            assert forall|k: Seq<char>| has_key(e2, k) <==> has_key(e, k) by {
                if has_key(e, k) {
                    let i = choose|i: int| 0 <= i < e.len() && e[i].0 == k;
                    assert(e2[i].0 == k);
                }
                if has_key(e2, k) {
                    let i = choose|i: int| 0 <= i < e2.len() && e2[i].0 == k;
                    assert(e[i].0 == k);
                }
            }

        },
        _ => {},
    }
}

pub proof fn lemma_update_resolve(t: Tree, path: Seq<Seq<char>>, x: Tree, y: Tree)
    requires
        t.resolve(path) is Some,
    ensures
        t.update_at(path, x).resolve(path) == Some(x),
        t.update_at(path, x).update_at(path, y) == t.update_at(path, y),
    decreases path.len(),
{
    if path.len() > 0 {
        let c = t.child(path[0]).unwrap();
        lemma_update_resolve(c, path.drop_first(), x, y);
        lemma_with_child(t, path[0], c.update_at(path.drop_first(), x), path[0]);
        let t1 = t.update_at(path, x);
        assert(t1.child(path[0]) == Some(c.update_at(path.drop_first(), x)));
        lemma_with_child_twice(t, path[0], c.update_at(path.drop_first(), x), c.update_at(path.drop_first(), y));
    }
}

pub proof fn lemma_with_child_twice(t: Tree, seg: Seq<char>, a: Tree, b: Tree)
    requires
        t.child(seg) is Some,
    ensures
        t.with_child(seg, a).with_child(seg, b) == t.with_child(seg, b),
{
    lemma_with_child(t, seg, a, seg);
    match t {
        Tree::Dict(e) => {
            let p = key_pos(e, seg);
            let e2 = e.update(p, (seg, a));
            let q = key_pos(e2, seg);
            lemma_key_pos(e, seg);
            lemma_key_pos_is(e2, seg, p);
            assert(e2.update(q, (seg, b)) =~= e.update(p, (seg, b)));
        },
        Tree::Array(s) => {
            let n = unsigned_text_value(seg).unwrap();
            assert(s.update(n as int, a).update(n as int, b) =~= s.update(n as int, b));
        },
        _ => {},
    }
}

/// The child named by `seg` of `p`, with its position in the container.
pub fn child_of<'a>(p: &'a Value, seg: &str) -> (r: Option<(usize, &'a Value)>)
    ensures
        r is None <==> p.tree().child(seg@) is None,
        r matches Some((_, c)) ==> p.tree().child(seg@) == Some(c.tree()),
{
    match p {
        Value::Dictionary(d) => {
            assert(p.tree() == Tree::Dict(d.entry_trees()));
            match d.index_of(seg) {
                Some(i) => {
                    proof {
                        assert(has_key(d.entry_trees(), seg@));
                        assert(p.tree().child(seg@) == Some(d.entry_trees()[i as int].1));
                    }
                    Some((i, d.value_at(i)))
                },
                None => {
                    assert(p.tree().child(seg@) is None);
                    None
                },
            }
        },
        Value::Array(v) => {
            proof {
                lemma_trees_of(v@);
                assert(p.tree() == Tree::Array(trees_of(v@)));
            }
            let len = v.len();
            match parse_usize(seg) {
                Some(n) => if n < len {
                    Some((n, &v[n]))
                } else {
                    None
                },
                None => None,
            }
        },
        _ => {
            assert(p.tree().child(seg@) is None);
            None
        },
    }
}

/// The node that `path` leads to, if any.
pub fn pv<'a>(path: &[String], p: &'a Value) -> (r: Option<&'a Value>)
    ensures
        r is None <==> p.tree().resolve(segs(path@)) is None,
        r matches Some(v) ==> p.tree().resolve(segs(path@)) == Some(v.tree()),
{
    proof {
        assert(segs(path@).take(path@.len() as int) =~= segs(path@));
    }
    pv_prefix(path, path.len(), p)
}

/// The node that the first `n` segments of `path` lead to, if any.
pub fn pv_prefix<'a>(path: &[String], n: usize, p: &'a Value) -> (r: Option<&'a Value>)
    requires
        n <= path@.len(),
    ensures
        r is None <==> p.tree().resolve(segs(path@).take(n as int)) is None,
        r matches Some(v) ==> p.tree().resolve(segs(path@).take(n as int)) == Some(v.tree()),
{
    let mut cur: &Value = p;
    let mut i: usize = 0;
    proof {
        assert(segs(path@).take(0) =~= Seq::<Seq<char>>::empty());
    }
    while i < n
        invariant
            i <= n <= path@.len(),
            p.tree().resolve(segs(path@).take(i as int)) == Some(cur.tree()),
        decreases n - i,
    {
        proof {
            lemma_resolve_push(p.tree(), segs(path@).take(i as int), path@[i as int]@);
            assert(segs(path@).take(i as int).push(path@[i as int]@) =~= segs(path@).take(i + 1));
        }
        match child_of(cur, path[i].as_str()) {
            Some((_, c)) => {
                cur = c;
            },
            None => {
                proof {
                    assert(segs(path@).take(n as int).take(i + 1) =~= segs(path@).take(i + 1));
                    lemma_resolve_none_extends(p.tree(), segs(path@).take(n as int), i as int + 1);
                }
                return None;
            },
        }
        i += 1;
    }
    Some(cur)
}

/// A path that leads nowhere leads nowhere when extended.
pub proof fn lemma_resolve_none_extends(t: Tree, path: Seq<Seq<char>>, n: int)
    requires
        0 <= n <= path.len(),
        t.resolve(path.take(n)) is None,
    ensures
        t.resolve(path) is None,
    decreases path.len() - n,
{
    if n < path.len() {
        lemma_resolve_push(t, path.take(n), path[n]);
        assert(path.take(n).push(path[n]) =~= path.take(n + 1));
        lemma_resolve_none_extends(t, path, n + 1);
    } else {
        assert(path.take(n) =~= path);
    }
}

/// Puts `v` in place of the node that segments `i..n` of `path` lead to,
/// and returns that node.
pub(crate) fn replace_at(p: &mut Value, path: &[String], i: usize, n: usize, v: Value) -> (r: Value)
    requires
        i <= n <= path@.len(),
        old(p).tree().resolve(segs(path@).subrange(i as int, n as int)) is Some,
    ensures
        old(p).tree().resolve(segs(path@).subrange(i as int, n as int)) == Some(r.tree()),
        final(p).tree() == old(p).tree().update_at(
            segs(path@).subrange(i as int, n as int),
            v.tree(),
        ),
    decreases n - i,
{
    let ghost sub = segs(path@).subrange(i as int, n as int);
    if i == n {
        let mut v = v;
        std::mem::swap(p, &mut v);
        return v;
    }
    proof {
        assert(sub[0] == path@[i as int]@);
        assert(sub.drop_first() =~= segs(path@).subrange(i + 1, n as int));
    }
    let ghost t = p.tree();
    match p {
        Value::Dictionary(d) => {
            assert(t == Tree::Dict(d.entry_trees()));
            match d.index_of(path[i].as_str()) {
                Some(k) => {
                    let mut c = d.take_value(k);
                    let r = replace_at(&mut c, path, i + 1, n, v);
                    d.put_value(k, c);
                    proof {
                        let e = t->Dict_0;
                        lemma_key_pos(e, sub[0]);
                        assert(d.entry_trees() =~= e.update(k as int, (sub[0], c.tree())));
                    }
                    r
                },
                None => {
                    proof {
                        assert(false);
                    }
                    v
                },
            }
        },
        Value::Array(a) => {
            proof {
                lemma_trees_of(a@);
            }
            let len = a.len();
            match parse_usize(path[i].as_str()) {
                Some(k) => {
                    if k < len {
                        let mut c = Value::Boolean(false);
                        std::mem::swap(&mut a[k], &mut c);
                        let r = replace_at(&mut c, path, i + 1, n, v);
                        let ghost before = a@;
                        std::mem::swap(&mut a[k], &mut c);
                        proof {
                            lemma_trees_of(a@);
                            lemma_trees_of(old(p)->Array_0@);
                            let s0 = t->Array_0;
                            assert(trees_of(a@) =~= s0.update(k as int, a@[k as int].tree()));
                        }
                        r
                    } else {
                        proof {
                            assert(false);
                        }
                        v
                    }
                },
                None => {
                    proof {
                        assert(false);
                    }
                    v
                },
            }
        },
        _ => {
            proof {
                assert(false);
            }
            v
        },
    }
}

/// The names of the children of the node at `path`: keys in order for a
/// dictionary, decimal indices for an array; none for a leaf or where
/// `path` leads nowhere.
pub fn child_keys(path: &[String], p: &Value) -> (r: Vec<String>)
    ensures
        p.tree().resolve(segs(path@)) matches Some(t) ==> segs(r@) == t.child_names(),
        p.tree().resolve(segs(path@)) is None ==> r@.len() == 0,
        forall|i: int, j: int| 0 <= i < j < r@.len() ==> r@[i]@ != r@[j]@,
{
    match pv(path, p) {
        Some(Value::Dictionary(d)) => {
            let r = d.keys();
            proof {
                use_type_invariant(d);
                d.lemma_distinct();
                assert(segs(r@) =~= keys_of(d.entry_trees()));
            }
            r
        },
        Some(Value::Array(a)) => {
            let mut r: Vec<String> = Vec::new();
            let mut i: usize = 0;
            while i < a.len()
                invariant
                    i <= a@.len(),
                    r@.len() == i,
                    forall|j: int| 0 <= j < i ==> #[trigger] r@[j]@ == decimal(j as nat),
                decreases a@.len() - i,
            {
                r.push(usize_text(i));
                i += 1;
            }
            proof {
                lemma_trees_of(a@);
                assert(segs(r@) =~= Seq::new(trees_of(a@).len(), |j: int| decimal(j as nat)));
                assert forall|i: int, j: int| 0 <= i < j < r@.len() implies r@[i]@ != r@[j]@ by {
                    lemma_decimal_injective(i as nat, j as nat);
                }
            }
            r
        },
        _ => Vec::new(),
    }
}

impl ValueType {
    /// The kind of the node at `path`.
    pub fn from_val(path: &[String], p: &Value) -> (r: Self)
        requires
            p.tree().resolve(segs(path@)) is Some,
        ensures
            r == p.tree().resolve(segs(path@)).unwrap().value_type(),
    {
        let v = match pv(path, p) {
            Some(v) => v,
            None => {
                proof {
                    assert(false);
                }
                p
            },
        };
        ValueType::of(v)
    }

    /// The kind of a value.
    pub fn of(v: &Value) -> (r: Self)
        ensures
            r == v.tree().value_type(),
    {
        match v {
            Value::String(_) => ValueType::String,
            Value::Integer(_) => ValueType::Integer,
            Value::Real(_) => ValueType::Real,
            Value::Boolean(_) => ValueType::Boolean,
            Value::Data(_) => ValueType::Data,
            Value::Date(_) => ValueType::Date,
            Value::Array(_) => ValueType::Array,
            Value::Dictionary(_) => ValueType::Dictionary,
        }
    }

    /// Containers (arrays and dictionaries) can be expanded to show children.
    pub fn is_expandable(self) -> (r: bool)
        ensures
            r == self.expandable(),
    {
        match self {
            ValueType::Array | ValueType::Dictionary => true,
            _ => false,
        }
    }

    pub open spec fn expandable(self) -> bool {
        self == ValueType::Array || self == ValueType::Dictionary
    }
}

} // verus!
