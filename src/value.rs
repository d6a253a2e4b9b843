use vstd::multiset::Multiset;
use vstd::prelude::*;

verus! {

/// The mathematical form of a document node: strings as character
/// sequences, children as sequences of trees.
pub enum Tree {
    Str(Seq<char>),
    Integer(i64),
    Real(u64),
    Boolean(bool),
    Data(Seq<u8>),
    Date(Seq<char>),
    Array(Seq<Tree>),
    Dict(Seq<(Seq<char>, Tree)>),
}

/// A node of a property-list document.
///
/// `Real` holds the IEEE-754 bit pattern of the number; `Date` holds the
/// date in its textual (ISO 8601) form.
#[derive(Debug, PartialEq)]
pub enum Value {
    String(String),
    Integer(i64),
    Real(u64),
    Boolean(bool),
    Data(Vec<u8>),
    Date(String),
    Array(Vec<Value>),
    Dictionary(Dictionary),
}

/// An insertion-ordered mapping from string keys to values; no two entries
/// share a key.
#[derive(Debug, PartialEq)]
pub struct Dictionary {
    entries: Vec<(String, Value)>,
}

/// The kind of a node, as offered by the type selector.
#[derive(Clone, Copy, Debug, PartialEq, Eq, Structural)]
pub enum ValueType {
    Array,
    Dictionary,
    Boolean,
    Data,
    Date,
    Real,
    Integer,
    String,
}

pub open spec fn trees_of(s: Seq<Value>) -> Seq<Tree>
    decreases s,
{
    if s.len() == 0 {
        Seq::empty()
    } else {
        trees_of(s.drop_last()).push(s.last().tree())
    }
}

pub open spec fn entry_trees_of(s: Seq<(String, Value)>) -> Seq<(Seq<char>, Tree)>
    decreases s,
{
    if s.len() == 0 {
        Seq::empty()
    } else {
        entry_trees_of(s.drop_last()).push((s.last().0@, s.last().1.tree()))
    }
}

pub proof fn lemma_trees_of(s: Seq<Value>)
    ensures
        trees_of(s).len() == s.len(),
        forall|i: int| 0 <= i < s.len() ==> #[trigger] trees_of(s)[i] == s[i].tree(),
    decreases s.len(),
{
    if s.len() > 0 {
        lemma_trees_of(s.drop_last());
    }
}

pub proof fn lemma_entry_trees_of(s: Seq<(String, Value)>)
    ensures
        entry_trees_of(s).len() == s.len(),
        forall|i: int|
            0 <= i < s.len() ==> #[trigger] entry_trees_of(s)[i] == (s[i].0@, s[i].1.tree()),
    decreases s.len(),
{
    if s.len() > 0 {
        lemma_entry_trees_of(s.drop_last());
    }
}

/// The keys of a sequence of entries, in order.
pub open spec fn keys_of(e: Seq<(Seq<char>, Tree)>) -> Seq<Seq<char>> {
    e.map_values(|p: (Seq<char>, Tree)| p.0)
}

/// No two entries share a key.
pub open spec fn distinct_keys(e: Seq<(Seq<char>, Tree)>) -> bool {
    forall|i: int, j: int| 0 <= i < e.len() && 0 <= j < e.len() && i != j ==> e[i].0 != e[j].0
}

pub open spec fn has_key(e: Seq<(Seq<char>, Tree)>, k: Seq<char>) -> bool {
    exists|i: int| 0 <= i < e.len() && e[i].0 == k
}

/// The position of the first entry with key `k` (meaningful where `has_key`).
pub open spec fn key_pos(e: Seq<(Seq<char>, Tree)>, k: Seq<char>) -> int
    decreases e.len(),
{
    if e.len() == 0 || e[0].0 == k {
        0
    } else {
        1 + key_pos(e.drop_first(), k)
    }
}

pub proof fn lemma_key_pos(e: Seq<(Seq<char>, Tree)>, k: Seq<char>)
    requires
        has_key(e, k),
    ensures
        0 <= key_pos(e, k) < e.len(),
        e[key_pos(e, k)].0 == k,
        forall|j: int| 0 <= j < key_pos(e, k) ==> e[j].0 != k,
    decreases e.len(),
{
    if e[0].0 != k {
        let i = choose|i: int| 0 <= i < e.len() && e[i].0 == k;
        assert(e.drop_first()[i - 1].0 == k);
        lemma_key_pos(e.drop_first(), k);
        assert forall|j: int| 0 <= j < key_pos(e, k) implies e[j].0 != k by {
            if j > 0 {
                assert(e[j] == e.drop_first()[j - 1]);
            }
        }
    }
}

/// The first entry holding `k` is at `key_pos`.
pub proof fn lemma_key_pos_is(e: Seq<(Seq<char>, Tree)>, k: Seq<char>, i: int)
    requires
        0 <= i < e.len(),
        e[i].0 == k,
        forall|j: int| 0 <= j < i ==> e[j].0 != k,
    ensures
        key_pos(e, k) == i,
        has_key(e, k),
{
    lemma_key_pos(e, k);
}

/// Where keys are distinct, any entry holding `k` is at `key_pos`.
pub proof fn lemma_key_pos_distinct(e: Seq<(Seq<char>, Tree)>, k: Seq<char>, i: int)
    requires
        distinct_keys(e),
        0 <= i < e.len(),
        e[i].0 == k,
    ensures
        key_pos(e, k) == i,
{
    lemma_key_pos_is(e, k, i);
}

/// Inserting an entry: a present key keeps its place and takes the new value;
/// a new key goes to the end.
pub open spec fn insert_entry(e: Seq<(Seq<char>, Tree)>, k: Seq<char>, t: Tree) -> Seq<(Seq<char>, Tree)> {
    if has_key(e, k) {
        e.update(key_pos(e, k), (k, t))
    } else {
        e.push((k, t))
    }
}

/// Removing an entry by key: the last entry takes the place of the removed one.
pub open spec fn remove_entry(e: Seq<(Seq<char>, Tree)>, k: Seq<char>) -> Seq<(Seq<char>, Tree)> {
    if !has_key(e, k) {
        e
    } else if key_pos(e, k) == e.len() - 1 {
        e.drop_last()
    } else {
        e.update(key_pos(e, k), e.last()).drop_last()
    }
}

/// Lexicographic order on keys, character by character.
pub open spec fn key_lt(a: Seq<char>, b: Seq<char>) -> bool
    decreases a.len(),
{
    if a.len() == 0 {
        b.len() > 0
    } else if b.len() == 0 {
        false
    } else if a[0] != b[0] {
        a[0] < b[0]
    } else {
        key_lt(a.drop_first(), b.drop_first())
    }
}

/// The entries are in strictly ascending key order.
pub open spec fn keys_sorted(e: Seq<(Seq<char>, Tree)>) -> bool {
    forall|i: int, j: int| 0 <= i < j < e.len() ==> key_lt(e[i].0, e[j].0)
}

impl Value {
    /// The tree that this value denotes.
    pub open spec fn tree(&self) -> Tree
        decreases self,
    {
        match self {
            Value::String(s) => Tree::Str(s@),
            Value::Integer(i) => Tree::Integer(*i),
            Value::Real(r) => Tree::Real(*r),
            Value::Boolean(b) => Tree::Boolean(*b),
            Value::Data(d) => Tree::Data(d@),
            Value::Date(d) => Tree::Date(d@),
            Value::Array(v) => Tree::Array(trees_of(v@)),
            Value::Dictionary(d) => Tree::Dict(d.entry_trees()),
        }
    }
}

impl Tree {
    pub open spec fn value_type(self) -> ValueType {
        match self {
            Tree::Str(_) => ValueType::String,
            Tree::Integer(_) => ValueType::Integer,
            Tree::Real(_) => ValueType::Real,
            Tree::Boolean(_) => ValueType::Boolean,
            Tree::Data(_) => ValueType::Data,
            Tree::Date(_) => ValueType::Date,
            Tree::Array(_) => ValueType::Array,
            Tree::Dict(_) => ValueType::Dictionary,
        }
    }
}

impl Dictionary {
    #[verifier::type_invariant]
    pub closed spec fn keys_unique(&self) -> bool {
        forall|i: int, j: int|
            0 <= i < self.entries.len() && 0 <= j < self.entries.len() && i != j
                ==> self.entries@[i].0@ != self.entries@[j].0@
    }

    /// The entries of the dictionary, in order, as key and tree.
    pub closed spec fn entry_trees(&self) -> Seq<(Seq<char>, Tree)>
        decreases self,
    {
        entry_trees_of(self.entries@)
    }

    proof fn lemma_view(&self)
        ensures
            self.entry_trees().len() == self.entries@.len(),
            forall|i: int|
                0 <= i < self.entries@.len() ==> #[trigger] self.entry_trees()[i] == (
                    self.entries@[i].0@,
                    self.entries@[i].1.tree(),
                ),
    {
        lemma_entry_trees_of(self.entries@);
    }

    /// The keys of a dictionary are distinct (`keys_unique` is the type's
    /// invariant, which `use_type_invariant` supplies).
    pub proof fn lemma_distinct(&self)
        requires
            self.keys_unique(),
        ensures
            distinct_keys(self.entry_trees()),
    {
        self.lemma_view();
    }

    pub fn new() -> (d: Dictionary)
        ensures
            d.entry_trees() == Seq::<(Seq<char>, Tree)>::empty(),
    {
        let d = Dictionary { entries: Vec::new() };
        proof {
            d.lemma_view();
            assert(d.entry_trees() =~= Seq::<(Seq<char>, Tree)>::empty());
        }
        d
    }

    pub fn len(&self) -> (r: usize)
        ensures
            r == self.entry_trees().len(),
    {
        proof {
            self.lemma_view();
        }
        self.entries.len()
    }

    /// The keys, in order.
    pub fn keys(&self) -> (r: Vec<String>)
        ensures
            r@.len() == self.entry_trees().len(),
            forall|i: int| 0 <= i < r@.len() ==> #[trigger] r@[i]@ == self.entry_trees()[i].0,
    {
        proof {
            self.lemma_view();
        }
        let mut r: Vec<String> = Vec::new();
        let mut i: usize = 0;
        while i < self.entries.len()
            invariant
                i <= self.entries@.len(),
                r@.len() == i,
                forall|j: int| 0 <= j < i ==> #[trigger] r@[j]@ == self.entries@[j].0@,
            decreases self.entries@.len() - i,
        {
            r.push(self.entries[i].0.clone());
            i += 1;
        }
        r
    }

    /// The key at position `i`.
    pub fn key_at(&self, i: usize) -> (r: &String)
        requires
            i < self.entry_trees().len(),
        ensures
            r@ == self.entry_trees()[i as int].0,
    {
        proof {
            self.lemma_view();
        }
        &self.entries[i].0
    }

    /// The value at position `i`.
    pub fn value_at(&self, i: usize) -> (r: &Value)
        requires
            i < self.entry_trees().len(),
        ensures
            r.tree() == self.entry_trees()[i as int].1,
    {
        proof {
            self.lemma_view();
        }
        &self.entries[i].1
    }

    /// The position of `key`, if present.
    pub fn index_of(&self, key: &str) -> (r: Option<usize>)
        ensures
            r is None <==> !has_key(self.entry_trees(), key@),
            r matches Some(i) ==> i < self.entry_trees().len() && self.entry_trees()[i as int].0
                == key@ && i == key_pos(self.entry_trees(), key@),
    {
        proof {
            use_type_invariant(self);
            self.lemma_view();
            self.lemma_distinct();
        }
        let wanted = key.to_owned();
        let mut i: usize = 0;
        while i < self.entries.len()
            invariant
                i <= self.entries@.len(),
                wanted@ == key@,
                forall|j: int| 0 <= j < i ==> self.entries@[j].0@ != key@,
                forall|j: int| 0 <= j < i ==> self.entry_trees()[j].0 != key@,
            decreases self.entries@.len() - i,
        {
            proof {
                self.lemma_view();
            }
            if self.entries[i].0 == wanted {
                proof {
                    self.lemma_view();
                    let e = self.entry_trees();
                    assert(e[i as int].0 == key@);
                    lemma_key_pos_is(e, key@, i as int);
                }
                return Some(i);
            }
            i += 1;
        }
        proof {
            self.lemma_view();
            let e = self.entry_trees();
            assert forall|j: int| 0 <= j < e.len() implies e[j].0 != key@ by {
                assert(e[j].0 == self.entries@[j].0@);
            }
        }
        None
    }

    pub fn contains_key(&self, key: &str) -> (r: bool)
        ensures
            r == has_key(self.entry_trees(), key@),
    {
        self.index_of(key).is_some()
    }

    /// The value under `key`, if present.
    pub fn get(&self, key: &str) -> (r: Option<&Value>)
        ensures
            r is None <==> !has_key(self.entry_trees(), key@),
            r matches Some(v) ==> v.tree() == self.entry_trees()[key_pos(
                self.entry_trees(),
                key@,
            )].1,
    {
        match self.index_of(key) {
            Some(i) => Some(self.value_at(i)),
            None => None,
        }
    }

    /// Puts `v` under `key`: a present key keeps its place, a new one goes
    /// to the end. Returns the value that `key` held before.
    pub fn insert(&mut self, key: String, v: Value) -> (r: Option<Value>)
        ensures
            final(self).entry_trees() == insert_entry(old(self).entry_trees(), key@, v.tree()),
            r is Some <==> has_key(old(self).entry_trees(), key@),
            r matches Some(o) ==> o.tree() == old(self).entry_trees()[key_pos(
                old(self).entry_trees(),
                key@,
            )].1,
    {
        proof {
            use_type_invariant(&*self);
            self.lemma_view();
            self.lemma_distinct();
        }
        let ghost k = key@;
        let ghost t = v.tree();
        match self.index_of(key.as_str()) {
            Some(i) => {
                let mut entries = Vec::new();
                std::mem::swap(&mut self.entries, &mut entries);
                let mut e = (key, v);
                std::mem::swap(&mut entries[i], &mut e);
                proof {
                    assert forall|a: int, b: int|
                        0 <= a < entries@.len() && 0 <= b < entries@.len() && a != b
                        implies entries@[a].0@ != entries@[b].0@ by {
                        assert(old(self).entries@[i as int].0@ == k);
                        if a != i && b != i {
                            assert(entries@[a] == old(self).entries@[a]);
                            assert(entries@[b] == old(self).entries@[b]);
                        } else if a != i {
                            assert(entries@[a] == old(self).entries@[a]);
                        } else {
                            assert(entries@[b] == old(self).entries@[b]);
                        }
                    }
                }
                self.entries = entries;
                proof {
                    self.lemma_view();
                    old(self).lemma_view();
                    assert(self.entry_trees() =~= old(self).entry_trees().update(i as int, (k, t)));
                }
                Some(e.1)
            },
            None => {
                proof {
                    assert forall|j: int| 0 <= j < self.entries@.len() implies self.entries@[j].0@ != k by {
                        assert(self.entry_trees()[j].0 == self.entries@[j].0@);
                    }
                }
                let mut entries = Vec::new();
                std::mem::swap(&mut self.entries, &mut entries);
                entries.push((key, v));
                self.entries = entries;
                proof {
                    self.lemma_view();
                    old(self).lemma_view();
                    assert(self.entry_trees() =~= old(self).entry_trees().push((k, t)));
                }
                None
            },
        }
    }

    /// Removes `key`; the last entry takes its place. Returns the removed
    /// value.
    pub fn remove(&mut self, key: &str) -> (r: Option<Value>)
        ensures
            final(self).entry_trees() == remove_entry(old(self).entry_trees(), key@),
            r is Some <==> has_key(old(self).entry_trees(), key@),
            r matches Some(o) ==> o.tree() == old(self).entry_trees()[key_pos(
                old(self).entry_trees(),
                key@,
            )].1,
    {
        proof {
            use_type_invariant(&*self);
            self.lemma_view();
        }
        match self.index_of(key) {
            Some(i) => {
                let mut entries = Vec::new();
                std::mem::swap(&mut self.entries, &mut entries);
                let e = entries.swap_remove(i);
                proof {
                    assert forall|a: int, b: int|
                        0 <= a < entries@.len() && 0 <= b < entries@.len() && a != b
                        implies entries@[a].0@ != entries@[b].0@ by {
                        let last = old(self).entries@.len() - 1;
                        let oa = if a == i { last } else { a };
                        let ob = if b == i { last } else { b };
                        assert(entries@[a] == old(self).entries@[oa]);
                        assert(entries@[b] == old(self).entries@[ob]);
                    }
                }
                self.entries = entries;
                proof {
                    self.lemma_view();
                    old(self).lemma_view();
                    let oe = old(self).entry_trees();
                    if i as int == oe.len() - 1 {
                        assert(self.entry_trees() =~= oe.drop_last());
                    } else {
                        assert(self.entry_trees() =~= oe.update(i as int, oe.last()).drop_last());
                    }
                }
                Some(e.1)
            },
            None => None,
        }
    }

    /// Gives `new` as key to the entry under `old_key`, in its place, unless
    /// `new` is already a key or `old_key` is absent. Returns whether it did.
    pub fn rename(&mut self, old_key: &str, new: String) -> (r: bool)
        ensures
            r == (has_key(old(self).entry_trees(), old_key@) && !has_key(
                old(self).entry_trees(),
                new@,
            )),
            r ==> final(self).entry_trees() == old(self).entry_trees().update(
                key_pos(old(self).entry_trees(), old_key@),
                (new@, old(self).entry_trees()[key_pos(old(self).entry_trees(), old_key@)].1),
            ),
            !r ==> final(self).entry_trees() == old(self).entry_trees(),
    {
        proof {
            use_type_invariant(&*self);
            self.lemma_view();
            self.lemma_distinct();
        }
        if self.contains_key(new.as_str()) {
            return false;
        }
        match self.index_of(old_key) {
            Some(i) => {
                let ghost n = new@;
                proof {
                    assert forall|j: int| 0 <= j < self.entries@.len() implies self.entries@[j].0@ != n by {
                        assert(self.entry_trees()[j].0 == self.entries@[j].0@);
                    }
                }
                let mut entries = Vec::new();
                std::mem::swap(&mut self.entries, &mut entries);
                let mut k = new;
                std::mem::swap(&mut entries[i].0, &mut k);
                proof {
                    assert forall|a: int, b: int|
                        0 <= a < entries@.len() && 0 <= b < entries@.len() && a != b
                        implies entries@[a].0@ != entries@[b].0@ by {
                        if a != i {
                            assert(entries@[a] == old(self).entries@[a]);
                        }
                        if b != i {
                            assert(entries@[b] == old(self).entries@[b]);
                        }
                    }
                }
                self.entries = entries;
                proof {
                    self.lemma_view();
                    old(self).lemma_view();
                    let oe = old(self).entry_trees();
                    assert(self.entry_trees() =~= oe.update(i as int, (n, oe[i as int].1)));
                }
                true
            },
            None => false,
        }
    }

    /// Takes the value at position `i` out, leaving `false` in its place.
    pub(crate) fn take_value(&mut self, i: usize) -> (r: Value)
        requires
            i < old(self).entry_trees().len(),
        ensures
            r.tree() == old(self).entry_trees()[i as int].1,
            final(self).entry_trees() == old(self).entry_trees().update(
                i as int,
                (old(self).entry_trees()[i as int].0, Tree::Boolean(false)),
            ),
    {
        proof {
            use_type_invariant(&*self);
            self.lemma_view();
        }
        let mut v = Value::Boolean(false);
        let mut entries = Vec::new();
        std::mem::swap(&mut self.entries, &mut entries);
        std::mem::swap(&mut entries[i].1, &mut v);
        proof {
            assert forall|a: int, b: int|
                0 <= a < entries@.len() && 0 <= b < entries@.len() && a != b
                implies entries@[a].0@ != entries@[b].0@ by {
                assert(entries@[a].0 == old(self).entries@[a].0);
                assert(entries@[b].0 == old(self).entries@[b].0);
            }
        }
        self.entries = entries;
        proof {
            self.lemma_view();
            old(self).lemma_view();
            let oe = old(self).entry_trees();
            assert(self.entry_trees() =~= oe.update(i as int, (oe[i as int].0, Tree::Boolean(false))));
        }
        v
    }

    /// Puts `v` as the value at position `i`, keeping its key.
    pub(crate) fn put_value(&mut self, i: usize, v: Value)
        requires
            i < old(self).entry_trees().len(),
        ensures
            final(self).entry_trees() == old(self).entry_trees().update(
                i as int,
                (old(self).entry_trees()[i as int].0, v.tree()),
            ),
    {
        proof {
            use_type_invariant(&*self);
            self.lemma_view();
        }
        let ghost t = v.tree();
        let mut v = v;
        let mut entries = Vec::new();
        std::mem::swap(&mut self.entries, &mut entries);
        std::mem::swap(&mut entries[i].1, &mut v);
        proof {
            assert forall|a: int, b: int|
                0 <= a < entries@.len() && 0 <= b < entries@.len() && a != b
                implies entries@[a].0@ != entries@[b].0@ by {
                assert(entries@[a].0 == old(self).entries@[a].0);
                assert(entries@[b].0 == old(self).entries@[b].0);
            }
        }
        self.entries = entries;
        proof {
            self.lemma_view();
            old(self).lemma_view();
            let oe = old(self).entry_trees();
            assert(self.entry_trees() =~= oe.update(i as int, (oe[i as int].0, t)));
        }
    }

    /// Reorders the entries by ascending key; the order of insertion is lost.
    pub fn sort_keys(&mut self)
        ensures
            keys_sorted(final(self).entry_trees()),
            final(self).entry_trees().len() == old(self).entry_trees().len(),
            forall|x: (Seq<char>, Tree)|
                final(self).entry_trees().contains(x) <==> old(self).entry_trees().contains(x),
    {
        broadcast use vstd::seq_lib::group_to_multiset_ensures;

        proof {
            use_type_invariant(&*self);
        }
        let mut rest: Vec<(String, Value)> = Vec::new();
        std::mem::swap(&mut self.entries, &mut rest);
        let ghost orig = rest@;
        let mut out: Vec<(String, Value)> = Vec::new();
        while rest.len() > 0
            invariant
                out@.to_multiset().add(rest@.to_multiset()) == orig.to_multiset(),
                forall|a: int, b: int|
                    0 <= a < rest@.len() && 0 <= b < rest@.len() && a != b ==> rest@[a].0@
                        != rest@[b].0@,
                forall|a: int, b: int|
                    0 <= a < b < out@.len() ==> key_lt(out@[a].0@, out@[b].0@),
                forall|a: int, b: int|
                    0 <= a < out@.len() && 0 <= b < rest@.len() ==> key_lt(
                        out@[a].0@,
                        rest@[b].0@,
                    ),
            decreases rest@.len(),
        {
            let mut m: usize = 0;
            let mut j: usize = 1;
            while j < rest.len()
                invariant
                    m < j <= rest@.len(),
                    forall|a: int, b: int|
                        0 <= a < rest@.len() && 0 <= b < rest@.len() && a != b ==> rest@[a].0@
                            != rest@[b].0@,
                    forall|t: int| 0 <= t < j && t != m ==> key_lt(rest@[m as int].0@, rest@[t].0@),
                decreases rest@.len() - j,
            {
                if key_less(rest[j].0.as_str(), rest[m].0.as_str()) {
                    proof {
                        assert forall|t: int| 0 <= t < j + 1 && t != j implies key_lt(
                            rest@[j as int].0@,
                            rest@[t].0@,
                        ) by {
                            if t != m {
                                lemma_key_lt_trans(rest@[j as int].0@, rest@[m as int].0@, rest@[t].0@);
                            }
                        }
                    }
                    m = j;
                } else {
                    proof {
                        lemma_key_lt_total(rest@[j as int].0@, rest@[m as int].0@);
                    }
                }
                j += 1;
            }
            let ghost before = rest@;
            let e = rest.remove(m);
            proof {
                assert(before.remove(m as int) == rest@);
                assert(e == before[m as int]);
                before.to_multiset_ensures();
                out@.to_multiset_ensures();
                assert(before.contains(e));
                assert(before.to_multiset().count(e) > 0);
                assert(rest@.to_multiset() =~= before.to_multiset().remove(e));
                assert(out@.push(e).to_multiset() =~= out@.to_multiset().insert(e));
                assert(out@.push(e).to_multiset().add(rest@.to_multiset()) =~= orig.to_multiset());
                assert forall|a: int| 0 <= a < rest@.len() implies key_lt(e.0@, rest@[a].0@) by {
                    let oa = if a < m { a } else { a + 1 };
                    assert(rest@[a] == before[oa]);
                }
            }
            out.push(e);
        }
        proof {
            assert(rest@.to_multiset() =~= Multiset::empty());
            assert(out@.to_multiset() =~= orig.to_multiset());
            assert forall|a: int, b: int|
                0 <= a < out@.len() && 0 <= b < out@.len() && a != b
                implies out@[a].0@ != out@[b].0@ by {
                if a < b {
                    lemma_key_lt_irreflexive(out@[a].0@);
                } else {
                    lemma_key_lt_irreflexive(out@[b].0@);
                }
            }
        }
        self.entries = out;
        proof {
            self.lemma_view();
            old(self).lemma_view();
            let fe = self.entry_trees();
            let oe = old(self).entry_trees();
            assert(orig == old(self).entries@);
            assert(out@.len() == orig.len()) by {
                assert(out@.to_multiset().len() == orig.to_multiset().len());
            }
            assert forall|x: (Seq<char>, Tree)| fe.contains(x) implies oe.contains(x) by {
                let i = choose|i: int| 0 <= i < fe.len() && fe[i] == x;
                assert(out@.to_multiset().count(out@[i]) > 0);
                assert(orig.contains(out@[i]));
                let j = choose|j: int| 0 <= j < orig.len() && orig[j] == out@[i];
                assert(oe[j] == x);
            }
            assert forall|x: (Seq<char>, Tree)| oe.contains(x) implies fe.contains(x) by {
                let j = choose|j: int| 0 <= j < oe.len() && oe[j] == x;
                assert(orig.to_multiset().count(orig[j]) > 0);
                assert(out@.contains(orig[j]));
                let i = choose|i: int| 0 <= i < out@.len() && out@[i] == orig[j];
                assert(fe[i] == x);
            }
        }
    }
}

/// Whether key `a` comes before key `b`.
pub fn key_less(a: &str, b: &str) -> (r: bool)
    ensures
        r == key_lt(a@, b@),
{
    let la = a.unicode_len();
    let lb = b.unicode_len();
    let mut i: usize = 0;
    proof {
        assert(a@.skip(0) =~= a@);
        assert(b@.skip(0) =~= b@);
    }
    while i < la && i < lb
        invariant
            i <= la,
            i <= lb,
            la == a@.len(),
            lb == b@.len(),
            key_lt(a@, b@) == key_lt(a@.skip(i as int), b@.skip(i as int)),
        decreases la - i,
    {
        let ca = a.get_char(i);
        let cb = b.get_char(i);
        if ca != cb {
            return ca < cb;
        }
        proof {
            assert(a@.skip(i as int).drop_first() =~= a@.skip(i + 1));
            assert(b@.skip(i as int).drop_first() =~= b@.skip(i + 1));
        }
        i += 1;
    }
    i < lb
}

pub proof fn lemma_key_lt_irreflexive(a: Seq<char>)
    ensures
        !key_lt(a, a),
    decreases a.len(),
{
    if a.len() > 0 {
        lemma_key_lt_irreflexive(a.drop_first());
    }
}

pub proof fn lemma_key_lt_total(a: Seq<char>, b: Seq<char>)
    ensures
        a != b ==> key_lt(a, b) || key_lt(b, a),
        key_lt(a, b) ==> !key_lt(b, a),
    decreases a.len(),
{
    if a.len() > 0 && b.len() > 0 && a[0] == b[0] {
        lemma_key_lt_total(a.drop_first(), b.drop_first());
        if a != b {
            assert(a =~= seq![a[0]] + a.drop_first());
            assert(b =~= seq![b[0]] + b.drop_first());
        }
    } else if a.len() == 0 && b.len() == 0 {
        assert(a =~= b);
    }
}

pub proof fn lemma_key_lt_trans(a: Seq<char>, b: Seq<char>, c: Seq<char>)
    requires
        key_lt(a, b),
        key_lt(b, c),
    ensures
        key_lt(a, c),
    decreases a.len(),
{
    if a.len() > 0 && b.len() > 0 && c.len() > 0 && a[0] == b[0] && b[0] == c[0] {
        lemma_key_lt_trans(a.drop_first(), b.drop_first(), c.drop_first());
    }
}

impl Value {
    /// A copy of this value, to any depth.
    pub fn copy(&self) -> (r: Value)
        ensures
            r.tree() == self.tree(),
        decreases self,
    {
        match self {
            Value::String(s) => Value::String(s.clone()),
            Value::Integer(i) => Value::Integer(*i),
            Value::Real(x) => Value::Real(*x),
            Value::Boolean(b) => Value::Boolean(*b),
            Value::Data(d) => {
                let c = d.clone();
                proof {
                    assert(c@ =~= d@);
                }
                Value::Data(c)
            },
            Value::Date(d) => Value::Date(d.clone()),
            Value::Array(v) => {
                let mut out: Vec<Value> = Vec::new();
                let mut i: usize = 0;
                proof {
                    lemma_trees_of(v@);
                }
                while i < v.len()
                    invariant
                        i <= v@.len(),
                        out@.len() == i,
                        *self == Value::Array(*v),
                        forall|j: int| 0 <= j < i ==> #[trigger] out@[j].tree() == v@[j].tree(),
                    decreases v@.len() - i,
                {
                    proof {
                        vstd::std_specs::vec::axiom_vec_index_decreases(*v, i as int);
                        assert(*self == Value::Array(*v));
                        assert(decreases_to!(*self => self->Array_0));
                        assert(decreases_to!(self => v@[i as int]));
                    }
                    out.push(v[i].copy());
                    i += 1;
                }
                proof {
                    lemma_trees_of(v@);
                    lemma_trees_of(out@);
                    assert(trees_of(out@) =~= trees_of(v@));
                }
                Value::Array(out)
            },
            Value::Dictionary(d) => Value::Dictionary(d.copy()),
        }
    }
}

impl Dictionary {
    /// A copy of this dictionary, to any depth.
    pub fn copy(&self) -> (r: Dictionary)
        ensures
            r.entry_trees() == self.entry_trees(),
        decreases self,
    {
        proof {
            use_type_invariant(self);
            self.lemma_view();
        }
        let mut out: Vec<(String, Value)> = Vec::new();
        let mut i: usize = 0;
        while i < self.entries.len()
            invariant
                i <= self.entries@.len(),
                out@.len() == i,
                self.keys_unique(),
                forall|j: int|
                    0 <= j < i ==> #[trigger] out@[j].0@ == self.entries@[j].0@ && out@[j].1.tree()
                        == self.entries@[j].1.tree(),
            decreases self.entries@.len() - i,
        {
            proof {
                assert(decreases_to!(self => self.entries@[i as int].1));
            }
            let k = self.entries[i].0.clone();
            let v = self.entries[i].1.copy();
            out.push((k, v));
            i += 1;
        }
        let r = Dictionary { entries: out };
        proof {
            r.lemma_view();
            self.lemma_view();
            assert(r.entry_trees() =~= self.entry_trees());
        }
        r
    }
}

} // verus!
