use vstd::prelude::*;

use crate::value::{has_key, keys_of, Dictionary, Tree};

verus! {

/// The word that marks a generated copy's key.
pub open spec fn duplicate_word() -> Seq<char> {
    seq!['D', 'u', 'p', 'l', 'i', 'c', 'a', 't', 'e']
}

/// The suffix appended to make a new key: a space and the marker word.
pub open spec fn duplicate_suffix() -> Seq<char> {
    seq![' '] + duplicate_word()
}

/// The key a new child receives when nothing similar exists.
pub open spec fn new_child_name() -> Seq<char> {
    seq!['N', 'e', 'w', ' ', 'C', 'h', 'i', 'l', 'd']
}

/// `v` is `k` itself, or starts with `k` and ends with the marker word.
pub open spec fn dup_candidate(v: Seq<char>, k: Seq<char>) -> bool {
    v == k || (k.is_prefix_of(v) && duplicate_word().is_suffix_of(v))
}

/// The last key, in order, that is a candidate for `k`.
pub open spec fn last_candidate(keys: Seq<Seq<char>>, k: Seq<char>) -> Option<Seq<char>>
    decreases keys.len(),
{
    if keys.len() == 0 {
        None
    } else if dup_candidate(keys.last(), k) {
        Some(keys.last())
    } else {
        last_candidate(keys.drop_last(), k)
    }
}

/// The name proposed for a copy of `k` (or a new child, with `k` the
/// new-child name): the last candidate with the suffix appended, or the
/// new-child name where there is no candidate.
pub open spec fn proposed_key(keys: Seq<Seq<char>>, k: Seq<char>) -> Seq<char> {
    match last_candidate(keys, k) {
        Some(v) => v + duplicate_suffix(),
        None => new_child_name(),
    }
}

/// `s` followed by `m` copies of the suffix.
pub open spec fn with_suffixes(s: Seq<char>, m: nat) -> Seq<char>
    decreases m,
{
    if m == 0 {
        s
    } else {
        with_suffixes(s, (m - 1) as nat) + duplicate_suffix()
    }
}

/// The key generated for a copy of `k`: the proposed name, with the suffix
/// appended as often as needed (possibly never) to be unused.
pub open spec fn generated_key(e: Seq<(Seq<char>, Tree)>, k: Seq<char>, r: Seq<char>) -> bool {
    exists|m: nat|
        r == with_suffixes(proposed_key(keys_of(e), k), m) && forall|j: nat|
            j < m ==> has_key(e, #[trigger] with_suffixes(proposed_key(keys_of(e), k), j))
}

/// Whether `s` starts with `p`.
pub fn starts_with(s: &str, p: &str) -> (r: bool)
    ensures
        r == p@.is_prefix_of(s@),
{
    let ls = s.unicode_len();
    let lp = p.unicode_len();
    if lp > ls {
        return false;
    }
    let mut i: usize = 0;
    while i < lp
        invariant
            i <= lp <= ls,
            ls == s@.len(),
            lp == p@.len(),
            forall|j: int| 0 <= j < i ==> s@[j] == p@[j],
        decreases lp - i,
    {
        if s.get_char(i) != p.get_char(i) {
            return false;
        }
        i += 1;
    }
    proof {
        assert(p@ =~= s@.subrange(0, lp as int));
    }
    true
}

/// Whether `s` ends with `p`.
pub fn ends_with(s: &str, p: &str) -> (r: bool)
    ensures
        r == p@.is_suffix_of(s@),
{
    let ls = s.unicode_len();
    let lp = p.unicode_len();
    if lp > ls {
        return false;
    }
    let off = ls - lp;
    let mut i: usize = 0;
    while i < lp
        invariant
            i <= lp <= ls,
            off == ls - lp,
            ls == s@.len(),
            lp == p@.len(),
            forall|j: int| 0 <= j < i ==> s@[off + j] == p@[j],
        decreases lp - i,
    {
        if s.get_char(off + i) != p.get_char(i) {
            proof {
                assert(s@.subrange(off as int, ls as int)[i as int] != p@[i as int]);
            }
            return false;
        }
        i += 1;
    }
    proof {
        assert(p@ =~= s@.subrange(off as int, ls as int));
    }
    true
}

/// The longest key length among entries.
pub open spec fn max_key_len(e: Seq<(Seq<char>, Tree)>) -> nat
    decreases e.len(),
{
    if e.len() == 0 {
        0
    } else {
        let m = max_key_len(e.drop_last());
        if e.last().0.len() > m {
            e.last().0.len()
        } else {
            m
        }
    }
}

pub proof fn lemma_max_key_len(e: Seq<(Seq<char>, Tree)>, k: Seq<char>)
    requires
        has_key(e, k),
    ensures
        k.len() <= max_key_len(e),
    decreases e.len(),
{
    if e.last().0 != k {
        let i = choose|i: int| 0 <= i < e.len() && e[i].0 == k;
        assert(e.drop_last()[i].0 == k);
        lemma_max_key_len(e.drop_last(), k);
    }
}

impl Dictionary {
    /// The last key, in order, that equals `k` or starts with `k` and ends
    /// with the marker word.
    pub fn last_candidate(&self, k: &str) -> (r: Option<String>)
        ensures
            r matches Some(s) ==> last_candidate(keys_of(self.entry_trees()), k@) == Some(s@),
            r is None ==> last_candidate(keys_of(self.entry_trees()), k@) is None,
    {
        let keys = self.keys();
        let ghost ks = keys_of(self.entry_trees());
        let word = "Duplicate";
        proof {
            reveal_strlit("Duplicate");
            assert(word@ =~= duplicate_word());
            assert(ks.take(keys@.len() as int) =~= ks);
        }
        let mut i: usize = keys.len();
        while i > 0
            invariant
                i <= keys@.len(),
                ks == keys_of(self.entry_trees()),
                keys@.len() == ks.len(),
                word@ == duplicate_word(),
                forall|j: int| 0 <= j < keys@.len() ==> #[trigger] keys@[j]@ == ks[j],
                last_candidate(ks, k@) == last_candidate(ks.take(i as int), k@),
            decreases i,
        {
            let key = keys[i - 1].as_str();
            let ghost pre = ks.take(i as int);
            proof {
                assert(pre.drop_last() =~= ks.take(i - 1));
                assert(pre.last() == key@);
            }
            if key.to_owned() == k.to_owned() || (starts_with(key, k) && ends_with(key, word)) {
                proof {
                    assert(dup_candidate(pre.last(), k@));
                    assert(last_candidate(pre, k@) == Some(pre.last()));
                }
                let res = key.to_owned();
                assert(res@ == key@);
                assert(last_candidate(ks, k@) == Some(res@));
                return Some(res);
            }
            i -= 1;
        }
        proof {
            assert(ks.take(0) =~= Seq::<Seq<char>>::empty());
        }
        None
    }
}

/// A key for a new entry of `d` derived from `k`: the last key that equals
/// `k` or extends it with the marker word, followed by `" Duplicate"` (or
/// `"New Child"` where there is none), with `" Duplicate"` appended again
/// while that key is taken.
pub fn get_new_key(d: &Dictionary, k: &str) -> (r: String)
    ensures
        generated_key(d.entry_trees(), k@, r@),
        !has_key(d.entry_trees(), r@),
{
    let ghost e = d.entry_trees();
    let ghost proposed = proposed_key(keys_of(e), k@);
    let suffix = " Duplicate";
    proof {
        reveal_strlit(" Duplicate");
        reveal_strlit("New Child");
        assert(suffix@ =~= duplicate_suffix());
    }
    let mut cand = match d.last_candidate(k) {
        Some(v) => {
            let mut v = v;
            v.append(suffix);
            v
        },
        None => {
            let v = "New Child".to_owned();
            proof {
                assert(v@ =~= new_child_name());
            }
            v
        },
    };
    let ghost mut m: nat = 0;
    while d.contains_key(cand.as_str())
        invariant
            e == d.entry_trees(),
            proposed == proposed_key(keys_of(e), k@),
            suffix@ == duplicate_suffix(),
            cand@ == with_suffixes(proposed, m),
            forall|j: nat| j < m ==> has_key(e, #[trigger] with_suffixes(proposed, j)),
        decreases (if cand@.len() <= max_key_len(e) + 10 {
            max_key_len(e) + 10 - cand@.len()
        } else {
            0
        }),
    {
        proof {
            lemma_max_key_len(e, cand@);
        }
        cand.append(suffix);
        proof {
            assert forall|j: nat| j < m + 1 implies has_key(e, #[trigger] with_suffixes(proposed, j)) by {
                if j == m {
                } else {
                    assert(j < m);
                }
            }
            m = m + 1;
        }
    }
    cand
}

} // verus!
