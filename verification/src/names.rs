//! Collections of names kept in code-point order: sorted name lists, name
//! sets, and [`NameMap`], the ordered map from names to values that the
//! fault-tree model is built on.

use vstd::prelude::*;
use vstd::multiset::Multiset;

use crate::text::{lemma_lex_irreflexive, lemma_lex_total, lemma_lex_transitive, lex_lt, str_eq, str_lt};

verus! {

/// The character sequences of a list of strings.
pub open spec fn text_views(v: Seq<String>) -> Seq<Seq<char>> {
    v.map_values(|s: String| s@)
}

/// Every element comes strictly before the next ones: sorted, no repeats.
pub open spec fn strictly_sorted(s: Seq<Seq<char>>) -> bool {
    forall|i: int, j: int| 0 <= i < j < s.len() ==> lex_lt(#[trigger] s[i], #[trigger] s[j])
}

/// No element comes after a later one: sorted, repeats allowed.
pub open spec fn sorted(s: Seq<Seq<char>>) -> bool {
    forall|i: int, j: int| 0 <= i < j < s.len() ==> !lex_lt(#[trigger] s[j], #[trigger] s[i])
}

/// Inserts `x` into a strictly sorted list of names, unless it is there.
pub fn insert_name(set: &mut Vec<String>, x: String)
    requires
        strictly_sorted(text_views(old(set)@)),
    ensures
        strictly_sorted(text_views(final(set)@)),
        text_views(final(set)@).to_set() == text_views(old(set)@).to_set().insert(x@),
{
    let n = set.len();
    let mut p: usize = 0;
    while p < n && str_lt(set[p].as_str(), x.as_str())
        invariant
            n == set@.len(),
            p <= n,
            forall|i: int| 0 <= i < p ==> lex_lt(#[trigger] set@[i]@, x@),
        decreases n - p,
    {
        p = p + 1;
    }
    let ghost old_views = text_views(set@);
    if p < n && str_eq(set[p].as_str(), x.as_str()) {
        assert(text_views(set@).to_set() =~= text_views(set@).to_set().insert(x@)) by {
            assert(text_views(set@)[p as int] == x@);
        }
        return;
    }
    proof {
        if p < n {
            lemma_lex_total(set@[p as int]@, x@);
        }
    }
    set.insert(p, x);
    assert(text_views(set@) =~= old_views.insert(p as int, x@));
    assert forall|i: int, j: int|
        0 <= i < j < text_views(set@).len() implies lex_lt(
        #[trigger] text_views(set@)[i],
        #[trigger] text_views(set@)[j],
    ) by {
        let v = text_views(set@);
        if j < p {
            assert(lex_lt(old_views[i], old_views[j]));
        } else if j == p {
        } else if i == p {
            if j - 1 > p {
                assert(lex_lt(old_views[p as int], old_views[j - 1]));
                lemma_lex_transitive(x@, old_views[p as int], old_views[j - 1]);
            }
        } else if i < p {
            assert(lex_lt(old_views[i], x@));
            assert(lex_lt(x@, old_views[p as int]));
            lemma_lex_transitive(old_views[i], x@, old_views[p as int]);
            if j - 1 > p {
                assert(lex_lt(old_views[p as int], old_views[j - 1]));
                lemma_lex_transitive(old_views[i], old_views[p as int], old_views[j - 1]);
            }
        } else {
            assert(lex_lt(old_views[i - 1], old_views[j - 1]));
        }
    }
    assert(text_views(set@).to_set() =~= old_views.to_set().insert(x@)) by {
        let v = text_views(set@);
        assert forall|y: Seq<char>| v.to_set().contains(y) implies old_views.to_set().insert(
            x@,
        ).contains(y) by {
            let k = choose|k: int| 0 <= k < v.len() && v[k] == y;
            if k < p {
                assert(old_views[k] == y);
            } else if k > p {
                assert(old_views[k - 1] == y);
            }
        }
        assert forall|y: Seq<char>| old_views.to_set().insert(x@).contains(y) implies v.to_set().contains(
            y,
        ) by {
            if y == x@ {
                assert(v[p as int] == y);
            } else {
                let k = choose|k: int| 0 <= k < old_views.len() && old_views[k] == y;
                if k < p {
                    assert(v[k] == y);
                } else {
                    assert(v[k + 1] == y);
                }
            }
        }
    }
}

/// The names of `v` in code-point order (repeats kept).
pub fn sort_names(v: Vec<String>) -> (r: Vec<String>)
    ensures
        sorted(text_views(r@)),
        r@.to_multiset() == v@.to_multiset(),
        text_views(r@).to_multiset() == text_views(v@).to_multiset(),
{
    broadcast use vstd::multiset::group_multiset_axioms;
    broadcast use vstd::seq_lib::group_to_multiset_ensures;

    let ghost given = v@;
    let mut rest = v;
    let mut r: Vec<String> = Vec::new();
    while rest.len() > 0
        invariant
            sorted(text_views(r@)),
            r@.to_multiset().add(rest@.to_multiset()) == given.to_multiset(),
            text_views(r@).to_multiset().add(text_views(rest@).to_multiset()) == text_views(
                given,
            ).to_multiset(),
        decreases rest@.len(),
    {
        let ghost rest_before = rest@;
        let ghost r_before = r@;
        let x = rest.pop().unwrap();
        assert(rest_before == rest@.push(x));
        assert(text_views(rest_before) =~= text_views(rest@).push(x@));
        let n = r.len();
        let mut p: usize = 0;
        while p < n && !str_lt(x.as_str(), r[p].as_str())
            invariant
                n == r@.len(),
                r@ == r_before,
                p <= n,
                forall|i: int| 0 <= i < p ==> !lex_lt(x@, #[trigger] r@[i]@),
            decreases n - p,
        {
            p = p + 1;
        }
        let ghost old_views = text_views(r@);
        r.insert(p, x);
        assert(text_views(r@) =~= old_views.insert(p as int, x@));
        assert forall|i: int, j: int| 0 <= i < j < text_views(r@).len() implies !lex_lt(
            #[trigger] text_views(r@)[j],
            #[trigger] text_views(r@)[i],
        ) by {
            if j < p {
                assert(!lex_lt(old_views[j], old_views[i]));
            } else if j == p {
                assert(!lex_lt(x@, old_views[i]));
            } else if i == p {
                assert(lex_lt(x@, old_views[p as int]));
                if lex_lt(old_views[j - 1], x@) {
                    lemma_lex_transitive(old_views[j - 1], x@, old_views[p as int]);
                    if j - 1 > p {
                        assert(!lex_lt(old_views[j - 1], old_views[p as int]));
                    } else {
                        lemma_lex_total(old_views[p as int], x@);
                    }
                }
            } else if i < p {
                assert(!lex_lt(old_views[j - 1], old_views[i]));
            } else {
                assert(!lex_lt(old_views[j - 1], old_views[i - 1]));
            }
        }
        assert(r@ == r_before.insert(p as int, x));
        proof {
            vstd::seq_lib::to_multiset_insert(r_before, p as int, x);
            vstd::seq_lib::to_multiset_build(rest@, x);
            vstd::seq_lib::to_multiset_insert(old_views, p as int, x@);
            vstd::seq_lib::to_multiset_build(text_views(rest@), x@);
        }
        assert(r@.to_multiset().add(rest@.to_multiset()) =~= r_before.to_multiset().add(
            rest_before.to_multiset(),
        ));
        assert(text_views(r@).to_multiset().add(text_views(rest@).to_multiset()) =~= text_views(
            r_before,
        ).to_multiset().add(text_views(rest_before).to_multiset()));
    }
    assert(rest@.to_multiset() =~= Multiset::empty());
    assert(text_views(rest@).to_multiset() =~= Multiset::empty());
    assert(r@.to_multiset() =~= given.to_multiset());
    assert(text_views(r@).to_multiset() =~= text_views(given).to_multiset());
    r
}

// ─── Ordered name map ──────────────────────────────────────────────────────

/// The names of a sequence of map entries.
pub open spec fn entry_keys<V>(s: Seq<(Seq<char>, V)>) -> Seq<Seq<char>> {
    s.map_values(|e: (Seq<char>, V)| e.0)
}

/// The entries hold the pair `(k, v)`.
pub open spec fn has_entry<V>(s: Seq<(Seq<char>, V)>, k: Seq<char>, v: V) -> bool {
    exists|i: int| 0 <= i < s.len() && #[trigger] s[i] == (k, v)
}

/// The entries hold a pair with name `k`.
pub open spec fn has_key<V>(s: Seq<(Seq<char>, V)>, k: Seq<char>) -> bool {
    exists|i: int| 0 <= i < s.len() && (#[trigger] s[i]).0 == k
}

/// A map from names to values whose entries are kept in code-point order of
/// their names: the ordered map that the fault-tree model and the manifest
/// rows are made of.  Its view is the sequence of `(name, value)` entries in
/// that order.
#[derive(Debug, PartialEq)]
pub struct NameMap<V> {
    entries: Vec<(String, V)>,
}

impl<V> View for NameMap<V> {
    type V = Seq<(Seq<char>, V)>;

    closed spec fn view(&self) -> Seq<(Seq<char>, V)> {
        self.entries@.map_values(|e: (String, V)| (e.0@, e.1))
    }
}

impl<V> NameMap<V> {
    #[verifier::type_invariant]
    closed spec fn keys_in_order(&self) -> bool {
        strictly_sorted(entry_keys(self@))
    }

    /// An empty map.
    pub fn new() -> (m: Self)
        ensures
            m@ == Seq::<(Seq<char>, V)>::empty(),
    {
        let m = NameMap { entries: Vec::new() };
        assert(entry_keys(m@) =~= Seq::<Seq<char>>::empty());
        m
    }

    /// States that the entries are in strict code-point order of their names
    /// (so no name occurs twice).
    pub fn ordered(&self)
        ensures
            strictly_sorted(entry_keys(self@)),
    {
        proof {
            use_type_invariant(self);
        }
    }

    /// The number of entries.
    pub fn len(&self) -> (n: usize)
        ensures
            n == self@.len(),
    {
        self.entries.len()
    }

    /// Whether the map has no entries.
    pub fn is_empty(&self) -> (b: bool)
        ensures
            b == (self@.len() == 0),
    {
        self.entries.len() == 0
    }

    /// The name of the entry at position `i`.
    pub fn key_at(&self, i: usize) -> (k: &String)
        requires
            i < self@.len(),
        ensures
            k@ == self@[i as int].0,
    {
        &self.entries[i].0
    }

    /// The value of the entry at position `i`.
    pub fn value_at(&self, i: usize) -> (v: &V)
        requires
            i < self@.len(),
        ensures
            *v == self@[i as int].1,
    {
        &self.entries[i].1
    }

    /// The position where `key` is or would go, and whether it is there.
    fn position(&self, key: &str) -> (r: (usize, bool))
        ensures
            r.0 <= self@.len(),
            forall|i: int| 0 <= i < r.0 ==> lex_lt(#[trigger] self@[i].0, key@),
            forall|i: int| r.0 <= i < self@.len() ==> !lex_lt(#[trigger] self@[i].0, key@),
            r.1 == (r.0 < self@.len() && self@[r.0 as int].0 == key@),
            !r.1 ==> forall|i: int| r.0 <= i < self@.len() ==> lex_lt(key@, #[trigger] self@[i].0),
    {
        proof {
            use_type_invariant(self);
        }
        let n = self.entries.len();
        let mut p: usize = 0;
        while p < n && str_lt(self.entries[p].0.as_str(), key)
            invariant
                n == self@.len(),
                p <= n,
                forall|i: int| 0 <= i < p ==> lex_lt(#[trigger] self@[i].0, key@),
            decreases n - p,
        {
            assert(self@[p as int].0 == self.entries@[p as int].0@);
            p = p + 1;
        }
        let found = p < n && str_eq(self.entries[p].0.as_str(), key);
        proof {
            if p < n {
                assert(self@[p as int].0 == self.entries@[p as int].0@);
                assert(!lex_lt(self@[p as int].0, key@));
                lemma_lex_total(self@[p as int].0, key@);
            }
            assert forall|i: int| p <= i < self@.len() implies !lex_lt(#[trigger] self@[i].0, key@) by {
                if i > p {
                    assert(lex_lt(entry_keys(self@)[p as int], entry_keys(self@)[i]));
                    lemma_lex_total(self@[p as int].0, key@);
                    if lex_lt(self@[i].0, key@) {
                        if self@[p as int].0 == key@ {
                            lemma_lex_total(self@[i].0, key@);
                        } else {
                            lemma_lex_transitive(self@[p as int].0, self@[i].0, key@);
                        }
                    }
                }
            }
            if !found {
                assert forall|i: int| p <= i < self@.len() implies lex_lt(key@, #[trigger] self@[i].0) by {
                    lemma_lex_total(self@[p as int].0, key@);
                    if i > p {
                        assert(lex_lt(entry_keys(self@)[p as int], entry_keys(self@)[i]));
                        lemma_lex_transitive(key@, self@[p as int].0, self@[i].0);
                    }
                }
            }
        }
        (p, found)
    }

    /// Whether an entry has the name `key`.
    pub fn contains_key(&self, key: &str) -> (b: bool)
        ensures
            b == has_key(self@, key@),
    {
        proof {
            use_type_invariant(self);
        }
        let (p, found) = self.position(key);
        proof {
            if has_key(self@, key@) {
                let i = choose|i: int| 0 <= i < self@.len() && (#[trigger] self@[i]).0 == key@;
                lemma_lex_irreflexive(key@);
                if i != p {
                    if !found {
                        assert(i < p || lex_lt(key@, self@[i].0));
                    }
                }
            }
        }
        found
    }

    /// The value stored under `key`, if any.
    pub fn get(&self, key: &str) -> (r: Option<&V>)
        ensures
            match r {
                Some(v) => has_entry(self@, key@, *v),
                None => !has_key(self@, key@),
            },
    {
        let (p, found) = self.position(key);
        if found {
            assert(self@[p as int] == (key@, self.entries@[p as int].1));
            Some(&self.entries[p].1)
        } else {
            proof {
                if has_key(self@, key@) {
                    let i = choose|i: int| 0 <= i < self@.len() && (#[trigger] self@[i]).0 == key@;
                    lemma_lex_irreflexive(key@);
                }
            }
            None
        }
    }

    /// Stores `value` under `key`, replacing the value stored there before.
    pub fn insert(&mut self, key: String, value: V)
        ensures
            forall|k: Seq<char>, v: V|
                #[trigger] has_entry(final(self)@, k, v) <==> ((k == key@ && v == value) || (k
                    != key@ && has_entry(old(self)@, k, v))),
            final(self)@.len() == old(self)@.len() + if has_key(old(self)@, key@) {
                0int
            } else {
                1int
            },
    {
        proof {
            use_type_invariant(&*self);
        }
        let (p, found) = self.position(key.as_str());
        let ghost old_view = self@;
        proof {
            if has_key(old_view, key@) {
                let i = choose|i: int| 0 <= i < old_view.len() && (#[trigger] old_view[i]).0 == key@;
                lemma_lex_irreflexive(key@);
                if !found {
                    assert(i < p || lex_lt(key@, old_view[i].0));
                }
            }
        }
        let mut entries: Vec<(String, V)> = Vec::new();
        std::mem::swap(&mut entries, &mut self.entries);
        if found {
            let (k, _old_value) = entries.remove(p);
            entries.insert(p, (k, value));
        } else {
            entries.insert(p, (key, value));
        }
        let ghost new_view = entries@.map_values(|e: (String, V)| (e.0@, e.1));
        proof {
            if found {
                assert(new_view =~= old_view.update(p as int, (key@, value)));
            } else {
                assert(new_view =~= old_view.insert(p as int, (key@, value)));
            }
            assert(strictly_sorted(entry_keys(new_view))) by {
                assert forall|i: int, j: int| 0 <= i < j < new_view.len() implies lex_lt(
                    #[trigger] entry_keys(new_view)[i],
                    #[trigger] entry_keys(new_view)[j],
                ) by {
                    let ok = entry_keys(old_view);
                    if found {
                        if i == p {
                            assert(lex_lt(ok[i], ok[j]));
                        } else if j == p {
                            assert(lex_lt(ok[i], ok[j]));
                        } else {
                            assert(lex_lt(ok[i], ok[j]));
                        }
                    } else {
                        if j < p {
                            assert(lex_lt(ok[i], ok[j]));
                        } else if j == p {
                            assert(lex_lt(old_view[i].0, key@));
                        } else if i == p {
                            assert(lex_lt(key@, old_view[j - 1].0));
                        } else if i < p {
                            assert(lex_lt(old_view[i].0, key@));
                            assert(lex_lt(key@, old_view[j - 1].0));
                            lemma_lex_transitive(old_view[i].0, key@, old_view[j - 1].0);
                        } else {
                            assert(lex_lt(ok[i - 1], ok[j - 1]));
                        }
                    }
                }
            }
            assert forall|k: Seq<char>, v: V|
                #[trigger] has_entry(new_view, k, v) <==> ((k == key@ && v == value) || (k != key@
                    && has_entry(old_view, k, v))) by {
                if has_entry(new_view, k, v) {
                    let i = choose|i: int| 0 <= i < new_view.len() && #[trigger] new_view[i] == (k, v);
                    if i == p {
                        assert(new_view[p as int] == (key@, value));
                        assert(k == key@ && v == value);
                    }
                    if found {
                        if i != p {
                            assert(old_view[i] == (k, v));
                            assert(lex_lt(entry_keys(old_view)[i], entry_keys(old_view)[p as int])
                                || lex_lt(entry_keys(old_view)[p as int], entry_keys(old_view)[i]));
                            lemma_lex_irreflexive(k);
                        }
                    } else {
                        if i < p {
                            assert(old_view[i] == (k, v));
                            assert(lex_lt(old_view[i].0, key@));
                            lemma_lex_irreflexive(k);
                        } else if i > p {
                            assert(old_view[i - 1] == (k, v));
                            assert(lex_lt(key@, old_view[i - 1].0));
                            lemma_lex_irreflexive(k);
                        }
                    }
                }
                if (k == key@ && v == value) {
                    assert(new_view[p as int] == (k, v));
                }
                if k != key@ && has_entry(old_view, k, v) {
                    let i = choose|i: int| 0 <= i < old_view.len() && #[trigger] old_view[i] == (k, v);
                    if found {
                        assert(new_view[i] == (k, v));
                    } else if i < p {
                        assert(new_view[i] == (k, v));
                    } else {
                        assert(new_view[i + 1] == (k, v));
                    }
                }
            }
        }
        self.entries = entries;
    }

    /// Removes the entry named `key` and hands back its value, if any.
    pub fn remove(&mut self, key: &str) -> (r: Option<V>)
        ensures
            forall|k: Seq<char>, v: V|
                #[trigger] has_entry(final(self)@, k, v) <==> (k != key@ && has_entry(
                    old(self)@,
                    k,
                    v,
                )),
            match r {
                Some(v) => has_entry(old(self)@, key@, v),
                None => !has_key(old(self)@, key@),
            },
            final(self)@.len() == old(self)@.len() - if r is Some {
                1int
            } else {
                0int
            },
            r is None ==> final(self)@ == old(self)@,
    {
        proof {
            use_type_invariant(&*self);
        }
        let (p, found) = self.position(key);
        let ghost old_view = self@;
        proof {
            if !found && has_key(old_view, key@) {
                let i = choose|i: int| 0 <= i < old_view.len() && (#[trigger] old_view[i]).0 == key@;
                lemma_lex_irreflexive(key@);
            }
        }
        if !found {
            assert forall|k: Seq<char>, v: V| #[trigger] has_entry(self@, k, v) implies k != key@ by {
                let i = choose|i: int| 0 <= i < old_view.len() && #[trigger] old_view[i] == (k, v);
                lemma_lex_irreflexive(key@);
            }
            return None;
        }
        let mut entries: Vec<(String, V)> = Vec::new();
        std::mem::swap(&mut entries, &mut self.entries);
        let (_k, value) = entries.remove(p);
        let ghost new_view = entries@.map_values(|e: (String, V)| (e.0@, e.1));
        proof {
            assert(new_view =~= old_view.remove(p as int));
            assert(old_view[p as int] == (key@, value));
            assert(strictly_sorted(entry_keys(new_view))) by {
                assert forall|i: int, j: int| 0 <= i < j < new_view.len() implies lex_lt(
                    #[trigger] entry_keys(new_view)[i],
                    #[trigger] entry_keys(new_view)[j],
                ) by {
                    let ok = entry_keys(old_view);
                    if j < p {
                        assert(lex_lt(ok[i], ok[j]));
                    } else if i < p {
                        assert(lex_lt(ok[i], ok[j + 1]));
                    } else {
                        assert(lex_lt(ok[i + 1], ok[j + 1]));
                    }
                }
            }
            assert forall|k: Seq<char>, v: V|
                #[trigger] has_entry(new_view, k, v) <==> (k != key@ && has_entry(old_view, k, v)) by {
                if has_entry(new_view, k, v) {
                    let i = choose|i: int| 0 <= i < new_view.len() && #[trigger] new_view[i] == (k, v);
                    if i < p {
                        assert(old_view[i] == (k, v));
                        assert(lex_lt(entry_keys(old_view)[i], entry_keys(old_view)[p as int]));
                        lemma_lex_irreflexive(k);
                    } else {
                        assert(old_view[i + 1] == (k, v));
                        assert(lex_lt(entry_keys(old_view)[p as int], entry_keys(old_view)[i + 1]));
                        lemma_lex_irreflexive(k);
                    }
                }
                if k != key@ && has_entry(old_view, k, v) {
                    let i = choose|i: int| 0 <= i < old_view.len() && #[trigger] old_view[i] == (k, v);
                    if i < p {
                        assert(new_view[i] == (k, v));
                    } else {
                        assert(i != p);
                        assert(new_view[i - 1] == (k, v));
                    }
                }
            }
        }
        self.entries = entries;
        Some(value)
    }

    /// Replaces the value of the entry at position `i`, keeping its name.
    pub fn set_value_at(&mut self, i: usize, value: V)
        requires
            i < old(self)@.len(),
        ensures
            final(self)@ == old(self)@.update(i as int, (old(self)@[i as int].0, value)),
    {
        proof {
            use_type_invariant(&*self);
        }
        let ghost old_view = self@;
        let mut entries: Vec<(String, V)> = Vec::new();
        std::mem::swap(&mut entries, &mut self.entries);
        let (k, _old_value) = entries.remove(i);
        entries.insert(i, (k, value));
        let ghost new_view = entries@.map_values(|e: (String, V)| (e.0@, e.1));
        assert(new_view =~= old_view.update(i as int, (old_view[i as int].0, value)));
        assert(entry_keys(new_view) =~= entry_keys(old_view));
        self.entries = entries;
    }

    /// The names of the entries, in order.
    pub fn keys(&self) -> (r: Vec<String>)
        ensures
            text_views(r@) == entry_keys(self@),
    {
        let n = self.entries.len();
        let mut r: Vec<String> = Vec::new();
        let mut i: usize = 0;
        while i < n
            invariant
                n == self@.len(),
                i <= n,
                r@.len() == i,
                forall|j: int| 0 <= j < i ==> (#[trigger] r@[j])@ == self@[j].0,
            decreases n - i,
        {
            assert(self@[i as int].0 == self.entries@[i as int].0@);
            r.push(self.entries[i].0.clone());
            i = i + 1;
        }
        assert(text_views(r@) =~= entry_keys(self@));
        r
    }
}

} // verus!
