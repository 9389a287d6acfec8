//! A map from string keys to values, kept as a vector of entries in strictly
//! ascending key order. Its view is a `Map` over the keys' characters; the
//! order makes the entry sequence a function of the map alone.
//!
//! It stands where a `BTreeMap<String, _>` would: vstd specifies `BTreeMap`
//! only for key types whose comparison it knows, and it gives `String` none,
//! so the ordering is kept here as a type invariant and proved.

use crate::text::{
    chars_lt, compare_chars, lemma_chars_lt_asymmetric, lemma_chars_lt_irreflexive,
    lemma_chars_lt_total, lemma_chars_lt_transitive, to_chars, KeyOrder,
};
use vstd::prelude::*;

verus! {

broadcast use vstd::string::group_string_axioms;

/// `m` with `pairs` written into it in order, a later pair replacing an
/// earlier value for the same key.
pub open spec fn overlay<W>(m: Map<Seq<char>, W>, pairs: Seq<(Seq<char>, W)>) -> Map<Seq<char>, W>
    decreases pairs.len(),
{
    if pairs.len() == 0 {
        m
    } else {
        overlay(m, pairs.drop_last()).insert(pairs.last().0, pairs.last().1)
    }
}

/// The map that `pairs` describe, later pairs winning.
pub open spec fn map_of<W>(pairs: Seq<(Seq<char>, W)>) -> Map<Seq<char>, W> {
    overlay(Map::empty(), pairs)
}

/// Keys strictly ascending, hence also distinct.
pub open spec fn keys_ascending<W>(pairs: Seq<(Seq<char>, W)>) -> bool {
    forall|i: int, j: int| 0 <= i < j < pairs.len() ==> chars_lt(#[trigger] pairs[i].0, #[trigger] pairs[j].0)
}

/// The entries of `m` in ascending key order.
pub open spec fn ascending_entries<W>(m: Map<Seq<char>, W>) -> Seq<(Seq<char>, W)> {
    choose|s: Seq<(Seq<char>, W)>| keys_ascending(s) && map_of(s) == m
}

/// Whether some pair of `pairs` has key `k`.
pub open spec fn has_key<W>(pairs: Seq<(Seq<char>, W)>, k: Seq<char>) -> bool {
    exists|i: int| 0 <= i < pairs.len() && #[trigger] pairs[i].0 == k
}

/// Writing pairs never removes a key and adds exactly the keys written.
pub proof fn lemma_overlay_domain<W>(m: Map<Seq<char>, W>, pairs: Seq<(Seq<char>, W)>, k: Seq<char>)
    ensures
        overlay(m, pairs).contains_key(k) <==> (m.contains_key(k) || has_key(pairs, k)),
    decreases pairs.len(),
{
    if pairs.len() > 0 {
        let init = pairs.drop_last();
        lemma_overlay_domain(m, init, k);
        if has_key(init, k) {
            let i = choose|i: int| 0 <= i < init.len() && #[trigger] init[i].0 == k;
            assert(pairs[i].0 == k);
        }
        if has_key(pairs, k) && pairs.last().0 != k {
            let i = choose|i: int| 0 <= i < pairs.len() && #[trigger] pairs[i].0 == k;
            assert(init[i].0 == k);
        }
    }
}

/// A key that no pair writes keeps its value.
pub proof fn lemma_overlay_untouched<W>(m: Map<Seq<char>, W>, pairs: Seq<(Seq<char>, W)>, k: Seq<char>)
    requires
        !has_key(pairs, k),
    ensures
        overlay(m, pairs).contains_key(k) == m.contains_key(k),
        m.contains_key(k) ==> overlay(m, pairs)[k] == m[k],
    decreases pairs.len(),
{
    if pairs.len() > 0 {
        let init = pairs.drop_last();
        assert(pairs.last().0 == pairs[pairs.len() - 1].0);
        if has_key(init, k) {
            let i = choose|i: int| 0 <= i < init.len() && #[trigger] init[i].0 == k;
            assert(pairs[i].0 == k);
        }
        lemma_overlay_untouched(m, init, k);
    }
}

/// A key takes the value of the last pair that writes it.
pub proof fn lemma_overlay_last_wins<W>(m: Map<Seq<char>, W>, pairs: Seq<(Seq<char>, W)>, i: int)
    requires
        0 <= i < pairs.len(),
        forall|j: int| i < j < pairs.len() ==> #[trigger] pairs[j].0 != pairs[i].0,
    ensures
        overlay(m, pairs).contains_key(pairs[i].0),
        overlay(m, pairs)[pairs[i].0] == pairs[i].1,
    decreases pairs.len(),
{
    if i < pairs.len() - 1 {
        let init = pairs.drop_last();
        assert(pairs[pairs.len() - 1].0 != pairs[i].0);
        assert forall|j: int| i < j < init.len() implies #[trigger] init[j].0 != init[i].0 by {
            assert(init[j] == pairs[j]);
        }
        lemma_overlay_last_wins(m, init, i);
    }
}

/// Writing pairs into `m` is `m` updated by the map the pairs describe.
pub proof fn lemma_overlay_union<W>(m: Map<Seq<char>, W>, pairs: Seq<(Seq<char>, W)>)
    ensures
        overlay(m, pairs) == m.union_prefer_right(map_of(pairs)),
    decreases pairs.len(),
{
    if pairs.len() == 0 {
        assert(m.union_prefer_right(Map::empty()) =~= m);
    } else {
        lemma_overlay_union(m, pairs.drop_last());
        assert(overlay(m, pairs) =~= m.union_prefer_right(map_of(pairs)));
    }
}

/// With ascending keys, the pair at `i` gives its key's value.
proof fn lemma_ascending_entry<W>(s: Seq<(Seq<char>, W)>, i: int)
    requires
        keys_ascending(s),
        0 <= i < s.len(),
    ensures
        map_of(s).contains_key(s[i].0),
        map_of(s)[s[i].0] == s[i].1,
{
    assert forall|j: int| i < j < s.len() implies #[trigger] s[j].0 != s[i].0 by {
        assert(chars_lt(s[i].0, s[j].0));
        lemma_chars_lt_irreflexive(s[i].0);
    }
    lemma_overlay_last_wins(Map::empty(), s, i);
}

/// With ascending keys, each pair's key maps to its value, and only those
/// keys are present.
#[verifier::spinoff_prover]
pub proof fn lemma_map_of_ascending<W>(s: Seq<(Seq<char>, W)>)
    requires
        keys_ascending(s),
    ensures
        forall|i: int| 0 <= i < s.len() ==> #[trigger] map_of(s).contains_key(s[i].0) && map_of(s)[s[i].0] == s[i].1,
        forall|k: Seq<char>| #[trigger] map_of(s).contains_key(k) ==> has_key(s, k),
{
    assert forall|i: int| 0 <= i < s.len() implies #[trigger] map_of(s).contains_key(s[i].0) && map_of(s)[s[i].0] == s[i].1 by {
        lemma_ascending_entry(s, i);
    }
    assert forall|k: Seq<char>| #[trigger] map_of(s).contains_key(k) implies has_key(s, k) by {
        lemma_overlay_domain(Map::empty(), s, k);
    }
}

proof fn lemma_map_of_drop_first<W>(s: Seq<(Seq<char>, W)>)
    requires
        keys_ascending(s),
        s.len() > 0,
    ensures
        keys_ascending(s.drop_first()),
        map_of(s.drop_first()) == map_of(s).remove(s[0].0),
{
    let t = s.drop_first();
    assert forall|i: int, j: int| 0 <= i < j < t.len() implies chars_lt(#[trigger] t[i].0, #[trigger] t[j].0) by {
        assert(t[i] == s[i + 1]);
        assert(t[j] == s[j + 1]);
    }
    lemma_map_of_ascending(s);
    lemma_map_of_ascending(t);
    assert forall|k: Seq<char>| #[trigger] map_of(t).contains_key(k) <==> map_of(s).remove(s[0].0).contains_key(k) by {
        if map_of(t).contains_key(k) {
            let i = choose|i: int| 0 <= i < t.len() && #[trigger] t[i].0 == k;
            assert(s[i + 1].0 == k);
            assert(chars_lt(s[0].0, s[i + 1].0));
            lemma_chars_lt_irreflexive(k);
        }
        if map_of(s).remove(s[0].0).contains_key(k) {
            let i = choose|i: int| 0 <= i < s.len() && #[trigger] s[i].0 == k;
            assert(i != 0);
            assert(t[i - 1].0 == k);
        }
    }
    assert forall|k: Seq<char>| #[trigger] map_of(t).contains_key(k) implies map_of(t)[k] == map_of(s).remove(s[0].0)[k] by {
        let i = choose|i: int| 0 <= i < t.len() && #[trigger] t[i].0 == k;
        assert(s[i + 1] == t[i]);
    }
    assert(map_of(t) =~= map_of(s).remove(s[0].0));
}

/// Two ascending sequences that describe the same map are the same sequence.
pub proof fn lemma_ascending_unique<W>(s: Seq<(Seq<char>, W)>, t: Seq<(Seq<char>, W)>)
    requires
        keys_ascending(s),
        keys_ascending(t),
        map_of(s) == map_of(t),
    ensures
        s == t,
    decreases s.len(),
{
    lemma_map_of_ascending(s);
    lemma_map_of_ascending(t);
    if s.len() == 0 || t.len() == 0 {
        if s.len() > 0 {
            assert(map_of(s).contains_key(s[0].0));
            let i = choose|i: int| 0 <= i < t.len() && #[trigger] t[i].0 == s[0].0;
        }
        if t.len() > 0 {
            assert(map_of(t).contains_key(t[0].0));
            let i = choose|i: int| 0 <= i < s.len() && #[trigger] s[i].0 == t[0].0;
        }
        assert(s =~= t);
    } else {
        // The first keys are both the least key of the map.
        assert(map_of(s).contains_key(t[0].0));
        assert(map_of(t).contains_key(s[0].0));
        let i = choose|i: int| 0 <= i < s.len() && #[trigger] s[i].0 == t[0].0;
        let j = choose|j: int| 0 <= j < t.len() && #[trigger] t[j].0 == s[0].0;
        if s[0].0 != t[0].0 {
            assert(i > 0 && j > 0);
            assert(chars_lt(s[0].0, s[i].0));
            assert(chars_lt(t[0].0, t[j].0));
            lemma_chars_lt_asymmetric(s[0].0, t[0].0);
        }
        assert(s[0].1 == map_of(s)[s[0].0]);
        assert(t[0].1 == map_of(t)[t[0].0]);
        lemma_map_of_drop_first(s);
        lemma_map_of_drop_first(t);
        lemma_ascending_unique(s.drop_first(), t.drop_first());
        assert(s =~= seq![s[0]] + s.drop_first());
        assert(t =~= seq![t[0]] + t.drop_first());
    }
}

/// An ascending sequence is the ascending entry list of its own map.
pub proof fn lemma_ascending_entries_of<W>(s: Seq<(Seq<char>, W)>)
    requires
        keys_ascending(s),
    ensures
        ascending_entries(map_of(s)) == s,
{
    let t = ascending_entries(map_of(s));
    assert(keys_ascending(t) && map_of(t) == map_of(s));
    lemma_ascending_unique(s, t);
}

/// The characters of each entry's key paired with the view of its value.
pub open spec fn entry_views<V: View>(entries: Seq<(String, V)>) -> Seq<(Seq<char>, V::V)> {
    entries.map_values(|e: (String, V)| (e.0@, e.1@))
}

/// A string-keyed map kept in ascending key order.
#[derive(Debug, PartialEq, Eq)]
pub struct KeyMap<V: View> {
    entries: Vec<(String, V)>,
}

impl<V: View> View for KeyMap<V> {
    type V = Map<Seq<char>, V::V>;

    open spec fn view(&self) -> Map<Seq<char>, V::V> {
        map_of(self.pairs())
    }
}

impl<V: View> KeyMap<V> {
    /// The entries as key characters and value views, in stored order.
    pub closed spec fn pairs(&self) -> Seq<(Seq<char>, V::V)> {
        entry_views(self.entries@)
    }

    #[verifier::type_invariant]
    closed spec fn ascending(&self) -> bool {
        keys_ascending(self.pairs())
    }

    pub fn new() -> (m: Self)
        ensures
            m@ == Map::<Seq<char>, V::V>::empty(),
            m.pairs().len() == 0,
    {
        let m = KeyMap { entries: Vec::new() };
        assert(m.pairs() =~= Seq::<(Seq<char>, V::V)>::empty());
        m
    }

    pub fn len(&self) -> (n: usize)
        ensures
            n == self@.dom().len(),
            n == self.pairs().len(),
    {
        proof {
            use_type_invariant(self);
            lemma_ascending_dom_len(self.pairs());
        }
        self.entries.len()
    }

    /// The entries in ascending key order.
    pub fn entries(&self) -> (r: &Vec<(String, V)>)
        ensures
            entry_views(r@) == self.pairs(),
            keys_ascending(self.pairs()),
            self.pairs() == ascending_entries(self@),
    {
        proof {
            use_type_invariant(self);
            lemma_ascending_entries_of(self.pairs());
        }
        &self.entries
    }

    /// The keys in ascending order.
    pub fn keys(&self) -> (r: Vec<String>)
        ensures
            r@.len() == self.pairs().len(),
            forall|i: int| 0 <= i < r@.len() ==> #[trigger] r@[i]@ == self.pairs()[i].0,
            keys_ascending(self.pairs()),
    {
        proof {
            use_type_invariant(self);
        }
        let mut names: Vec<String> = Vec::new();
        let mut i: usize = 0;
        while i < self.entries.len()
            invariant
                i <= self.entries@.len(),
                names@.len() == i,
                forall|j: int| 0 <= j < i ==> #[trigger] names@[j]@ == self.pairs()[j].0,
            decreases self.entries.len() - i,
        {
            names.push(self.entries[i].0.clone());
            i = i + 1;
        }
        names
    }

    /// The entries in ascending key order, taking them out of the map.
    pub fn into_entries(self) -> (r: Vec<(String, V)>)
        ensures
            entry_views(r@) == ascending_entries(self@),
            keys_ascending(entry_views(r@)),
            map_of(entry_views(r@)) == self@,
    {
        proof {
            use_type_invariant(&self);
            lemma_ascending_entries_of(self.pairs());
        }
        self.entries
    }

    /// The position of `key`, or of the first entry whose key is greater.
    fn position(&self, key: &Vec<char>) -> (r: (usize, bool))
        ensures
            r.0 <= self.pairs().len(),
            forall|i: int| 0 <= i < r.0 ==> chars_lt(#[trigger] self.pairs()[i].0, key@),
            r.1 <==> (r.0 < self.pairs().len() && self.pairs()[r.0 as int].0 == key@),
            !r.1 ==> forall|i: int| r.0 <= i < self.pairs().len() ==> chars_lt(key@, #[trigger] self.pairs()[i].0),
    {
        proof {
            use_type_invariant(self);
        }
        let n = self.entries.len();
        let mut i: usize = 0;
        while i < n
            invariant
                n == self.entries@.len(),
                n == self.pairs().len(),
                i <= n,
                keys_ascending(self.pairs()),
                forall|j: int| 0 <= j < i ==> chars_lt(#[trigger] self.pairs()[j].0, key@),
            decreases n - i,
        {
            let k = to_chars(self.entries[i].0.as_str());
            assert(k@ == self.pairs()[i as int].0);
            match compare_chars(&k, key) {
                KeyOrder::Less => {},
                KeyOrder::Equal => {
                    return (i, true);
                },
                KeyOrder::Greater => {
                    proof {
                        assert forall|j: int| i <= j < self.pairs().len() implies chars_lt(key@, #[trigger] self.pairs()[j].0) by {
                            if j > i {
                                lemma_chars_lt_transitive(key@, self.pairs()[i as int].0, self.pairs()[j].0);
                            }
                        }
                    }
                    return (i, false);
                },
            }
            i = i + 1;
        }
        (i, false)
    }

    /// The value stored under `key`, if any.
    pub fn get(&self, key: &str) -> (r: Option<&V>)
        ensures
            match r {
                Some(v) => self@.contains_key(key@) && v@ == self@[key@],
                None => !self@.contains_key(key@),
            },
    {
        proof {
            use_type_invariant(self);
            lemma_map_of_ascending(self.pairs());
        }
        let k = to_chars(key);
        let (p, found) = self.position(&k);
        if found {
            assert(map_of(self.pairs()).contains_key(self.pairs()[p as int].0));
            Some(&self.entries[p].1)
        } else {
            proof {
                if self@.contains_key(key@) {
                    let i = choose|i: int| 0 <= i < self.pairs().len() && #[trigger] self.pairs()[i].0 == key@;
                    if i < p {
                        lemma_chars_lt_irreflexive(key@);
                    } else {
                        lemma_chars_lt_irreflexive(key@);
                    }
                }
            }
            None
        }
    }

    /// Stores `value` under `key`, replacing any earlier value.
    pub fn insert(&mut self, key: String, value: V)
        ensures
            final(self)@ == old(self)@.insert(key@, value@),
    {
        proof {
            use_type_invariant(&*self);
        }
        let k = to_chars(key.as_str());
        let (p, found) = self.position(&k);
        let ghost old_pairs = self.pairs();
        let ghost kv = (key@, value@);
        let mut entries: Vec<(String, V)> = Vec::new();
        std::mem::swap(&mut entries, &mut self.entries);
        if found {
            entries.set(p, (key, value));
            proof {
                assert(entry_views(entries@) =~= old_pairs.update(p as int, kv));
                lemma_update_ascending(old_pairs, p as int, kv);
                lemma_update_map(old_pairs, p as int, kv);
            }
            self.entries = entries;
        } else {
            entries.insert(p, (key, value));
            proof {
                assert(entry_views(entries@) =~= old_pairs.insert(p as int, kv));
                lemma_insert_ascending(old_pairs, p as int, kv);
                lemma_insert_map(old_pairs, p as int, kv);
            }
            self.entries = entries;
        }
    }

    /// Removes `key` if present.
    pub fn remove(&mut self, key: &str)
        ensures
            final(self)@ == old(self)@.remove(key@),
    {
        proof {
            use_type_invariant(&*self);
            lemma_map_of_ascending(self.pairs());
        }
        let k = to_chars(key);
        let (p, found) = self.position(&k);
        let ghost old_pairs = self.pairs();
        if found {
            let mut entries: Vec<(String, V)> = Vec::new();
            std::mem::swap(&mut entries, &mut self.entries);
            entries.remove(p);
            proof {
                assert(entry_views(entries@) =~= old_pairs.remove(p as int));
                lemma_remove_ascending(old_pairs, p as int);
            }
            self.entries = entries;
        } else {
            proof {
                assert forall|kk: Seq<char>| #[trigger] old_pairs.len() >= 0 && map_of(old_pairs).contains_key(kk) implies kk != key@ by {
                    let i = choose|i: int| 0 <= i < old_pairs.len() && #[trigger] old_pairs[i].0 == kk;
                    if kk == key@ {
                        lemma_chars_lt_irreflexive(key@);
                    }
                }
                assert(map_of(old_pairs).remove(key@) =~= map_of(old_pairs));
            }
        }
    }
}

proof fn lemma_ascending_dom_len<W>(s: Seq<(Seq<char>, W)>)
    requires
        keys_ascending(s),
    ensures
        map_of(s).dom().finite(),
        map_of(s).dom().len() == s.len(),
    decreases s.len(),
{
    if s.len() == 0 {
        assert(map_of(s).dom() =~= Set::<Seq<char>>::empty());
    } else {
        lemma_map_of_drop_first(s);
        lemma_ascending_dom_len(s.drop_first());
        lemma_map_of_ascending(s);
        assert(map_of(s).dom() =~= map_of(s.drop_first()).dom().insert(s[0].0));
        lemma_map_of_ascending(s.drop_first());
        if map_of(s.drop_first()).contains_key(s[0].0) {
            let i = choose|i: int| 0 <= i < s.drop_first().len() && #[trigger] s.drop_first()[i].0 == s[0].0;
            assert(s[i + 1].0 == s[0].0);
            assert(chars_lt(s[0].0, s[i + 1].0));
            lemma_chars_lt_irreflexive(s[0].0);
        }
    }
}

proof fn lemma_update_ascending<W>(s: Seq<(Seq<char>, W)>, p: int, kv: (Seq<char>, W))
    requires
        keys_ascending(s),
        0 <= p < s.len(),
        s[p].0 == kv.0,
    ensures
        keys_ascending(s.update(p, kv)),
{
    let t = s.update(p, kv);
    assert forall|i: int, j: int| 0 <= i < j < t.len() implies chars_lt(#[trigger] t[i].0, #[trigger] t[j].0) by {
        assert(chars_lt(s[i].0, s[j].0));
    }
}

proof fn lemma_update_map<W>(s: Seq<(Seq<char>, W)>, p: int, kv: (Seq<char>, W))
    requires
        keys_ascending(s),
        0 <= p < s.len(),
        s[p].0 == kv.0,
    ensures
        map_of(s.update(p, kv)) == map_of(s).insert(kv.0, kv.1),
{
    let t = s.update(p, kv);
    lemma_update_ascending(s, p, kv);
    lemma_map_of_ascending(s);
    lemma_map_of_ascending(t);
    assert forall|k: Seq<char>| #[trigger] map_of(t).contains_key(k) <==> map_of(s).insert(kv.0, kv.1).contains_key(k) by {
        if map_of(t).contains_key(k) {
            let i = choose|i: int| 0 <= i < t.len() && #[trigger] t[i].0 == k;
            assert(s[i].0 == k);
        }
        if map_of(s).contains_key(k) {
            let i = choose|i: int| 0 <= i < s.len() && #[trigger] s[i].0 == k;
            assert(t[i].0 == k);
        }
        if k == kv.0 {
            assert(t[p].0 == k);
        }
    }
    assert forall|k: Seq<char>| #[trigger] map_of(t).contains_key(k) implies map_of(t)[k] == map_of(s).insert(kv.0, kv.1)[k] by {
        let i = choose|i: int| 0 <= i < t.len() && #[trigger] t[i].0 == k;
        assert(map_of(t).contains_key(t[i].0));
        if i != p {
            assert(s[i] == t[i]);
            if i < p {
                assert(chars_lt(s[i].0, s[p].0));
            } else {
                assert(chars_lt(s[p].0, s[i].0));
            }
            lemma_chars_lt_irreflexive(k);
            assert(map_of(s).contains_key(s[i].0));
        } else {
            assert(t[p] == kv);
        }
    }
    assert(map_of(t) =~= map_of(s).insert(kv.0, kv.1));
}

proof fn lemma_insert_ascending<W>(s: Seq<(Seq<char>, W)>, p: int, kv: (Seq<char>, W))
    requires
        keys_ascending(s),
        0 <= p <= s.len(),
        forall|i: int| 0 <= i < p ==> chars_lt(#[trigger] s[i].0, kv.0),
        forall|i: int| p <= i < s.len() ==> chars_lt(kv.0, #[trigger] s[i].0),
    ensures
        keys_ascending(s.insert(p, kv)),
{
    let t = s.insert(p, kv);
    assert forall|i: int, j: int| 0 <= i < j < t.len() implies chars_lt(#[trigger] t[i].0, #[trigger] t[j].0) by {
        if i < p && j < p {
            assert(chars_lt(s[i].0, s[j].0));
        } else if i < p && j == p {
        } else if i < p {
            assert(t[j] == s[j - 1]);
            assert(chars_lt(s[i].0, s[j - 1].0));
        } else if i == p {
            assert(t[j] == s[j - 1]);
        } else {
            assert(t[i] == s[i - 1]);
            assert(t[j] == s[j - 1]);
            assert(chars_lt(s[i - 1].0, s[j - 1].0));
        }
    }
}

proof fn lemma_insert_map<W>(s: Seq<(Seq<char>, W)>, p: int, kv: (Seq<char>, W))
    requires
        keys_ascending(s),
        0 <= p <= s.len(),
        forall|i: int| 0 <= i < p ==> chars_lt(#[trigger] s[i].0, kv.0),
        forall|i: int| p <= i < s.len() ==> chars_lt(kv.0, #[trigger] s[i].0),
    ensures
        map_of(s.insert(p, kv)) == map_of(s).insert(kv.0, kv.1),
{
    let t = s.insert(p, kv);
    lemma_insert_ascending(s, p, kv);
    lemma_map_of_ascending(s);
    lemma_map_of_ascending(t);
    assert forall|k: Seq<char>| #[trigger] map_of(t).contains_key(k) <==> map_of(s).insert(kv.0, kv.1).contains_key(k) by {
        if map_of(t).contains_key(k) {
            let i = choose|i: int| 0 <= i < t.len() && #[trigger] t[i].0 == k;
            if i < p {
                assert(s[i].0 == k);
            } else if i > p {
                assert(s[i - 1].0 == k);
            }
        }
        if map_of(s).contains_key(k) {
            let i = choose|i: int| 0 <= i < s.len() && #[trigger] s[i].0 == k;
            if i < p {
                assert(t[i].0 == k);
            } else {
                assert(t[i + 1].0 == k);
            }
        }
        if k == kv.0 {
            assert(t[p].0 == k);
        }
    }
    assert forall|k: Seq<char>| #[trigger] map_of(t).contains_key(k) implies map_of(t)[k] == map_of(s).insert(kv.0, kv.1)[k] by {
        let i = choose|i: int| 0 <= i < t.len() && #[trigger] t[i].0 == k;
        assert(map_of(t).contains_key(t[i].0));
        if i < p {
            assert(t[i] == s[i]);
            assert(chars_lt(s[i].0, kv.0));
            lemma_chars_lt_irreflexive(k);
            assert(k != kv.0);
            assert(map_of(s).contains_key(s[i].0));
        } else if i > p {
            assert(t[i] == s[i - 1]);
            assert(chars_lt(kv.0, s[i - 1].0));
            lemma_chars_lt_irreflexive(k);
            assert(k != kv.0);
            assert(map_of(s).contains_key(s[i - 1].0));
        } else {
            assert(t[i] == kv);
        }
    }
    assert(map_of(t) =~= map_of(s).insert(kv.0, kv.1));
}

proof fn lemma_remove_ascending<W>(s: Seq<(Seq<char>, W)>, p: int)
    requires
        keys_ascending(s),
        0 <= p < s.len(),
    ensures
        keys_ascending(s.remove(p)),
        map_of(s.remove(p)) == map_of(s).remove(s[p].0),
{
    let t = s.remove(p);
    assert forall|i: int, j: int| 0 <= i < j < t.len() implies chars_lt(#[trigger] t[i].0, #[trigger] t[j].0) by {
        let si = if i < p { i } else { i + 1 };
        let sj = if j < p { j } else { j + 1 };
        assert(t[i] == s[si]);
        assert(t[j] == s[sj]);
        assert(chars_lt(s[si].0, s[sj].0));
    }
    lemma_map_of_ascending(s);
    lemma_map_of_ascending(t);
    assert forall|k: Seq<char>| #[trigger] map_of(t).contains_key(k) <==> map_of(s).remove(s[p].0).contains_key(k) by {
        if map_of(t).contains_key(k) {
            let i = choose|i: int| 0 <= i < t.len() && #[trigger] t[i].0 == k;
            let si = if i < p { i } else { i + 1 };
            assert(s[si].0 == k);
            assert(si != p);
            if k == s[p].0 {
                if si < p {
                    assert(chars_lt(s[si].0, s[p].0));
                } else {
                    assert(chars_lt(s[p].0, s[si].0));
                }
                lemma_chars_lt_irreflexive(k);
            }
        }
        if map_of(s).remove(s[p].0).contains_key(k) {
            let i = choose|i: int| 0 <= i < s.len() && #[trigger] s[i].0 == k;
            assert(i != p);
            if i < p {
                assert(t[i].0 == k);
            } else {
                assert(t[i - 1].0 == k);
            }
        }
    }
    assert forall|k: Seq<char>| #[trigger] map_of(t).contains_key(k) implies map_of(t)[k] == map_of(s).remove(s[p].0)[k] by {
        let i = choose|i: int| 0 <= i < t.len() && #[trigger] t[i].0 == k;
        let si = if i < p { i } else { i + 1 };
        assert(t[i] == s[si]);
    }
    assert(map_of(t) =~= map_of(s).remove(s[p].0));
}

} // verus!
