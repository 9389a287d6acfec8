//! Byte-level persistence of environments. A store knows nothing of JSON or
//! variables, so all the logic above it runs the same against any store.

use crate::error::{Error, KeychainError, Result};
use crate::keymap::{keys_ascending, lemma_map_of_ascending, map_of, KeyMap};
use crate::text::chars_lt;
use vstd::prelude::*;
use vstd::string::StringExecFns;

verus! {

broadcast use vstd::string::group_string_axioms;

/// The characters of each string.
pub open spec fn string_views(names: Seq<String>) -> Seq<Seq<char>> {
    names.map_values(|s: String| s@)
}

/// Strictly ascending, hence also distinct.
pub open spec fn names_ascending(names: Seq<Seq<char>>) -> bool {
    forall|i: int, j: int| 0 <= i < j < names.len() ==> chars_lt(#[trigger] names[i], #[trigger] names[j])
}

/// The errors a store reports: a keychain failure or a failed system call.
pub open spec fn store_error(e: Error) -> bool {
    e is Keychain || e is Io
}

/// Byte-level persistence for environments, one item per environment name.
/// A store may fail on any call, reporting a `store_error`; a reliable one
/// never fails. A failed save or delete leaves the items as they were.
pub trait Store {
    /// The stored items, by environment name. A store that does not say
    /// what it holds is taken to hold something unknown.
    closed spec fn items(&self) -> Map<Seq<char>, Seq<u8>> {
        vstd::pervasive::arbitrary()
    }

    /// Whether every call succeeds. A store is not taken to be reliable
    /// unless it says so.
    open spec fn reliable(&self) -> bool {
        false
    }

    /// The bytes stored for `environment`, or `None` when there are none.
    fn load(&self, environment: &str) -> (res: Result<Option<Vec<u8>>>)
        ensures
            self.reliable() ==> res is Ok,
            res matches Err(e) ==> store_error(e),
            res matches Ok(found) ==> match found {
                Some(bytes) => self.items().contains_key(environment@) && self.items()[environment@]
                    == bytes@,
                None => !self.items().contains_key(environment@),
            },
    ;

    /// Replaces whatever is stored for `environment` with `data`.
    fn save(&mut self, environment: &str, data: &[u8]) -> (res: Result<()>)
        ensures
            old(self).reliable() ==> res is Ok,
            final(self).reliable() == old(self).reliable(),
            res is Ok ==> final(self).items() == old(self).items().insert(environment@, data@),
            res matches Err(e) ==> store_error(e) && final(self).items() == old(self).items(),
    ;

    /// Every environment that exists, sorted.
    fn environments(&self) -> (res: Result<Vec<String>>)
        ensures
            self.reliable() ==> res is Ok,
            res matches Err(e) ==> store_error(e),
            res matches Ok(names) ==> names_ascending(string_views(names@)) && forall|k: Seq<char>|
                self.items().contains_key(k) <==> #[trigger] string_views(names@).contains(k),
    ;

    /// Removes `environment`. Removing an environment that is not there
    /// succeeds, so callers need not check first.
    fn delete(&mut self, environment: &str) -> (res: Result<()>)
        ensures
            old(self).reliable() ==> res is Ok,
            final(self).reliable() == old(self).reliable(),
            res is Ok ==> final(self).items() == old(self).items().remove(environment@),
            res matches Err(e) ==> store_error(e) && final(self).items() == old(self).items(),
    ;
}

/// `names` lists the keys of `pairs` in order: ascending, and naming
/// exactly the keys of the map the pairs describe.
pub(crate) proof fn lemma_key_listing<W>(pairs: Seq<(Seq<char>, W)>, names: Seq<String>)
    requires
        keys_ascending(pairs),
        names.len() == pairs.len(),
        forall|i: int| 0 <= i < names.len() ==> #[trigger] names[i]@ == pairs[i].0,
    ensures
        names_ascending(string_views(names)),
        forall|k: Seq<char>| map_of(pairs).contains_key(k) <==> #[trigger] string_views(names).contains(k),
{
    let views = string_views(names);
    assert forall|a: int, b: int| 0 <= a < b < views.len() implies chars_lt(#[trigger] views[a], #[trigger] views[b]) by {
        assert(views[a] == pairs[a].0);
        assert(views[b] == pairs[b].0);
    }
    lemma_map_of_ascending(pairs);
    assert forall|k: Seq<char>| map_of(pairs).contains_key(k) <==> #[trigger] views.contains(k) by {
        if map_of(pairs).contains_key(k) {
            let j = choose|j: int| 0 <= j < pairs.len() && #[trigger] pairs[j].0 == k;
            assert(views[j] == k);
        }
        if views.contains(k) {
            let j = choose|j: int| 0 <= j < views.len() && views[j] == k;
            assert(pairs[j].0 == k);
            assert(map_of(pairs).contains_key(pairs[j].0));
        }
    }
}

/// The distinct names among `names`, in ascending order: what a store
/// whose own listing comes in no particular order reports.
pub fn sorted_names(names: &[String]) -> (r: Vec<String>)
    ensures
        names_ascending(string_views(r@)),
        forall|k: Seq<char>| #[trigger] string_views(r@).contains(k) <==> string_views(names@).contains(k),
{
    let mut set: KeyMap<()> = KeyMap::new();
    let ghost views = string_views(names@);
    let mut i: usize = 0;
    while i < names.len()
        invariant
            i <= names@.len(),
            views == string_views(names@),
            forall|k: Seq<char>| #[trigger] set@.contains_key(k) <==> views.take(i as int).contains(k),
        decreases names.len() - i,
    {
        set.insert(names[i].clone(), ());
        proof {
            assert forall|k: Seq<char>| #[trigger] set@.contains_key(k) <==> views.take(i + 1).contains(k) by {
                assert(views.take(i + 1) =~= views.take(i as int).push(views[i as int]));
                if views.take(i as int).contains(k) {
                    let j = choose|j: int| 0 <= j < i && views.take(i as int)[j] == k;
                    assert(views.take(i + 1)[j] == k);
                }
                if k == views[i as int] {
                    assert(views.take(i + 1)[i as int] == k);
                }
            }
        }
        i = i + 1;
    }
    assert(views.take(names@.len() as int) =~= views);
    let r = set.keys();
    proof {
        lemma_key_listing(set.pairs(), r@);
        assert forall|k: Seq<char>| #[trigger] string_views(r@).contains(k) <==> views.contains(k) by {
            assert(set@.contains_key(k) <==> views.take(names@.len() as int).contains(k));
        }
    }
    r
}

/// The status a keychain lookup reports for an item that is not there.
pub const ERR_SEC_ITEM_NOT_FOUND: i32 = -25300;

/// What a keychain lookup means to a store: the item, no item (the
/// not-found status is an answer, not a failure), or a keychain error.
pub fn found_or_absent<T>(outcome: std::result::Result<T, KeychainError>) -> (res: Result<Option<T>>)
    ensures
        match outcome {
            Ok(v) => res == Ok::<Option<T>, Error>(Some(v)),
            Err(e) => if e.code == ERR_SEC_ITEM_NOT_FOUND {
                res == Ok::<Option<T>, Error>(None)
            } else {
                res matches Err(r) && r matches Error::Keychain(k) && k == e
            },
        },
{
    match outcome {
        Ok(v) => Ok(Some(v)),
        Err(e) => {
            if e.code == ERR_SEC_ITEM_NOT_FOUND {
                Ok(None)
            } else {
                Err(Error::Keychain(e))
            }
        },
    }
}

/// A store held in memory, which never fails.
#[derive(Debug)]
pub struct MemStore {
    items: KeyMap<Vec<u8>>,
}

impl Default for MemStore {
    fn default() -> (s: Self)
        ensures
            s.items() == Map::<Seq<char>, Seq<u8>>::empty(),
            s.reliable(),
    {
        MemStore::new()
    }
}

impl MemStore {
    pub fn new() -> (s: Self)
        ensures
            s.items() == Map::<Seq<char>, Seq<u8>>::empty(),
            s.reliable(),
    {
        MemStore { items: KeyMap::new() }
    }
}

impl Store for MemStore {
    closed spec fn items(&self) -> Map<Seq<char>, Seq<u8>> {
        self.items@
    }

    open spec fn reliable(&self) -> bool {
        true
    }

    fn load(&self, environment: &str) -> (res: Result<Option<Vec<u8>>>) {
        match self.items.get(environment) {
            Some(bytes) => {
                let copy = bytes.clone();
                assert(copy@ =~= bytes@);
                Ok(Some(copy))
            },
            None => Ok(None),
        }
    }

    fn save(&mut self, environment: &str, data: &[u8]) -> (res: Result<()>) {
        let bytes = vstd::slice::slice_to_vec(data);
        self.items.insert(String::from_str(environment), bytes);
        Ok(())
    }

    fn environments(&self) -> (res: Result<Vec<String>>) {
        let names = self.items.keys();
        proof {
            lemma_key_listing(self.items.pairs(), names@);
        }
        Ok(names)
    }

    fn delete(&mut self, environment: &str) -> (res: Result<()>) {
        self.items.remove(environment);
        Ok(())
    }
}

/// After a successful save, loading that environment gives back exactly
/// the bytes saved, and every other environment is as it was.
pub proof fn law_load_after_save(items: Map<Seq<char>, Seq<u8>>, env: Seq<char>, data: Seq<u8>, other: Seq<char>)
    ensures
        items.insert(env, data).contains_key(env),
        items.insert(env, data)[env] == data,
        other != env ==> items.insert(env, data).contains_key(other) == items.contains_key(other),
        other != env && items.contains_key(other) ==> items.insert(env, data)[other] == items[other],
{
}

/// After a successful delete, that environment is gone and every other
/// environment is as it was; deleting an absent one changes nothing.
pub proof fn law_delete_removes_only_that(items: Map<Seq<char>, Seq<u8>>, env: Seq<char>, other: Seq<char>)
    ensures
        !items.remove(env).contains_key(env),
        other != env ==> items.remove(env).contains_key(other) == items.contains_key(other),
        other != env && items.contains_key(other) ==> items.remove(env)[other] == items[other],
        !items.contains_key(env) ==> items.remove(env) == items,
{
    if !items.contains_key(env) {
        assert(items.remove(env) =~= items);
    }
}

} // verus!
