//! The commands, written against `Store`: storing assignments, importing a
//! `.env` document, and working out what `exec` runs with which
//! environment.

use crate::dotenv::{parse, parse_doc};
use crate::envset::{json_decode_object, json_encode_object, pair_fault, valid_key, validate_key, EnvSet};
use crate::error::{Error, Result};
use crate::keymap::{ascending_entries, entry_views, keys_ascending, map_of, overlay, KeyMap};
use crate::store::{names_ascending, store_error, string_views, Store};
use crate::text::{contains_char, string_from_range, to_chars};
use vstd::prelude::*;
use vstd::string::StringExecFns;

verus! {

broadcast use vstd::string::group_string_axioms;

// ---------------------------------------------------------------------------
// Assignments and names.

/// The length of the leading run of characters that are not '='.
pub open spec fn eq_span(s: Seq<char>) -> nat
    decreases s.len(),
{
    if s.len() > 0 && s[0] != '=' {
        1 + eq_span(s.drop_first())
    } else {
        0
    }
}

/// `arg` split on its first '=' into key and value; no '=' means no value.
pub open spec fn split_assignment(arg: Seq<char>) -> (Seq<char>, Option<Seq<char>>) {
    let n = eq_span(arg);
    if n == arg.len() {
        (arg, None)
    } else {
        (arg.take(n as int), Some(arg.skip(n + 1int)))
    }
}

proof fn lemma_eq_span(s: Seq<char>)
    ensures
        eq_span(s) <= s.len(),
        forall|i: int| 0 <= i < eq_span(s) ==> #[trigger] s[i] != '=',
        eq_span(s) < s.len() ==> s[eq_span(s) as int] == '=',
    decreases s.len(),
{
    if s.len() > 0 && s[0] != '=' {
        lemma_eq_span(s.drop_first());
        assert forall|i: int| 0 <= i < eq_span(s) implies #[trigger] s[i] != '=' by {
            if i > 0 {
                assert(s[i] == s.drop_first()[i - 1]);
            }
        }
    }
}

/// Splits `KEY=VALUE` on the first '=' only, so values may contain '='.
/// An argument with no '=' yields `None`, meaning "prompt for this one".
pub fn parse_assignment(arg: &str) -> (r: (String, Option<String>))
    ensures
        r.0@ == split_assignment(arg@).0,
        match split_assignment(arg@).1 {
            Some(v) => r.1 matches Some(rv) && rv@ == v,
            None => r.1 is None,
        },
{
    let cs = to_chars(arg);
    let mut n: usize = 0;
    assert(cs@.skip(0) =~= cs@);
    while n < cs.len() && cs[n] != '='
        invariant
            n <= cs@.len(),
            eq_span(cs@) == n + eq_span(cs@.skip(n as int)),
        decreases cs.len() - n,
    {
        assert(cs@.skip(n as int).drop_first() =~= cs@.skip(n + 1));
        n = n + 1;
    }
    proof {
        if n < cs.len() {
            assert(cs@.skip(n as int)[0] == cs@[n as int]);
        }
        assert(cs@.skip(0) =~= cs@);
    }
    if n == cs.len() {
        assert(cs@.take(n as int) =~= cs@);
        (string_from_range(&cs, 0, n), None)
    } else {
        assert(cs@.take(n as int) =~= cs@.subrange(0, n as int));
        assert(cs@.skip(n + 1int) =~= cs@.subrange(n + 1, cs@.len() as int));
        (string_from_range(&cs, 0, n), Some(string_from_range(&cs, n + 1, cs.len())))
    }
}

/// Environment names are non-empty and free of NUL.
pub open spec fn valid_environment(name: Seq<char>) -> bool {
    name.len() > 0 && !name.contains('\0')
}

pub fn validate_environment(name: &str) -> (res: Result<()>)
    ensures
        res is Ok <==> valid_environment(name@),
        res matches Err(e) ==> e matches Error::InvalidEnvironmentName(n) && n@ == name@,
{
    let cs = to_chars(name);
    if cs.len() == 0 || contains_char(&cs, '\0') {
        return Err(Error::InvalidEnvironmentName(String::from_str(name)));
    }
    Ok(())
}

/// The environment to work on: the one named by the flag when it was given,
/// else the inherited one (`$KCV_ENV`); an empty name counts as none.
pub fn environment_name(flag: Option<String>, inherited: Option<String>) -> (res: Result<String>)
    ensures
        ({
            let chosen = if flag is Some { flag } else { inherited };
            match chosen {
                Some(n) => if n@.len() > 0 {
                    res == Ok::<String, Error>(n)
                } else {
                    res matches Err(e) && e is MissingEnvironment
                },
                None => res matches Err(e) && e is MissingEnvironment,
            }
        }),
{
    let chosen = match flag {
        Some(n) => Some(n),
        None => inherited,
    };
    match chosen {
        Some(n) => {
            if n.unicode_len() > 0 {
                Ok(n)
            } else {
                Err(Error::MissingEnvironment)
            }
        },
        None => Err(Error::MissingEnvironment),
    }
}

// ---------------------------------------------------------------------------
// Loading and writing an environment.

/// Nothing is stored for `env`, or what is stored decodes.
pub open spec fn stored_ok(items: Map<Seq<char>, Seq<u8>>, env: Seq<char>) -> bool {
    !items.contains_key(env) || json_decode_object(items[env]) is Some
}

/// The variables stored for `env`, empty when nothing is stored.
pub open spec fn stored_vars(items: Map<Seq<char>, Seq<u8>>, env: Seq<char>) -> Map<Seq<char>, Seq<char>> {
    if items.contains_key(env) && json_decode_object(items[env]) is Some {
        map_of(json_decode_object(items[env])->0)
    } else {
        Map::empty()
    }
}

/// `res` is what loading `env` from `items` gives: nothing, the decoded
/// set, or `CorruptItem` naming the environment.
pub open spec fn loaded_as(items: Map<Seq<char>, Seq<u8>>, env: Seq<char>, res: Result<Option<EnvSet>>) -> bool {
    if !items.contains_key(env) {
        res matches Ok(found) && found is None
    } else {
        match json_decode_object(items[env]) {
            Some(entries) => res matches Ok(found) && found matches Some(s) && s@ == map_of(entries),
            None => res matches Err(e) && e matches Error::CorruptItem(n) && n@ == env,
        }
    }
}

/// What a store's answer to a load means: a store error is passed on as it
/// is, no item is no environment, and an item is decoded, `CorruptItem`
/// naming the environment when it does not decode.
pub fn env_set_from_loaded(loaded: Result<Option<Vec<u8>>>, environment: &str) -> (res: Result<Option<EnvSet>>)
    ensures
        match loaded {
            Err(e) => res == Err::<Option<EnvSet>, Error>(e),
            Ok(None) => res matches Ok(found) && found is None,
            Ok(Some(bytes)) => match json_decode_object(bytes@) {
                Some(entries) => res matches Ok(found) && found matches Some(s) && s@ == map_of(entries),
                None => res matches Err(e) && e matches Error::CorruptItem(n) && n@ == environment@,
            },
        },
{
    match loaded {
        Err(e) => Err(e),
        Ok(None) => Ok(None),
        Ok(Some(bytes)) => match EnvSet::from_json(bytes.as_slice(), environment) {
            Ok(s) => Ok(Some(s)),
            Err(e) => Err(e),
        },
    }
}

/// Reads and parses an environment, or `Ok(None)` when it does not exist.
/// One load, and no save.
pub fn load_env_set<S: Store>(store: &S, environment: &str) -> (res: Result<Option<EnvSet>>)
    ensures
        store.reliable() ==> loaded_as(store.items(), environment@, res),
        res is Ok ==> loaded_as(store.items(), environment@, res),
        store.items().contains_key(environment@) && json_decode_object(store.items()[environment@]) is None
            ==> res is Err,
        res matches Err(e) ==> store_error(e) || (e matches Error::CorruptItem(n) && n@ == environment@
            && store.items().contains_key(environment@) && json_decode_object(store.items()[environment@])
            is None),
{
    env_set_from_loaded(store.load(environment), environment)
}

/// The first pair, in order, that `EnvSet::insert` refuses, as its report.
pub open spec fn pairs_fault(pairs: Seq<(Seq<char>, Seq<char>)>) -> Option<Seq<char>>
    decreases pairs.len(),
{
    if pairs.len() == 0 {
        None
    } else {
        match pair_fault(pairs[0].0, pairs[0].1) {
            Some(t) => Some(t),
            None => pairs_fault(pairs.drop_first()),
        }
    }
}

/// `after` is `before` with `env` holding the JSON of the variables stored
/// there updated by `pairs`, later pairs winning.
pub open spec fn merged_into(
    before: Map<Seq<char>, Seq<u8>>,
    after: Map<Seq<char>, Seq<u8>>,
    env: Seq<char>,
    pairs: Seq<(Seq<char>, Seq<char>)>,
) -> bool {
    &&& stored_ok(before, env)
    &&& pairs_fault(pairs) is None
    &&& after == before.insert(
        env,
        json_encode_object(ascending_entries(overlay(stored_vars(before, env), pairs))),
    )
    &&& json_decode_object(after[env]) == Some(ascending_entries(overlay(stored_vars(before, env), pairs)))
    &&& stored_vars(after, env) == overlay(stored_vars(before, env), pairs)
}

/// `e` is an error that writing `pairs` into `env` can end with: the
/// store's own, a stored item that does not decode, or the first pair that
/// is refused.
pub open spec fn write_failure(
    items: Map<Seq<char>, Seq<u8>>,
    env: Seq<char>,
    pairs: Seq<(Seq<char>, Seq<char>)>,
    e: Error,
) -> bool {
    ||| store_error(e)
    ||| !stored_ok(items, env) && (e matches Error::CorruptItem(n) && n@ == env)
    ||| stored_ok(items, env) && pairs_fault(pairs) is Some && (e matches Error::InvalidKey(k) && k@
        == pairs_fault(pairs)->0)
}

proof fn lemma_pairs_fault_step(pairs: Seq<(Seq<char>, Seq<char>)>, i: int)
    requires
        0 <= i < pairs.len(),
        pairs_fault(pairs) == pairs_fault(pairs.skip(i)),
    ensures
        pair_fault(pairs[i].0, pairs[i].1) is None ==> pairs_fault(pairs) == pairs_fault(pairs.skip(i + 1)),
        pair_fault(pairs[i].0, pairs[i].1) is Some ==> pairs_fault(pairs) == pair_fault(pairs[i].0, pairs[i].1),
{
    assert(pairs.skip(i)[0] == pairs[i]);
    assert(pairs.skip(i).drop_first() =~= pairs.skip(i + 1));
}

/// Loads `environment`, writes `pairs` into it in order, and saves it: one
/// load and one save. Nothing is saved unless every pair is accepted.
fn write_pairs<S: Store>(store: &mut S, environment: &str, pairs: &Vec<(String, String)>) -> (res: Result<()>)
    ensures
        final(store).reliable() == old(store).reliable(),
        res is Ok ==> merged_into(old(store).items(), final(store).items(), environment@, entry_views(pairs@)),
        old(store).reliable() && res is Err ==> final(store).items() == old(store).items(),
        res is Err ==> final(store).items() == old(store).items(),
        res matches Err(e) ==> write_failure(old(store).items(), environment@, entry_views(pairs@), e),
        final(store).items() != old(store).items() ==> stored_ok(old(store).items(), environment@) && pairs_fault(
            entry_views(pairs@),
        ) is None,
        old(store).reliable() && stored_ok(old(store).items(), environment@) && pairs_fault(
            entry_views(pairs@),
        ) is None ==> res is Ok,
        old(store).reliable() && !stored_ok(old(store).items(), environment@) ==> (res matches Err(e)
            && e matches Error::CorruptItem(n) && n@ == environment@),
        old(store).reliable() && !stored_ok(old(store).items(), environment@) ==> final(store).items() == old(
            store,
        ).items(),
        old(store).reliable() && stored_ok(old(store).items(), environment@) && pairs_fault(
            entry_views(pairs@),
        ) is Some ==> (res matches Err(e) && e matches Error::InvalidKey(k) && k@ == pairs_fault(
            entry_views(pairs@),
        )->0) && final(store).items() == old(store).items(),
{
    let loaded = load_env_set(&*store, environment);
    let ghost items = store.items();
    let mut env_set = match loaded {
        Ok(Some(s)) => s,
        Ok(None) => EnvSet::new(),
        Err(e) => {
            return Err(e);
        },
    };
    let ghost views = entry_views(pairs@);
    let ghost base = env_set@;
    assert(base == stored_vars(items, environment@));
    assert(pairs_fault(views) == pairs_fault(views.skip(0))) by {
        assert(views.skip(0) =~= views);
    }
    let mut i: usize = 0;
    while i < pairs.len()
        invariant
            i <= pairs@.len(),
            views == entry_views(pairs@),
            env_set@ == overlay(base, views.take(i as int)),
            pairs_fault(views) == pairs_fault(views.skip(i as int)),
            items == store.items(),
            items == old(store).items(),
            stored_ok(items, environment@),
        decreases pairs.len() - i,
    {
        proof {
            lemma_pairs_fault_step(views, i as int);
        }
        match env_set.insert(pairs[i].0.as_str(), pairs[i].1.as_str()) {
            Ok(()) => {},
            Err(e) => {
                return Err(e);
            },
        }
        assert(views.take(i + 1).drop_last() =~= views.take(i as int));
        i = i + 1;
    }
    assert(views.take(pairs@.len() as int) =~= views);
    assert(views.skip(pairs@.len() as int) =~= Seq::<(Seq<char>, Seq<char>)>::empty());
    let bytes = env_set.to_json();
    store.save(environment, bytes.as_slice())
}

// ---------------------------------------------------------------------------
// set

/// The key that an assignment names.
pub open spec fn arg_key(arg: Seq<char>) -> Seq<char> {
    split_assignment(arg).0
}

/// Whether the assignment carries its value, as opposed to a bare key.
pub open spec fn has_value(arg: Seq<char>) -> bool {
    split_assignment(arg).1 is Some
}

/// The assignment at `j` is the first whose key is not a valid name.
pub open spec fn first_bad_key(args: Seq<Seq<char>>, j: int) -> bool {
    &&& 0 <= j < args.len()
    &&& !valid_key(arg_key(args[j]))
    &&& forall|i: int| 0 <= i < j ==> valid_key(#[trigger] arg_key(args[i]))
}

pub open spec fn keys_valid(args: Seq<Seq<char>>) -> bool {
    forall|i: int| 0 <= i < args.len() ==> valid_key(#[trigger] arg_key(args[i]))
}

pub open spec fn all_have_values(args: Seq<Seq<char>>) -> bool {
    forall|i: int| 0 <= i < args.len() ==> has_value(#[trigger] args[i])
}

/// The pairs that assignments carrying their values name.
pub open spec fn given_pairs(args: Seq<Seq<char>>) -> Seq<(Seq<char>, Seq<char>)> {
    Seq::new(args.len(), |i: int| (arg_key(args[i]), split_assignment(args[i]).1->0))
}

/// `vals` are the values of the assignments: the value given after '=', or
/// for a bare key one that `read_secret`, called with the assignment's
/// index, returned.
pub open spec fn resolved_by<F: Fn(usize) -> Result<String>>(read_secret: F, args: Seq<Seq<char>>, vals: Seq<String>) -> bool {
    &&& vals.len() == args.len()
    &&& forall|i: int| 0 <= i < args.len() ==> match split_assignment(#[trigger] args[i]).1 {
        Some(v) => vals[i]@ == v,
        None => call_ensures(read_secret, (i as usize,), Ok::<String, Error>(vals[i])),
    }
}

/// `e` is an error that `set` can end with: a bad environment name, the
/// first bad key, an error `read_secret` returned for a bare key, or a
/// failure writing the resolved pairs.
pub open spec fn set_failure<F: Fn(usize) -> Result<String>>(
    read_secret: F,
    items: Map<Seq<char>, Seq<u8>>,
    env: Seq<char>,
    args: Seq<Seq<char>>,
    e: Error,
) -> bool {
    ||| !valid_environment(env) && (e matches Error::InvalidEnvironmentName(n) && n@ == env)
    ||| valid_environment(env) && exists|j: int| #[trigger] first_bad_key(args, j) && (e matches Error::InvalidKey(k)
        && k@ == arg_key(args[j]))
    ||| valid_environment(env) && exists|i: int|
        0 <= i < args.len() && !#[trigger] has_value(args[i]) && call_ensures(
            read_secret,
            (i as usize,),
            Err::<String, Error>(e),
        )
    ||| valid_environment(env) && keys_valid(args) && exists|vals: Seq<String>|
        resolved_by(read_secret, args, vals) && write_failure(items, env, #[trigger] resolved_pairs(args, vals), e)
}

/// The assignments' keys paired with `vals`.
pub open spec fn resolved_pairs(args: Seq<Seq<char>>, vals: Seq<String>) -> Seq<(Seq<char>, Seq<char>)> {
    Seq::new(args.len(), |i: int| (arg_key(args[i]), vals[i]@))
}

/// Merges assignments into an environment and returns how many keys were
/// written. A single load and a single save keeps this to one authorization.
///
/// A bare key (no '=') takes its value from `read_secret`, called with the
/// assignment's index; reading it is the caller's I/O. Every assignment is
/// resolved before the store is touched, so a bad key or a failed read
/// cannot leave a half-applied write behind.
pub fn set<S: Store, F: Fn(usize) -> Result<String>>(
    store: &mut S,
    environment: &str,
    assignments: &[String],
    read_secret: F,
) -> (res: Result<usize>)
    requires
        forall|i: usize| call_requires(read_secret, (i,)),
    ensures
        final(store).reliable() == old(store).reliable(),
        old(store).reliable() && res is Err ==> final(store).items() == old(store).items(),
        res is Err ==> final(store).items() == old(store).items(),
        res matches Err(e) ==> set_failure(read_secret, old(store).items(), environment@, string_views(assignments@), e),
        final(store).items() != old(store).items() ==> {
            &&& valid_environment(environment@)
            &&& keys_valid(string_views(assignments@))
            &&& stored_ok(old(store).items(), environment@)
            &&& exists|vals: Seq<String>|
                resolved_by(read_secret, string_views(assignments@), vals) && pairs_fault(
                    #[trigger] resolved_pairs(string_views(assignments@), vals),
                ) is None
        },
        valid_environment(environment@) && keys_valid(string_views(assignments@)) && old(store).reliable()
            && stored_ok(old(store).items(), environment@) ==> match res {
            Ok(_) => true,
            Err(e) => e is InvalidKey || exists|i: int|
                0 <= i < assignments@.len() && !#[trigger] has_value(string_views(assignments@)[i])
                    && call_ensures(read_secret, (i as usize,), Err::<String, Error>(e)),
        },
        !valid_environment(environment@) ==> (res matches Err(e) && e matches Error::InvalidEnvironmentName(n)
            && n@ == environment@) && final(store).items() == old(store).items(),
        !keys_valid(string_views(assignments@)) ==> res is Err && final(store).items() == old(store).items(),
        forall|j: int|
            valid_environment(environment@) && #[trigger] first_bad_key(string_views(assignments@), j)
                && (forall|i: int| 0 <= i < j ==> has_value(#[trigger] string_views(assignments@)[i]))
                ==> (res matches Err(e) && e matches Error::InvalidKey(k) && k@ == arg_key(
                string_views(assignments@)[j],
            )),
        res matches Ok(n) ==> n == assignments@.len() && exists|vals: Seq<String>|
            resolved_by(read_secret, string_views(assignments@), vals) && merged_into(
                old(store).items(),
                final(store).items(),
                environment@,
                resolved_pairs(string_views(assignments@), vals),
            ),
        valid_environment(environment@) && keys_valid(string_views(assignments@)) && all_have_values(
            string_views(assignments@),
        ) && old(store).reliable() ==> {
            let pairs = given_pairs(string_views(assignments@));
            let items = old(store).items();
            &&& stored_ok(items, environment@) && pairs_fault(pairs) is None ==> res == Ok::<usize, Error>(
                assignments@.len() as usize,
            ) && merged_into(items, final(store).items(), environment@, pairs)
            &&& !stored_ok(items, environment@) ==> (res matches Err(e) && e matches Error::CorruptItem(n)
                && n@ == environment@) && final(store).items() == items
            &&& stored_ok(items, environment@) && pairs_fault(pairs) is Some ==> (res matches Err(e)
                && e matches Error::InvalidKey(k) && k@ == pairs_fault(pairs)->0) && final(store).items()
                == items
        },
{
    validate_environment(environment)?;
    let ghost args = string_views(assignments@);
    let mut resolved: Vec<(String, String)> = Vec::new();
    let mut i: usize = 0;
    while i < assignments.len()
        invariant
            i <= assignments@.len(),
            args == string_views(assignments@),
            valid_environment(environment@),
            forall|j: usize| call_requires(read_secret, (j,)),
            resolved@.len() == i,
            forall|k: int| 0 <= k < i ==> valid_key(#[trigger] arg_key(args[k])),
            forall|k: int| 0 <= k < i ==> #[trigger] resolved@[k].0@ == arg_key(args[k]),
            forall|k: int| 0 <= k < i ==> match split_assignment(#[trigger] args[k]).1 {
                Some(v) => resolved@[k].1@ == v,
                None => call_ensures(read_secret, (k as usize,), Ok::<String, Error>(resolved@[k].1)),
            },
            store.items() == old(store).items(),
            store.reliable() == old(store).reliable(),
        decreases assignments.len() - i,
    {
        assert(args[i as int] == assignments@[i as int]@);
        let (key, value) = parse_assignment(assignments[i].as_str());
        match validate_key(key.as_str()) {
            Ok(()) => {},
            Err(e) => {
                assert(first_bad_key(args, i as int));
                return Err(e);
            },
        }
        let value = match value {
            Some(v) => v,
            None => {
                match read_secret(i) {
                    Ok(v) => v,
                    Err(e) => {
                        proof {
                            assert(!has_value(args[i as int]));
                            assert((i as int) as usize == i);
                        }
                        return Err(e);
                    },
                }
            },
        };
        resolved.push((key, value));
        i = i + 1;
    }
    let ghost vals = resolved@.map_values(|p: (String, String)| p.1);
    proof {
        assert(resolved_pairs(args, vals) =~= entry_views(resolved@));
        if all_have_values(args) {
            assert(given_pairs(args) =~= entry_views(resolved@)) by {
                assert forall|k: int| 0 <= k < args.len() implies #[trigger] given_pairs(args)[k] == entry_views(resolved@)[k] by {
                    assert(has_value(args[k]));
                }
            }
        }
        assert(resolved_by(read_secret, args, vals));
    }
    write_pairs(store, environment, &resolved)?;
    Ok(resolved.len())
}

// ---------------------------------------------------------------------------
// list

/// `e` is an error that reading `env` for use can end with: the store's
/// own, no such environment, or an item that does not decode.
pub open spec fn read_failure(items: Map<Seq<char>, Seq<u8>>, env: Seq<char>, e: Error) -> bool {
    ||| store_error(e)
    ||| !items.contains_key(env) && (e matches Error::EnvironmentNotFound(n) && n@ == env)
    ||| items.contains_key(env) && json_decode_object(items[env]) is None && (e matches Error::CorruptItem(n)
        && n@ == env)
}

/// The names of the variables in `vars`, in ascending order.
pub open spec fn var_names(vars: Map<Seq<char>, Seq<char>>) -> Seq<Seq<char>> {
    ascending_entries(vars).map_values(|p: (Seq<char>, Seq<char>)| p.0)
}

/// The names of an environment's variables, sorted; values are not read
/// out. A missing environment is an error rather than an empty list.
pub fn list<S: Store>(store: &S, environment: &str) -> (res: Result<Vec<String>>)
    ensures
        !valid_environment(environment@) ==> (res matches Err(e) && e matches Error::InvalidEnvironmentName(n)
            && n@ == environment@),
        res matches Err(e) ==> !valid_environment(environment@) || read_failure(store.items(), environment@, e),
        res matches Ok(names) ==> {
            &&& valid_environment(environment@)
            &&& store.items().contains_key(environment@)
            &&& json_decode_object(store.items()[environment@]) is Some
            &&& names_ascending(string_views(names@))
            &&& forall|k: Seq<char>| #[trigger] string_views(names@).contains(k) <==> stored_vars(
                store.items(),
                environment@,
            ).contains_key(k)
            &&& string_views(names@) == var_names(stored_vars(store.items(), environment@))
        },
        store.reliable() && valid_environment(environment@) ==> {
            let items = store.items();
            &&& !items.contains_key(environment@) ==> (res matches Err(e) && e matches Error::EnvironmentNotFound(n)
                && n@ == environment@)
            &&& items.contains_key(environment@) && json_decode_object(items[environment@]) is None ==> (
            res matches Err(e) && e matches Error::CorruptItem(n) && n@ == environment@)
            &&& items.contains_key(environment@) && json_decode_object(items[environment@]) is Some ==> res is Ok
        },
{
    validate_environment(environment)?;
    let env_set = match load_env_set(store, environment)? {
        Some(s) => s,
        None => {
            return Err(Error::EnvironmentNotFound(String::from_str(environment)));
        },
    };
    let entries = env_set.entries();
    let ghost views = entry_views(entries@);
    let mut names: Vec<String> = Vec::new();
    let mut i: usize = 0;
    while i < entries.len()
        invariant
            i <= entries@.len(),
            views == entry_views(entries@),
            names@.len() == i,
            forall|k: int| 0 <= k < i ==> #[trigger] names@[k]@ == views[k].0,
        decreases entries.len() - i,
    {
        names.push(entries[i].0.clone());
        i = i + 1;
    }
    assert(string_views(names@) =~= views.map_values(|p: (Seq<char>, Seq<char>)| p.0));
    proof {
        crate::store::lemma_key_listing(views, names@);
    }
    Ok(names)
}

// ---------------------------------------------------------------------------
// import

/// Merges the variables of a `.env` document into an environment and
/// returns how many were written. Like `set`, everything is resolved before
/// anything is stored, so a malformed document leaves the environment
/// untouched. `path` names the document in errors; reading it, and deleting
/// it afterwards, is the caller's business.
pub fn import_contents<S: Store>(store: &mut S, environment: &str, path: &str, text: &str) -> (res: Result<usize>)
    requires
        text@.len() < usize::MAX,
    ensures
        final(store).reliable() == old(store).reliable(),
        old(store).reliable() && res is Err ==> final(store).items() == old(store).items(),
        res is Err ==> final(store).items() == old(store).items(),
        final(store).items() != old(store).items() ==> {
            &&& valid_environment(environment@)
            &&& parse_doc(text@, 1) is Ok
            &&& parse_doc(text@, 1)->Ok_0.len() > 0
            &&& stored_ok(old(store).items(), environment@)
            &&& pairs_fault(parse_doc(text@, 1)->Ok_0) is None
        },
        !valid_environment(environment@) ==> (res matches Err(e) && e matches Error::InvalidEnvironmentName(n)
            && n@ == environment@) && final(store).items() == old(store).items(),
        valid_environment(environment@) ==> match parse_doc(text@, 1) {
            Err((line, reason)) => (res matches Err(e) && e matches Error::Dotenv { path: p, line: l, reason: r }
                && p@ == path@ && l == line && r@ == reason) && final(store).items() == old(store).items(),
            Ok(pairs) => if pairs.len() == 0 {
                (res matches Err(e) && e matches Error::EmptyImport(p) && p@ == path@) && final(store).items()
                    == old(store).items()
            } else {
                let items = old(store).items();
                &&& res matches Ok(n) ==> n == pairs.len() && merged_into(items, final(store).items(), environment@, pairs)
                &&& res matches Err(e) ==> write_failure(items, environment@, pairs, e)
                &&& old(store).reliable() && stored_ok(items, environment@) && pairs_fault(pairs) is None ==> res is Ok
                &&& old(store).reliable() && stored_ok(items, environment@) && (forall|i: int|
                    0 <= i < pairs.len() ==> !(#[trigger] pairs[i].1).contains('\0')) ==> res == Ok::<usize, Error>(
                    pairs.len() as usize,
                ) && merged_into(items, final(store).items(), environment@, pairs)
                &&& old(store).reliable() && !stored_ok(items, environment@) ==> (res matches Err(e)
                    && e matches Error::CorruptItem(n) && n@ == environment@) && final(store).items() == items
                &&& old(store).reliable() && stored_ok(items, environment@) && pairs_fault(pairs) is Some ==> (
                res matches Err(e) && e matches Error::InvalidKey(k) && k@ == pairs_fault(pairs)->0)
                    && final(store).items() == items
            },
        },
{
    proof {
        law_parsed_pairs_are_accepted(text@);
    }
    validate_environment(environment)?;
    let pairs = match parse(text) {
        Ok(pairs) => pairs,
        Err(e) => {
            return Err(Error::Dotenv { path: String::from_str(path), line: e.line, reason: e.reason });
        },
    };
    // Importing nothing and then offering to delete the file would be a good
    // way to lose a file for no gain.
    if pairs.len() == 0 {
        return Err(Error::EmptyImport(String::from_str(path)));
    }
    write_pairs(store, environment, &pairs)?;
    Ok(pairs.len())
}

// ---------------------------------------------------------------------------
// exec

/// What `exec` will run: the program, its arguments, and the complete
/// environment the child receives.
#[derive(Debug, PartialEq, Eq)]
pub struct ExecPlan {
    pub program: String,
    pub args: Vec<String>,
    pub env: Vec<(String, String)>,
}

/// The position of the first pair with key `key`, or the length when none.
pub open spec fn first_key_index(pairs: Seq<(Seq<char>, Seq<char>)>, key: Seq<char>) -> nat
    decreases pairs.len(),
{
    if pairs.len() == 0 || pairs[0].0 == key {
        0
    } else {
        1 + first_key_index(pairs.drop_first(), key)
    }
}

impl ExecPlan {
    /// Looks up a variable in the resolved child environment: the value of
    /// the first entry with that name.
    pub fn env_value(&self, key: &str) -> (r: Option<&str>)
        ensures
            ({
                let pairs = entry_views(self.env@);
                let i = first_key_index(pairs, key@);
                match r {
                    Some(v) => i < pairs.len() && v@ == pairs[i as int].1,
                    None => i == pairs.len(),
                }
            }),
    {
        let ghost pairs = entry_views(self.env@);
        let k = String::from_str(key);
        let mut i: usize = 0;
        assert(pairs.skip(0) =~= pairs);
        while i < self.env.len()
            invariant
                i <= self.env@.len(),
                pairs == entry_views(self.env@),
                k@ == key@,
                first_key_index(pairs, key@) == i + first_key_index(pairs.skip(i as int), key@),
            decreases self.env.len() - i,
        {
            assert(pairs.skip(i as int)[0] == pairs[i as int]);
            if self.env[i].0 == k {
                return Some(self.env[i].1.as_str());
            }
            assert(pairs.skip(i as int).drop_first() =~= pairs.skip(i + 1));
            i = i + 1;
        }
        None
    }
}

/// Clones the strings.
fn clone_strings(v: &[String], from: usize) -> (r: Vec<String>)
    requires
        from <= v@.len(),
    ensures
        string_views(r@) == string_views(v@).skip(from as int),
{
    let mut out: Vec<String> = Vec::new();
    let mut i = from;
    while i < v.len()
        invariant
            from <= i <= v@.len(),
            out@.len() == i - from,
            forall|k: int| 0 <= k < out@.len() ==> #[trigger] out@[k]@ == v@[from + k]@,
        decreases v.len() - i,
    {
        out.push(v[i].clone());
        i = i + 1;
    }
    assert(string_views(out@) =~= string_views(v@).skip(from as int));
    out
}

/// Works out what to execute and with which environment, given an explicit
/// base environment: the base (a later entry winning over an earlier one
/// with the same name), overlaid by the stored variables, so that a stored
/// variable wins over one already present in the base. The child
/// environment lists each name once, in ascending order.
pub fn resolve_exec_with_base<S: Store>(
    store: &S,
    environment: &str,
    argv: &[String],
    base: Vec<(String, String)>,
) -> (res: Result<ExecPlan>)
    ensures
        !valid_environment(environment@) ==> (res matches Err(e) && e matches Error::InvalidEnvironmentName(n)
            && n@ == environment@),
        valid_environment(environment@) && argv@.len() == 0 ==> (res matches Err(e) && e is NoCommand),
        res matches Err(e) ==> !valid_environment(environment@) || argv@.len() == 0 || read_failure(
            store.items(),
            environment@,
            e,
        ),
        res matches Ok(plan) ==> {
            &&& argv@.len() > 0
            &&& store.items().contains_key(environment@)
            &&& json_decode_object(store.items()[environment@]) is Some
            &&& plan.program@ == argv@[0]@
            &&& string_views(plan.args@) == string_views(argv@).drop_first()
            &&& map_of(entry_views(plan.env@)) == map_of(entry_views(base@)).union_prefer_right(
                stored_vars(store.items(), environment@),
            )
            &&& keys_ascending(entry_views(plan.env@))
            &&& entry_views(plan.env@) == ascending_entries(
                map_of(entry_views(base@)).union_prefer_right(stored_vars(store.items(), environment@)),
            )
        },
        store.reliable() && valid_environment(environment@) && argv@.len() > 0 ==> {
            let items = store.items();
            &&& !items.contains_key(environment@) ==> (res matches Err(e) && e matches Error::EnvironmentNotFound(n)
                && n@ == environment@)
            &&& items.contains_key(environment@) && json_decode_object(items[environment@]) is None ==> (
            res matches Err(e) && e matches Error::CorruptItem(n) && n@ == environment@)
            &&& items.contains_key(environment@) && json_decode_object(items[environment@]) is Some ==> res is Ok
        },
{
    validate_environment(environment)?;
    if argv.len() == 0 {
        return Err(Error::NoCommand);
    }
    let env_set = match load_env_set(store, environment)? {
        Some(s) => s,
        None => {
            return Err(Error::EnvironmentNotFound(String::from_str(environment)));
        },
    };
    let ghost stored = env_set@;
    assert(stored == stored_vars(store.items(), environment@));

    // Inherit the caller's environment, then overlay the stored secrets so a
    // stored variable wins over one already present in the shell.
    let ghost base_views = entry_views(base@);
    let mut env: KeyMap<String> = KeyMap::new();
    let mut i: usize = 0;
    while i < base.len()
        invariant
            i <= base@.len(),
            base_views == entry_views(base@),
            env@ == map_of(base_views.take(i as int)),
        decreases base.len() - i,
    {
        env.insert(base[i].0.clone(), base[i].1.clone());
        assert(base_views.take(i + 1).drop_last() =~= base_views.take(i as int));
        i = i + 1;
    }
    assert(base_views.take(base@.len() as int) =~= base_views);
    let ghost inherited = env@;
    let stored_entries = env_set.entries();
    let ghost stored_views = entry_views(stored_entries@);
    let mut j: usize = 0;
    while j < stored_entries.len()
        invariant
            j <= stored_entries@.len(),
            stored_views == entry_views(stored_entries@),
            env@ == overlay(inherited, stored_views.take(j as int)),
        decreases stored_entries.len() - j,
    {
        env.insert(stored_entries[j].0.clone(), stored_entries[j].1.clone());
        assert(stored_views.take(j + 1).drop_last() =~= stored_views.take(j as int));
        j = j + 1;
    }
    proof {
        assert(stored_views.take(stored_entries@.len() as int) =~= stored_views);
        crate::keymap::lemma_overlay_union(inherited, stored_views);
        assert(map_of(stored_views) == stored);
        assert(env@ == inherited.union_prefer_right(stored));
    }
    Ok(ExecPlan {
        program: argv[0].clone(),
        args: clone_strings(argv, 1),
        env: env.into_entries(),
    })
}

// ---------------------------------------------------------------------------
// Laws.

/// Arguments are split on the first '=', so values may contain '=', and an
/// empty value is a value.
pub proof fn law_split_on_first_equals(key: Seq<char>, value: Seq<char>)
    requires
        !key.contains('='),
    ensures
        split_assignment(key + seq!['='] + value) == (key, Some(value)),
{
    let a = key + seq!['='] + value;
    assert forall|i: int| 0 <= i < key.len() implies a[i] != '=' by {
        assert(a[i] == key[i]);
        assert(key.contains(key[i]));
    }
    lemma_eq_span(a);
    if eq_span(a) < key.len() {
        assert(a[eq_span(a) as int] == '=');
    }
    assert(a[key.len() as int] == '=');
    assert(a.take(key.len() as int) =~= key);
    assert(a.skip(key.len() + 1int) =~= value);
}

/// What is stored reads back: after a merge the environment is present,
/// its item decodes, and loading it gives the variables as they were,
/// updated by the pairs written.
pub proof fn law_merge_reads_back(
    before: Map<Seq<char>, Seq<u8>>,
    after: Map<Seq<char>, Seq<u8>>,
    env: Seq<char>,
    pairs: Seq<(Seq<char>, Seq<char>)>,
)
    requires
        merged_into(before, after, env, pairs),
    ensures
        after.contains_key(env),
        stored_ok(after, env),
        forall|res: Result<Option<EnvSet>>| #[trigger] loaded_as(after, env, res) ==> (res matches Ok(found)
            && found matches Some(s) && s@ == overlay(stored_vars(before, env), pairs)),
{
}

/// With valid keys, the only pair `EnvSet::insert` refuses is one whose
/// value holds NUL.
proof fn lemma_pairs_fault_values(pairs: Seq<(Seq<char>, Seq<char>)>)
    requires
        forall|i: int| 0 <= i < pairs.len() ==> valid_key(#[trigger] pairs[i].0),
    ensures
        pairs_fault(pairs) is None <==> forall|i: int| 0 <= i < pairs.len() ==> !(#[trigger] pairs[i].1).contains('\0'),
    decreases pairs.len(),
{
    if pairs.len() > 0 {
        let rest = pairs.drop_first();
        assert forall|i: int| 0 <= i < rest.len() implies valid_key(#[trigger] rest[i].0) by {
            assert(rest[i] == pairs[i + 1]);
        }
        lemma_pairs_fault_values(rest);
        assert(valid_key(pairs[0].0));
        if forall|i: int| 0 <= i < rest.len() ==> !(#[trigger] rest[i].1).contains('\0') {
            if !pairs[0].1.contains('\0') {
                assert forall|i: int| 0 <= i < pairs.len() implies !(#[trigger] pairs[i].1).contains('\0') by {
                    if i > 0 {
                        assert(pairs[i] == rest[i - 1]);
                    }
                }
            }
        } else {
            let j = choose|j: int| 0 <= j < rest.len() && (#[trigger] rest[j].1).contains('\0');
            assert(pairs[j + 1] == rest[j]);
        }
    }
}

/// The pairs of a parsed document are all accepted unless a value holds
/// NUL: parsing never yields a key that storing would refuse.
pub proof fn law_parsed_pairs_are_accepted(text: Seq<char>)
    ensures
        parse_doc(text, 1) matches Ok(pairs) ==> (pairs_fault(pairs) is None <==> forall|i: int|
            0 <= i < pairs.len() ==> !(#[trigger] pairs[i].1).contains('\0')),
{
    crate::dotenv::lemma_parse_doc_keys(text, 1);
    if let Ok(pairs) = parse_doc(text, 1) {
        assert forall|i: int| 0 <= i < pairs.len() implies valid_key(#[trigger] pairs[i].0) by {
            assert(crate::dotenv::clean_key(pairs[i].0));
        }
        lemma_pairs_fault_values(pairs);
    }
}

/// Storing assignments leaves every variable they do not name as it was.
pub proof fn law_merge_keeps_unnamed(
    before: Map<Seq<char>, Seq<u8>>,
    after: Map<Seq<char>, Seq<u8>>,
    env: Seq<char>,
    pairs: Seq<(Seq<char>, Seq<char>)>,
    key: Seq<char>,
)
    requires
        merged_into(before, after, env, pairs),
        !crate::keymap::has_key(pairs, key),
    ensures
        stored_vars(after, env).contains_key(key) == stored_vars(before, env).contains_key(key),
        stored_vars(before, env).contains_key(key) ==> stored_vars(after, env)[key] == stored_vars(before, env)[key],
{
    crate::keymap::lemma_overlay_untouched(stored_vars(before, env), pairs, key);
}

/// A variable holds the value of the last assignment that names it, whether
/// it existed before or not.
pub proof fn law_merge_last_value_wins(
    before: Map<Seq<char>, Seq<u8>>,
    after: Map<Seq<char>, Seq<u8>>,
    env: Seq<char>,
    pairs: Seq<(Seq<char>, Seq<char>)>,
    i: int,
)
    requires
        merged_into(before, after, env, pairs),
        0 <= i < pairs.len(),
        forall|j: int| i < j < pairs.len() ==> #[trigger] pairs[j].0 != pairs[i].0,
    ensures
        stored_vars(after, env).contains_key(pairs[i].0),
        stored_vars(after, env)[pairs[i].0] == pairs[i].1,
{
    crate::keymap::lemma_overlay_last_wins(stored_vars(before, env), pairs, i);
}

/// Storing into one environment leaves every other environment as it was.
pub proof fn law_merge_isolates_environments(
    before: Map<Seq<char>, Seq<u8>>,
    after: Map<Seq<char>, Seq<u8>>,
    env: Seq<char>,
    pairs: Seq<(Seq<char>, Seq<char>)>,
    other: Seq<char>,
)
    requires
        merged_into(before, after, env, pairs),
        other != env,
    ensures
        after.contains_key(other) == before.contains_key(other),
        before.contains_key(other) ==> after[other] == before[other],
{
}

/// In the child environment a stored variable wins over an inherited one,
/// and an inherited variable that is not stored keeps its value.
pub proof fn law_stored_wins_over_inherited(
    inherited: Map<Seq<char>, Seq<char>>,
    stored: Map<Seq<char>, Seq<char>>,
    key: Seq<char>,
)
    ensures
        stored.contains_key(key) ==> inherited.union_prefer_right(stored).contains_key(key)
            && inherited.union_prefer_right(stored)[key] == stored[key],
        !stored.contains_key(key) ==> inherited.union_prefer_right(stored).contains_key(key)
            == inherited.contains_key(key),
        !stored.contains_key(key) && inherited.contains_key(key) ==> inherited.union_prefer_right(
            stored,
        )[key] == inherited[key],
{
}

/// In an environment listing each name once, `env_value` finds exactly the
/// value the listed map holds, and nothing for a name it does not hold.
pub proof fn law_env_value_reads_the_map(pairs: Seq<(Seq<char>, Seq<char>)>, key: Seq<char>)
    requires
        keys_ascending(pairs),
    ensures
        map_of(pairs).contains_key(key) ==> first_key_index(pairs, key) < pairs.len() && pairs[first_key_index(
            pairs,
            key,
        ) as int].1 == map_of(pairs)[key],
        !map_of(pairs).contains_key(key) ==> first_key_index(pairs, key) == pairs.len(),
{
    crate::keymap::lemma_map_of_ascending(pairs);
    lemma_first_key_index(pairs, key);
    if map_of(pairs).contains_key(key) {
        let i = first_key_index(pairs, key) as int;
        assert(map_of(pairs).contains_key(pairs[i].0));
    } else if first_key_index(pairs, key) < pairs.len() {
        let i = first_key_index(pairs, key) as int;
        assert(map_of(pairs).contains_key(pairs[i].0));
    }
}

proof fn lemma_first_key_index(pairs: Seq<(Seq<char>, Seq<char>)>, key: Seq<char>)
    ensures
        first_key_index(pairs, key) <= pairs.len(),
        first_key_index(pairs, key) < pairs.len() ==> pairs[first_key_index(pairs, key) as int].0 == key,
        first_key_index(pairs, key) == pairs.len() ==> !crate::keymap::has_key(pairs, key),
    decreases pairs.len(),
{
    if pairs.len() > 0 && pairs[0].0 != key {
        lemma_first_key_index(pairs.drop_first(), key);
        if crate::keymap::has_key(pairs, key) {
            let i = choose|i: int| 0 <= i < pairs.len() && #[trigger] pairs[i].0 == key;
            assert(pairs.drop_first()[i - 1].0 == key);
        }
    }
}

/// An environment name is accepted exactly when it has at least one
/// character and none of its characters is NUL; its length is otherwise
/// free.
pub proof fn law_environment_name_rule(name: Seq<char>)
    ensures
        valid_environment(name) <==> (name.len() > 0 && forall|i: int| 0 <= i < name.len() ==> #[trigger] name[i]
            != '\0'),
{
    if name.len() > 0 && forall|i: int| 0 <= i < name.len() ==> #[trigger] name[i] != '\0' {
        assert(!name.contains('\0')) by {
            if name.contains('\0') {
                let i = choose|i: int| 0 <= i < name.len() && name[i] == '\0';
                assert(name[i] != '\0');
            }
        }
    }
    if valid_environment(name) {
        assert forall|i: int| 0 <= i < name.len() implies #[trigger] name[i] != '\0' by {
            assert(name.contains(name[i]));
        }
    }
}

} // verus!
