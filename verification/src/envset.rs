//! One environment's variables: a map from names to values, kept in
//! ascending name order so that its JSON form depends on the map alone.

use crate::error::{Error, Result};
use crate::keymap::{ascending_entries, entry_views, keys_ascending, map_of, KeyMap};
use crate::text::{contains_char, to_chars};
use std::collections::BTreeMap;
use vstd::prelude::*;
use vstd::string::StringExecFns;

verus! {

broadcast use vstd::string::group_string_axioms;

/// Variable names must be usable in a C environment block: non-empty, and
/// free of '=' (the separator) and NUL (the terminator).
pub open spec fn valid_key(key: Seq<char>) -> bool {
    key.len() > 0 && !key.contains('=') && !key.contains('\0')
}

/// What `EnvSet::insert` refuses `key`/`value` for, as the text it reports,
/// or `None` when it accepts them.
pub open spec fn pair_fault(key: Seq<char>, value: Seq<char>) -> Option<Seq<char>> {
    if !valid_key(key) {
        Some(key)
    } else if value.contains('\0') {
        Some(key + " (value contains a NUL byte)"@)
    } else {
        None
    }
}

pub fn validate_key(key: &str) -> (res: Result<()>)
    ensures
        res is Ok <==> valid_key(key@),
        res matches Err(e) ==> e matches Error::InvalidKey(k) && k@ == key@,
{
    let cs = to_chars(key);
    if cs.len() == 0 || contains_char(&cs, '=') || contains_char(&cs, '\0') {
        return Err(Error::InvalidKey(String::from_str(key)));
    }
    Ok(())
}

/// What `serde_json` decodes from `bytes` as an object of string values:
/// its entries in ascending key order, or `None` when `bytes` is not such
/// an object.
pub uninterp spec fn json_decode_object(bytes: Seq<u8>) -> Option<Seq<(Seq<char>, Seq<char>)>>;

/// A hexadecimal digit, in lower case.
pub open spec fn hex_digit(n: int) -> char {
    if n < 10 {
        ('0' as int + n) as char
    } else {
        ('a' as int + n - 10) as char
    }
}

/// How JSON writes one character inside a string: a quote or a backslash
/// behind a backslash, a control character as its short escape where JSON
/// has one and as `\u00xx` otherwise, anything else as itself.
pub open spec fn json_char(c: char) -> Seq<char> {
    if c == '"' {
        seq!['\\', '"']
    } else if c == '\\' {
        seq!['\\', '\\']
    } else if c == '\u{8}' {
        seq!['\\', 'b']
    } else if c == '\t' {
        seq!['\\', 't']
    } else if c == '\n' {
        seq!['\\', 'n']
    } else if c == '\u{c}' {
        seq!['\\', 'f']
    } else if c == '\r' {
        seq!['\\', 'r']
    } else if (c as int) < 0x20 {
        seq!['\\', 'u', '0', '0', hex_digit(c as int / 16), hex_digit(c as int % 16)]
    } else {
        seq![c]
    }
}

/// Each character of `s` as JSON writes it inside a string.
pub open spec fn json_chars(s: Seq<char>) -> Seq<char>
    decreases s.len(),
{
    if s.len() == 0 {
        seq![]
    } else {
        json_char(s[0]) + json_chars(s.drop_first())
    }
}

/// The JSON string literal holding `s`.
pub open spec fn json_string(s: Seq<char>) -> Seq<char> {
    seq!['"'] + json_chars(s) + seq!['"']
}

/// `"key":"value"`.
pub open spec fn json_member(kv: (Seq<char>, Seq<char>)) -> Seq<char> {
    json_string(kv.0) + seq![':'] + json_string(kv.1)
}

/// The members after the first, each preceded by a comma.
pub open spec fn json_more_members(entries: Seq<(Seq<char>, Seq<char>)>) -> Seq<char>
    decreases entries.len(),
{
    if entries.len() == 0 {
        seq![]
    } else {
        seq![','] + json_member(entries[0]) + json_more_members(entries.drop_first())
    }
}

/// The compact JSON text of the object with `entries`, in their order.
pub open spec fn json_object_text(entries: Seq<(Seq<char>, Seq<char>)>) -> Seq<char> {
    if entries.len() == 0 {
        seq!['{', '}']
    } else {
        seq!['{'] + json_member(entries[0]) + json_more_members(entries.drop_first()) + seq!['}']
    }
}

/// The UTF-8 encoding of one character.
pub open spec fn utf8_char(c: char) -> Seq<u8> {
    let n = c as int;
    if n < 0x80 {
        seq![n as u8]
    } else if n < 0x800 {
        seq![(0xC0 + n / 64) as u8, (0x80 + n % 64) as u8]
    } else if n < 0x10000 {
        seq![(0xE0 + n / 4096) as u8, (0x80 + (n / 64) % 64) as u8, (0x80 + n % 64) as u8]
    } else {
        seq![
            (0xF0 + n / 262144) as u8,
            (0x80 + (n / 4096) % 64) as u8,
            (0x80 + (n / 64) % 64) as u8,
            (0x80 + n % 64) as u8,
        ]
    }
}

/// The UTF-8 encoding of a text.
pub open spec fn utf8(s: Seq<char>) -> Seq<u8>
    decreases s.len(),
{
    if s.len() == 0 {
        seq![]
    } else {
        utf8_char(s[0]) + utf8(s.drop_first())
    }
}

/// The bytes `serde_json` writes for the object with `entries` (a map with
/// string keys and values, serialized compactly in the entries' order).
pub open spec fn json_encode_object(entries: Seq<(Seq<char>, Seq<char>)>) -> Seq<u8> {
    utf8(json_object_text(entries))
}

/// Decodes `bytes` with `serde_json::from_slice` into a
/// `BTreeMap<String, String>` and hands back its entries, or `None` when
/// `serde_json` reports an error. The result is named by
/// `json_decode_object`; nothing else is claimed of it.
#[verifier::external_body]
fn decode_json_object(bytes: &[u8]) -> (res: Option<Vec<(String, String)>>)
    ensures
        match res {
            Some(v) => json_decode_object(bytes@) == Some(entry_views(v@)),
            None => json_decode_object(bytes@) is None,
        },
{
    match serde_json::from_slice::<BTreeMap<String, String>>(bytes) {
        Ok(map) => Some(map.into_iter().collect()),
        Err(_) => None,
    }
}

/// Encodes the entries, already in ascending and distinct key order, with
/// `serde_json::to_vec` as a `BTreeMap`, which walks them in that order.
/// `serde_json` documents that this fails only for maps with non-string
/// keys, so it does not fail here. Claimed: the bytes are the compact JSON
/// object `json_encode_object` describes, with `serde_json`'s escapes
/// (its `ESCAPE` table in `ser.rs`), and `serde_json::from_slice` reads them
/// back as the same entries, since decoding undoes exactly those escapes.
#[verifier::external_body]
fn encode_json_object(entries: &Vec<(String, String)>) -> (res: Vec<u8>)
    requires
        keys_ascending(entry_views(entries@)),
    ensures
        res@ == json_encode_object(entry_views(entries@)),
        json_decode_object(res@) == Some(entry_views(entries@)),
{
    let map: BTreeMap<&String, &String> = entries.iter().map(|e| (&e.0, &e.1)).collect();
    serde_json::to_vec(&map).expect("a map with string keys always serializes")
}

/// All of one environment's variables.
#[derive(Debug, PartialEq, Eq)]
pub struct EnvSet {
    map: KeyMap<String>,
}

impl View for EnvSet {
    type V = Map<Seq<char>, Seq<char>>;

    closed spec fn view(&self) -> Map<Seq<char>, Seq<char>> {
        self.map@
    }
}

impl Default for EnvSet {
    fn default() -> (s: Self)
        ensures
            s@ == Map::<Seq<char>, Seq<char>>::empty(),
    {
        EnvSet::new()
    }
}

impl EnvSet {
    pub fn new() -> (s: Self)
        ensures
            s@ == Map::<Seq<char>, Seq<char>>::empty(),
    {
        EnvSet { map: KeyMap::new() }
    }

    /// The set holding the decoded entries, later entries winning, or
    /// `CorruptItem` naming `environment` when nothing could be decoded.
    pub fn from_decoded(decoded: Option<Vec<(String, String)>>, environment: &str) -> (res: Result<Self>)
        ensures
            match decoded {
                Some(v) => res matches Ok(s) && s@ == map_of(entry_views(v@)),
                None => res matches Err(e) && e matches Error::CorruptItem(n) && n@ == environment@,
            },
    {
        match decoded {
            None => Err(Error::CorruptItem(String::from_str(environment))),
            Some(v) => {
                let mut map: KeyMap<String> = KeyMap::new();
                let mut i: usize = 0;
                while i < v.len()
                    invariant
                        i <= v@.len(),
                        map@ == map_of(entry_views(v@).take(i as int)),
                    decreases v.len() - i,
                {
                    let k = v[i].0.clone();
                    let val = v[i].1.clone();
                    map.insert(k, val);
                    assert(entry_views(v@).take(i + 1).drop_last() =~= entry_views(v@).take(i as int));
                    i = i + 1;
                }
                assert(entry_views(v@).take(v@.len() as int) =~= entry_views(v@));
                Ok(EnvSet { map })
            },
        }
    }

    /// Parses the stored JSON form of an environment.
    pub fn from_json(bytes: &[u8], environment: &str) -> (res: Result<Self>)
        ensures
            match json_decode_object(bytes@) {
                Some(entries) => res matches Ok(s) && s@ == map_of(entries),
                None => res matches Err(e) && e matches Error::CorruptItem(n) && n@ == environment@,
            },
    {
        Self::from_decoded(decode_json_object(bytes), environment)
    }

    /// The JSON form: an object whose members are the entries in ascending
    /// name order.
    pub fn to_json(&self) -> (bytes: Vec<u8>)
        ensures
            bytes@ == json_encode_object(ascending_entries(self@)),
            json_decode_object(bytes@) == Some(ascending_entries(self@)),
            map_of(ascending_entries(self@)) == self@,
    {
        encode_json_object(self.map.entries())
    }

    /// Sets `key` to `value`, refusing an invalid name or a value holding
    /// NUL; the error names the key and never the value.
    pub fn insert(&mut self, key: &str, value: &str) -> (res: Result<()>)
        ensures
            match pair_fault(key@, value@) {
                Some(text) => res matches Err(e) && e matches Error::InvalidKey(k) && k@ == text
                    && final(self)@ == old(self)@,
                None => res is Ok && final(self)@ == old(self)@.insert(key@, value@),
            },
    {
        validate_key(key)?;
        let vs = to_chars(value);
        if contains_char(&vs, '\0') {
            let mut text = String::from_str(key);
            text.append(" (value contains a NUL byte)");
            return Err(Error::InvalidKey(text));
        }
        self.map.insert(String::from_str(key), String::from_str(value));
        Ok(())
    }

    /// The entries in ascending name order.
    pub fn iter(&self) -> (it: std::slice::Iter<'_, (String, String)>)
        ensures
            entry_views(vstd::std_specs::slice::into_iter_elts(it)) == ascending_entries(self@),
    {
        let entries = self.map.entries();
        entries.iter()
    }

    /// The entries in ascending name order, as a vector.
    pub fn entries(&self) -> (r: &Vec<(String, String)>)
        ensures
            entry_views(r@) == ascending_entries(self@),
            keys_ascending(entry_views(r@)),
            map_of(entry_views(r@)) == self@,
    {
        self.map.entries()
    }

    pub fn len(&self) -> (n: usize)
        ensures
            n == self@.dom().len(),
    {
        self.map.len()
    }

    pub fn is_empty(&self) -> (b: bool)
        ensures
            b <==> self@.dom().len() == 0,
    {
        self.map.len() == 0
    }
}

/// What `insert` refuses a pair for depends on the key and on whether the
/// value holds NUL, never on the value otherwise: errors name keys, never
/// values.
pub proof fn law_fault_never_names_value(key: Seq<char>, v1: Seq<char>, v2: Seq<char>)
    requires
        v1.contains('\0') == v2.contains('\0'),
    ensures
        pair_fault(key, v1) == pair_fault(key, v2),
{
}

/// The JSON form depends on the variables alone: setting two different
/// names in either order gives the same bytes.
pub proof fn law_insert_order_irrelevant(
    m: Map<Seq<char>, Seq<char>>,
    k1: Seq<char>,
    v1: Seq<char>,
    k2: Seq<char>,
    v2: Seq<char>,
)
    requires
        k1 != k2,
    ensures
        json_encode_object(ascending_entries(m.insert(k1, v1).insert(k2, v2))) == json_encode_object(
            ascending_entries(m.insert(k2, v2).insert(k1, v1)),
        ),
{
    assert(m.insert(k1, v1).insert(k2, v2) =~= m.insert(k2, v2).insert(k1, v1));
}

/// A variable name is accepted exactly when it has at least one character
/// and none of its characters is `=` or NUL; its length is otherwise free.
pub proof fn law_key_rule(key: Seq<char>)
    ensures
        valid_key(key) <==> (key.len() > 0 && forall|i: int| 0 <= i < key.len() ==> #[trigger] key[i] != '='
            && key[i] != '\0'),
        pair_fault(key, seq!['v']) is None <==> valid_key(key),
{
    if key.len() > 0 && forall|i: int| 0 <= i < key.len() ==> #[trigger] key[i] != '=' && key[i] != '\0' {
        assert(!key.contains('=')) by {
            if key.contains('=') {
                let i = choose|i: int| 0 <= i < key.len() && key[i] == '=';
                assert(key[i] != '=');
            }
        }
        assert(!key.contains('\0')) by {
            if key.contains('\0') {
                let i = choose|i: int| 0 <= i < key.len() && key[i] == '\0';
                assert(key[i] != '\0');
            }
        }
    }
    if valid_key(key) {
        assert forall|i: int| 0 <= i < key.len() implies #[trigger] key[i] != '=' && key[i] != '\0' by {
            assert(key.contains(key[i]));
        }
    }
    assert(!seq!['v'].contains('\0')) by {
        if seq!['v'].contains('\0') {
            let i = choose|i: int| 0 <= i < 1 && seq!['v'][i] == '\0';
        }
    }
}

} // verus!
