//! Dictionaries: word-to-word mappings looked up by exact string keys.
//!
//! A `Dictionary` is viewed as a `Map<Seq<char>, Seq<char>>` from source
//! spelling to replacement. It can be built entry by entry, or parsed from a
//! JSON object of string-to-string entries.

use vstd::prelude::*;

verus! {

#[derive(Debug)]
struct Entry {
    key: String,
    value: String,
}

/// A word-to-word mapping, looked up by exact key.
#[derive(Debug)]
pub struct Dictionary {
    entries: Vec<Entry>,
}

/// The map described by a sequence of entries; a later entry with the same
/// key wins over an earlier one.
spec fn entries_map(s: Seq<Entry>) -> Map<Seq<char>, Seq<char>>
    decreases s.len(),
{
    if s.len() == 0 {
        Map::empty()
    } else {
        entries_map(s.drop_last()).insert(s.last().key@, s.last().value@)
    }
}

proof fn lemma_entries_map_absent(s: Seq<Entry>, k: Seq<char>)
    requires
        forall|j: int| 0 <= j < s.len() ==> s[j].key@ != k,
    ensures
        !entries_map(s).contains_key(k),
    decreases s.len(),
{
    if s.len() > 0 {
        assert(forall|j: int| 0 <= j < s.drop_last().len() ==> s.drop_last()[j] == s[j]);
        lemma_entries_map_absent(s.drop_last(), k);
    }
}

proof fn lemma_entries_map_found(s: Seq<Entry>, k: Seq<char>, t: int)
    requires
        0 <= t < s.len(),
        s[t].key@ == k,
        forall|u: int| t < u < s.len() ==> s[u].key@ != k,
    ensures
        entries_map(s).contains_key(k),
        entries_map(s)[k] == s[t].value@,
    decreases s.len(),
{
    if t < s.len() - 1 {
        assert(forall|u: int| 0 <= u < s.drop_last().len() ==> s.drop_last()[u] == s[u]);
        lemma_entries_map_found(s.drop_last(), k, t);
    }
}

impl View for Dictionary {
    type V = Map<Seq<char>, Seq<char>>;

    closed spec fn view(&self) -> Map<Seq<char>, Seq<char>> {
        entries_map(self.entries@)
    }
}

impl Dictionary {
    /// The empty dictionary.
    pub fn new() -> (r: Dictionary)
        ensures
            r@ == Map::<Seq<char>, Seq<char>>::empty(),
    {
        Dictionary { entries: Vec::new() }
    }

    /// Adds an entry; an existing entry under the same key is superseded.
    pub fn insert(&mut self, key: String, value: String)
        ensures
            final(self)@ == old(self)@.insert(key@, value@),
    {
        let ghost prior = self.entries@;
        let ghost k = key@;
        let ghost v = value@;
        self.entries.push(Entry { key, value });
        proof {
            assert(self.entries@.drop_last() =~= prior);
            assert(self.entries@.last().key@ == k && self.entries@.last().value@ == v);
        }
    }

    /// Looks a key up; `Some` exactly when the dictionary maps it.
    pub fn get(&self, key: &String) -> (r: Option<&String>)
        ensures
            match r {
                Some(value) => self@.contains_key(key@) && value@ == self@[key@],
                None => !self@.contains_key(key@),
            },
    {
        let mut j: usize = self.entries.len();
        while j > 0
            invariant
                j <= self.entries@.len(),
                forall|u: int| j <= u < self.entries@.len() ==> self.entries@[u].key@ != key@,
            decreases j,
        {
            j = j - 1;
            let entry = &self.entries[j];
            if entry.key == *key {
                proof {
                    lemma_entries_map_found(self.entries@, key@, j as int);
                }
                return Some(&entry.value);
            }
        }
        proof {
            lemma_entries_map_absent(self.entries@, key@);
        }
        None
    }
}

/// The key-value views of a sequence of string pairs.
pub open spec fn pair_views(s: Seq<(String, String)>) -> Seq<(Seq<char>, Seq<char>)> {
    s.map_values(|p: (String, String)| (p.0@, p.1@))
}

/// The map described by a sequence of key-value pairs; a later pair with the
/// same key wins over an earlier one.
pub open spec fn pairs_map(entries: Seq<(Seq<char>, Seq<char>)>) -> Map<Seq<char>, Seq<char>>
    decreases entries.len(),
{
    if entries.len() == 0 {
        Map::empty()
    } else {
        pairs_map(entries.drop_last()).insert(entries.last().0, entries.last().1)
    }
}

/// The entries that parsing `s` as a JSON object of string-to-string pairs
/// yields, in the order the parser hands them out, or `None` when `s` is not
/// such an object.
pub uninterp spec fn json_object_entries(s: Seq<char>) -> Option<Seq<(Seq<char>, Seq<char>)>>;

/// Relies on `serde_json::from_str`: whether a text parses as a JSON object
/// of string-to-string entries, and what those entries are, depends on the
/// text alone. A failure is handed back as serde_json's own message.
#[verifier::external_body]
fn parse_json_string_map(s: &str) -> (r: Result<Vec<(String, String)>, String>)
    ensures
        match r {
            Ok(entries) => json_object_entries(s@) == Some(pair_views(entries@)),
            Err(_) => json_object_entries(s@) is None,
        },
{
    match serde_json::from_str::<std::collections::BTreeMap<String, String>>(s) {
        Ok(map) => Ok(map.into_iter().collect()),
        Err(e) => Err(format!("{}", e)),
    }
}

/// Why a text could not be parsed as a dictionary.
#[derive(Debug)]
pub struct DictionaryError {
    pub message: String,
}

/// Builds a dictionary from a JSON object of string-to-string entries, such
/// as a spelling file's contents. A text that is not such an object is
/// rejected whole: no partial dictionary is handed back.
pub fn parse_dictionary(text: &str) -> (r: Result<Dictionary, DictionaryError>)
    ensures
        match r {
            Ok(d) => {
                &&& json_object_entries(text@) is Some
                &&& d@ == pairs_map(json_object_entries(text@)->0)
            },
            Err(_) => json_object_entries(text@) is None,
        },
{
    match parse_json_string_map(text) {
        Ok(entries) => {
            let ghost views = pair_views(entries@);
            let mut d = Dictionary::new();
            let mut i: usize = 0;
            while i < entries.len()
                invariant
                    i <= entries@.len(),
                    views == pair_views(entries@),
                    d@ == pairs_map(views.take(i as int)),
                decreases entries@.len() - i,
            {
                let pair = &entries[i];
                d.insert(pair.0.clone(), pair.1.clone());
                proof {
                    assert(views.take(i + 1).drop_last() =~= views.take(i as int));
                    assert(views.take(i + 1).last() == views[i as int]);
                }
                i = i + 1;
            }
            proof {
                assert(views.take(entries@.len() as int) =~= views);
            }
            Ok(d)
        },
        Err(message) => Err(DictionaryError { message }),
    }
}

} // verus!
