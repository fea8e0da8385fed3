use std::collections::HashMap;
use vstd::prelude::*;
use vstd::std_specs::convert::FromSpecImpl;

verus! {

/// What to put in the place of variables: a value for each name that has one.
pub struct Data {
    pub data: HashMap<String, String>,
}

impl View for Data {
    type V = Map<Seq<char>, Seq<char>>;

    /// The value of each name, both as sequences of characters.
    open spec fn view(&self) -> Map<Seq<char>, Seq<char>> {
        self.data.deep_view()
    }
}

impl Data {
    /// The value of a name, if it has one.
    pub fn get(&self, key: &str) -> (value: Option<&String>)
        ensures
            match value {
                Some(found) => self@.contains_key(key@) && self@[key@] == found@,
                None => !self@.contains_key(key@),
            },
    {
        lookup(&self.data, key)
    }
}

impl From<HashMap<String, String>> for Data {
    fn from(data: HashMap<String, String>) -> (context: Self) {
        Self { data }
    }
}

impl FromSpecImpl<HashMap<String, String>> for Data {
    open spec fn obeys_from_spec() -> bool {
        true
    }

    open spec fn from_spec(data: HashMap<String, String>) -> Data {
        Data { data }
    }
}

/// `HashMap::insert`, on a map from strings to strings. Afterwards the map
/// holds `value` under the characters of `key`, in the place of any value that
/// it held under them before, and under other keys what it held before.
#[verifier::external_body]
pub(crate) fn insert(entries: &mut HashMap<String, String>, key: String, value: String)
    ensures
        final(entries).deep_view() == old(entries).deep_view().insert(key@, value@),
{
    entries.insert(key, value);
}

/// `HashMap::get`, on a map from strings to strings, with a string slice for
/// the key. The map holds at most one value under the characters of `key`:
/// that value is returned where there is one, and `None` where there is none.
#[verifier::external_body]
fn lookup<'a>(entries: &'a HashMap<String, String>, key: &str) -> (value: Option<&'a String>)
    ensures
        match value {
            Some(found) => entries.deep_view().contains_key(key@) && entries.deep_view()[key@]
                == found@,
            None => !entries.deep_view().contains_key(key@),
        },
{
    entries.get(key)
}

/// A map with nothing in it gives no name a value.
pub proof fn lemma_empty_map(entries: HashMap<String, String>)
    requires
        entries@ == Map::<String, String>::empty(),
    ensures
        entries.deep_view() == Map::<Seq<char>, Seq<char>>::empty(),
{
    vstd::std_specs::hash::lemma_hashmap_deepview_dom(entries);
    assert(entries@.dom().map(|key: String| key.deep_view()) =~= Set::<Seq<char>>::empty());
    assert(entries.deep_view() =~= Map::<Seq<char>, Seq<char>>::empty());
}

} // verus!
