//! The key-value state machine that committed commands are applied to.
use vstd::hash_map::StringHashMap;
use vstd::prelude::*;

use crate::model::{apply_command, lemma_apply_other, lemma_apply_set};

verus! {

broadcast use {
    vstd::hash_map::group_hash_map_axioms,
    vstd::string::group_string_axioms,
};

/// Calls `str::split_once` with a character for a delimiter. Its documentation says:
/// the string is split on the first occurrence of the delimiter, and what stands before
/// and after it is returned; without an occurrence there is no result.
#[verifier::external_body]
fn split_once(text: &str, delimiter: char) -> (res: Option<(&str, &str)>)
    ensures
        match res {
            Some((head, tail)) => text@ == head@.push(delimiter) + tail@ && !head@.contains(
                delimiter,
            ),
            None => !text@.contains(delimiter),
        },
{
    text.split_once(delimiter)
}

/// A map from keys to values, changed by commands.
pub struct StateMachine {
    map: StringHashMap<String>,
}

impl View for StateMachine {
    type V = Map<Seq<char>, Seq<char>>;

    closed spec fn view(&self) -> Map<Seq<char>, Seq<char>> {
        self.map@.map_values(|v: String| v@)
    }
}

impl StateMachine {
    /// An empty state machine.
    pub fn new() -> (res: StateMachine)
        ensures
            res@ == Map::<Seq<char>, Seq<char>>::empty(),
    {
        let res = StateMachine { map: StringHashMap::new() };
        assert(res@ =~= Map::<Seq<char>, Seq<char>>::empty());
        res
    }

    /// Applies one command: `key=value` sets `key`, anything else is ignored.
    pub fn apply_to_state_machine(&mut self, command: &str)
        ensures
            final(self)@ == apply_command(old(self)@, command@),
    {
        match split_once(command, '=') {
            Some((key, value)) => {
                proof {
                    lemma_apply_set(old(self)@, key@, value@);
                }
                let ghost value_view = value@;
                let ghost key_view = key@;
                self.map.insert(key.to_string(), value.to_string());
                assert(self@ =~= old(self)@.insert(key_view, value_view));
            },
            None => {
                proof {
                    lemma_apply_other(old(self)@, command@);
                }
            },
        }
    }

    /// The value of `key`, if it has one.
    pub fn get(&self, key: &str) -> (res: Option<&String>)
        ensures
            match res {
                Some(value) => self@.contains_key(key@) && self@[key@] == value@,
                None => !self@.contains_key(key@),
            },
    {
        self.map.get(key)
    }

    /// The number of keys.
    pub fn len(&self) -> (res: usize)
        ensures
            res == self@.len(),
    {
        assert(self@.dom() =~= self.map@.dom());
        self.map.len()
    }
}

} // verus!
