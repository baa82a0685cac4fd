//! The configuration handed to consumer creation.
//!
//! Configuration key/value *parsing* belongs to an external configuration
//! builder and is out of scope here; this module only carries the built
//! key/value pairs as plain values, so that the one construction call that
//! consumes them can be specified.  The model engine accepts a
//! configuration iff it names a consumer group: it holds a `group.id`
//! entry with a non-empty value.

use vstd::prelude::*;

verus! {

/// An immutable set of configuration entries, consumed exactly once at
/// consumer-creation time.
pub struct KafkaConfig {
    /// The built key/value pairs, in the order they were set.
    pub entries: Vec<(String, String)>,
}

impl KafkaConfig {
    /// The configuration as a sequence of key/value pairs of characters.
    pub open spec fn view(self) -> Seq<(Seq<char>, Seq<char>)> {
        self.entries@.map_values(|p: (String, String)| (p.0@, p.1@))
    }

    /// Whether the native engine accepts this configuration: it holds a
    /// `group.id` entry whose value is non-empty.
    pub open spec fn accepted(self) -> bool {
        exists|i: int|
            0 <= i < self.view().len() && self.view()[i].0 == "group.id"@ && self.view()[
                i
            ].1.len() > 0
    }

    /// An empty configuration.
    pub fn new() -> (c: Self)
        ensures
            c.view() == Seq::<(Seq<char>, Seq<char>)>::empty(),
            !c.accepted(),
    {
        let c = KafkaConfig { entries: Vec::new() };
        proof {
            assert(c.view() =~= Seq::<(Seq<char>, Seq<char>)>::empty());
        }
        c
    }

    /// Appends one key/value entry.
    pub fn set(&mut self, key: &str, value: &str)
        ensures
            final(self).view() == old(self).view().push((key@, value@)),
    {
        let pair = (key.to_owned(), value.to_owned());
        self.entries.push(pair);
        proof {
            assert(self.view() =~= old(self).view().push((key@, value@)));
        }
    }

    /// Whether the engine accepts this configuration, decided exactly as
    /// [`Self::accepted`] states.
    pub fn is_accepted(&self) -> (r: bool)
        ensures
            r == self.accepted(),
    {
        let group_key: String = "group.id".to_owned();
        proof {
            reveal_strlit("group.id");
            assert(group_key@ =~= "group.id"@);
        }
        let mut i: usize = 0;
        let n = self.entries.len();
        while i < n
            invariant
                0 <= i <= n,
                n == self.entries@.len(),
                group_key@ == "group.id"@,
                forall|j: int|
                    0 <= j < i ==> !(self.view()[j].0 == "group.id"@ && self.view()[j].1.len() > 0),
            decreases n - i,
        {
            let entry = &self.entries[i];
            proof {
                assert(self.view()[i as int] == (self.entries@[i as int].0@, self.entries@[
                    i as int
                ].1@));
            }
            let matches_key = entry.0 == group_key;
            if matches_key && !entry.1.as_str().is_empty() {
                assert(self.view()[i as int].0 == "group.id"@);
                assert(self.view()[i as int].1.len() > 0);
                return true;
            }
            i = i + 1;
        }
        false
    }
}

} // verus!
