//! The dictionary that several chunk kinds carry, and its decoder.

use crate::error::ParseError;
use crate::grammar::{
    lemma_dict_never_empty, lemma_entry_consumes, spec_dict, spec_entries, spec_entry,
};
use crate::wire::{from_utf8_lossy, length_data};
use vstd::prelude::*;
use vstd::slice::slice_to_vec;

verus! {

/// A mapping from text keys to opaque byte values.
///
/// The pairs are kept in the order in which their keys first arrived; no key
/// is held twice.
#[derive(Debug)]
pub struct Dictionary {
    entries: Vec<(String, Vec<u8>)>,
}

/// The mapping that a list of pairs builds up, later pairs winning.
pub open spec fn pairs_map(pairs: Seq<(String, Vec<u8>)>) -> Map<Seq<char>, Seq<u8>>
    decreases pairs.len(),
{
    if pairs.len() == 0 {
        Map::empty()
    } else {
        pairs_map(pairs.drop_last()).insert(pairs.last().0@, pairs.last().1@)
    }
}

/// No two pairs share a key.
pub open spec fn keys_distinct(pairs: Seq<(String, Vec<u8>)>) -> bool {
    forall|i: int, j: int| 0 <= i < j < pairs.len() ==> pairs[i].0@ != pairs[j].0@
}

/// The keys of the mapping are the keys of the pairs.
proof fn lemma_pairs_map_dom(pairs: Seq<(String, Vec<u8>)>)
    ensures
        forall|k: Seq<char>| #[trigger]
            pairs_map(pairs).contains_key(k) <==> exists|i: int|
                0 <= i < pairs.len() && #[trigger] pairs[i].0@ == k,
    decreases pairs.len(),
{
    if pairs.len() > 0 {
        let front = pairs.drop_last();
        let last = pairs.len() - 1;
        lemma_pairs_map_dom(front);
        assert forall|k: Seq<char>| #[trigger]
            pairs_map(pairs).contains_key(k) <==> exists|i: int|
                0 <= i < pairs.len() && #[trigger] pairs[i].0@ == k by {
            if pairs_map(pairs).contains_key(k) {
                if k == pairs[last].0@ {
                } else {
                    assert(pairs_map(front).contains_key(k));
                    let i = choose|i: int| 0 <= i < front.len() && #[trigger] front[i].0@ == k;
                    assert(front[i] == pairs[i]);
                    assert(pairs[i].0@ == k);
                }
            }
            if exists|i: int| 0 <= i < pairs.len() && #[trigger] pairs[i].0@ == k {
                let i = choose|i: int| 0 <= i < pairs.len() && #[trigger] pairs[i].0@ == k;
                if i < last {
                    assert(front[i] == pairs[i]);
                    assert(front[i].0@ == k);
                    assert(pairs_map(front).contains_key(k));
                }
            }
        }
    }
}

/// Where keys are distinct, each pair is found in the mapping as it stands
/// in the list.
proof fn lemma_pairs_map_value(pairs: Seq<(String, Vec<u8>)>, i: int)
    requires
        keys_distinct(pairs),
        0 <= i < pairs.len(),
    ensures
        pairs_map(pairs).contains_key(pairs[i].0@),
        pairs_map(pairs)[pairs[i].0@] == pairs[i].1@,
    decreases pairs.len(),
{
    if i < pairs.len() - 1 {
        let front = pairs.drop_last();
        assert(keys_distinct(front)) by {
            assert forall|a: int, b: int| 0 <= a < b < front.len() implies front[a].0@
                != front[b].0@ by {
                assert(pairs[a].0@ != pairs[b].0@);
            }
        }
        lemma_pairs_map_value(front, i);
        assert(pairs[i].0@ != pairs[pairs.len() - 1].0@);
    }
}

/// Replacing the value of the pair at `i`, under an equal key, is an insert
/// into the mapping.
proof fn lemma_pairs_map_update(pairs: Seq<(String, Vec<u8>)>, i: int, pair: (String, Vec<u8>))
    requires
        keys_distinct(pairs),
        0 <= i < pairs.len(),
        pair.0@ == pairs[i].0@,
    ensures
        keys_distinct(pairs.update(i, pair)),
        pairs_map(pairs.update(i, pair)) == pairs_map(pairs).insert(pair.0@, pair.1@),
    decreases pairs.len(),
{
    let after = pairs.update(i, pair);
    assert(keys_distinct(after)) by {
        assert forall|a: int, b: int| 0 <= a < b < after.len() implies after[a].0@
            != after[b].0@ by {
            assert(pairs[a].0@ != pairs[b].0@);
        }
    }
    let front = pairs.drop_last();
    if i == pairs.len() - 1 {
        assert(after.drop_last() == front);
        assert(pairs_map(after) == pairs_map(pairs).insert(pair.0@, pair.1@));
    } else {
        assert(keys_distinct(front)) by {
            assert forall|a: int, b: int| 0 <= a < b < front.len() implies front[a].0@
                != front[b].0@ by {
                assert(pairs[a].0@ != pairs[b].0@);
            }
        }
        lemma_pairs_map_update(front, i, pair);
        assert(after.drop_last() == front.update(i, pair));
        assert(after.last() == pairs.last());
        assert(pairs[i].0@ != pairs[pairs.len() - 1].0@);
        assert(pairs_map(after) == pairs_map(pairs).insert(pair.0@, pair.1@));
    }
}

/// Where keys are distinct, the mapping has as many keys as the list has
/// pairs.
proof fn lemma_pairs_map_len(pairs: Seq<(String, Vec<u8>)>)
    requires
        keys_distinct(pairs),
    ensures
        pairs_map(pairs).dom().finite(),
        pairs_map(pairs).dom().len() == pairs.len(),
    decreases pairs.len(),
{
    if pairs.len() > 0 {
        let front = pairs.drop_last();
        assert(keys_distinct(front)) by {
            assert forall|a: int, b: int| 0 <= a < b < front.len() implies front[a].0@
                != front[b].0@ by {
                assert(pairs[a].0@ != pairs[b].0@);
            }
        }
        lemma_pairs_map_len(front);
        lemma_pairs_map_dom(front);
        assert(!pairs_map(front).contains_key(pairs.last().0@)) by {
            if pairs_map(front).contains_key(pairs.last().0@) {
                let i = choose|i: int|
                    0 <= i < front.len() && #[trigger] front[i].0@ == pairs.last().0@;
                assert(pairs[i].0@ != pairs[pairs.len() - 1].0@);
            }
        }
        assert(pairs_map(pairs).dom() == pairs_map(front).dom().insert(pairs.last().0@));
    }
}

impl View for Dictionary {
    type V = Map<Seq<char>, Seq<u8>>;

    /// The mapping that this dictionary stands for.
    closed spec fn view(&self) -> Map<Seq<char>, Seq<u8>> {
        pairs_map(self.entries@)
    }
}

impl Dictionary {
    #[verifier::type_invariant]
    spec fn well_formed(&self) -> bool {
        keys_distinct(self.entries@)
    }

    /// A dictionary with no entries.
    pub fn new() -> (d: Dictionary)
        ensures
            d@ == Map::<Seq<char>, Seq<u8>>::empty(),
    {
        Dictionary { entries: Vec::new() }
    }

    /// Writes `value` under `key`, replacing what was there.
    pub fn insert(&mut self, key: String, value: Vec<u8>)
        ensures
            final(self)@ == old(self)@.insert(key@, value@),
    {
        proof {
            use_type_invariant(&*self);
        }
        let mut entries: Vec<(String, Vec<u8>)> = Vec::new();
        std::mem::swap(&mut self.entries, &mut entries);
        let n: usize = entries.len();
        let mut i: usize = 0;
        while i < n && !(entries[i].0 == key)
            invariant
                i <= n,
                n == entries@.len(),
                forall|j: int| 0 <= j < i ==> entries@[j].0@ != key@,
            decreases n - i,
        {
            i += 1;
        }
        if i < n {
            proof {
                lemma_pairs_map_update(entries@, i as int, (key, value));
            }
            entries.set(i, (key, value));
        } else {
            proof {
                assert(entries@.push((key, value)).drop_last() == entries@);
            }
            entries.push((key, value));
        }
        std::mem::swap(&mut self.entries, &mut entries);
    }

    /// The value written under `key`, if there is one.
    pub fn get(&self, key: &str) -> (r: Option<&Vec<u8>>)
        ensures
            match r {
                Some(value) => self@.contains_key(key@) && value@ == self@[key@],
                None => !self@.contains_key(key@),
            },
    {
        proof {
            use_type_invariant(self);
            lemma_pairs_map_dom(self.entries@);
        }
        let wanted: String = key.to_owned();
        let n: usize = self.entries.len();
        let mut i: usize = 0;
        while i < n
            invariant
                i <= n,
                n == self.entries@.len(),
                wanted@ == key@,
                forall|j: int| 0 <= j < i ==> self.entries@[j].0@ != key@,
            decreases n - i,
        {
            if self.entries[i].0 == wanted {
                proof {
                    use_type_invariant(self);
                    lemma_pairs_map_value(self.entries@, i as int);
                }
                return Some(&self.entries[i].1);
            }
            i += 1;
        }
        None
    }

    /// The pairs of the dictionary, each key once, in the order in which the
    /// keys first arrived.
    pub fn entries(&self) -> (pairs: &Vec<(String, Vec<u8>)>)
        ensures
            keys_distinct(pairs@),
            pairs_map(pairs@) == self@,
    {
        proof {
            use_type_invariant(self);
        }
        &self.entries
    }

    /// How many keys the dictionary holds.
    pub fn len(&self) -> (n: usize)
        ensures
            self@.dom().finite(),
            n == self@.dom().len(),
    {
        proof {
            use_type_invariant(self);
            lemma_pairs_map_len(self.entries@);
        }
        self.entries.len()
    }
}

/// Reads one dictionary entry from the front of `input`.
///
/// `None` means that no entry stands there: the key length is zero, or a
/// declared length runs past the end of the input. This is how a dictionary
/// ends, and no error.
pub fn entry(input: &[u8]) -> (r: Option<(&[u8], String, Vec<u8>)>)
    ensures
        spec_entry(input@) == (match r {
            Some((rest, key, value)) => Some((rest@, key@, value@)),
            None => None,
        }),
{
    let (after_key, key) = match length_data(input) {
        Ok(found) => found,
        Err(_) => {
            return None;
        },
    };
    if key.len() == 0 {
        return None;
    }
    let (rest, value) = match length_data(after_key) {
        Ok(found) => found,
        Err(_) => {
            return None;
        },
    };
    Some((rest, from_utf8_lossy(key), slice_to_vec(value)))
}

/// Reads entries until none is left and collects them.
///
/// At least one entry must be there. The bytes at which the reading stopped
/// are handed back unread.
pub fn dict(input: &[u8]) -> (r: Result<(&[u8], Dictionary), ParseError>)
    ensures
        spec_dict(input@) == (match r {
            Ok((rest, found)) => Ok((rest@, found@)),
            Err(e) => Err(e),
        }),
        r matches Ok((_, found)) ==> found@.dom().finite() && found@.dom().len() >= 1,
{
    proof {
        lemma_dict_never_empty(input@);
    }
    let mut found = Dictionary::new();
    let mut cur = input;
    match entry(cur) {
        Some((rest, key, value)) => {
            found.insert(key, value);
            cur = rest;
        },
        None => {
            return Err(ParseError::EmptyDictionary);
        },
    }
    loop
        invariant
            spec_entry(input@) is Some,
            spec_entries(input@, Map::empty()) == spec_entries(cur@, found@),
            spec_dict(input@) matches Ok((_, m)) ==> m.dom().finite() && m.dom().len() >= 1,
        decreases cur@.len(),
    {
        match entry(cur) {
            Some((rest, key, value)) => {
                proof {
                    lemma_entry_consumes(cur@);
                }
                found.insert(key, value);
                cur = rest;
            },
            None => {
                return Ok((cur, found));
            },
        }
    }
}

} // verus!
