//! A map from strings to strings, kept as a list of pairs.
use crate::text::same_text;
use vstd::prelude::*;
use vstd::string::*;

verus! {

/// The map that a list of pairs stands for: each pair binds its first string
/// to its second, and a later pair replaces an earlier one of the same first
/// string.
pub open spec fn bindings_of(pairs: Seq<(String, String)>) -> Map<Seq<char>, Seq<char>>
    decreases pairs.len(),
{
    if pairs.len() == 0 {
        Map::empty()
    } else {
        bindings_of(pairs.drop_last()).insert(pairs.last().0@, pairs.last().1@)
    }
}

/// Whether no two pairs have the same first string.
pub open spec fn distinct_keys(pairs: Seq<(String, String)>) -> bool {
    forall|i: int, j: int|
        0 <= i < j < pairs.len() ==> (#[trigger] pairs[i]).0@ != (#[trigger] pairs[j]).0@
}

/// The keys of the map of a list are the first strings of its pairs.
pub proof fn lemma_bindings_keys(pairs: Seq<(String, String)>, key: Seq<char>)
    ensures
        bindings_of(pairs).contains_key(key) <==> exists|i: int|
            0 <= i < pairs.len() && (#[trigger] pairs[i]).0@ == key,
        bindings_of(pairs).dom().finite(),
    decreases pairs.len(),
{
    if pairs.len() > 0 {
        let front = pairs.drop_last();
        lemma_bindings_keys(front, key);
        if bindings_of(pairs).contains_key(key) {
            if key == pairs.last().0@ {
                assert(pairs[pairs.len() - 1].0@ == key);
            } else {
                let i = choose|i: int| 0 <= i < front.len() && (#[trigger] front[i]).0@ == key;
                assert(pairs[i].0@ == key);
            }
        }
        if exists|i: int| 0 <= i < pairs.len() && (#[trigger] pairs[i]).0@ == key {
            let i = choose|i: int| 0 <= i < pairs.len() && (#[trigger] pairs[i]).0@ == key;
            if i < front.len() {
                assert(front[i].0@ == key);
            }
        }
    }
}

/// In a list without repeated keys each pair is a binding of its map, and
/// the map has as many bindings as the list has pairs.
pub proof fn lemma_bindings_distinct(pairs: Seq<(String, String)>)
    requires
        distinct_keys(pairs),
    ensures
        forall|i: int|
            0 <= i < pairs.len() ==> bindings_of(pairs).contains_key((#[trigger] pairs[i]).0@)
                && bindings_of(pairs)[pairs[i].0@] == pairs[i].1@,
        bindings_of(pairs).len() == pairs.len(),
    decreases pairs.len(),
{
    if pairs.len() > 0 {
        let front = pairs.drop_last();
        let last = pairs.last();
        assert forall|i: int, j: int| 0 <= i < j < front.len() implies (#[trigger] front[i]).0@
            != (#[trigger] front[j]).0@ by {
            assert(front[i] == pairs[i] && front[j] == pairs[j]);
        }
        lemma_bindings_distinct(front);
        lemma_bindings_keys(front, last.0@);
        if bindings_of(front).contains_key(last.0@) {
            let i = choose|i: int| 0 <= i < front.len() && (#[trigger] front[i]).0@ == last.0@;
            assert(pairs[i].0@ == pairs[pairs.len() - 1].0@);
        }
        assert forall|i: int| 0 <= i < pairs.len() implies bindings_of(pairs).contains_key(
            (#[trigger] pairs[i]).0@,
        ) && bindings_of(pairs)[pairs[i].0@] == pairs[i].1@ by {
            if i < front.len() {
                assert(front[i] == pairs[i]);
                assert(pairs[i].0@ != pairs[pairs.len() - 1].0@);
            }
        }
    }
}

/// Replacing the second string of a pair in a list without repeated keys
/// rebinds its key in the map.
pub proof fn lemma_bindings_update(
    pairs: Seq<(String, String)>,
    at: int,
    pair: (String, String),
)
    requires
        distinct_keys(pairs),
        0 <= at < pairs.len(),
        pair.0@ == pairs[at].0@,
    ensures
        distinct_keys(pairs.update(at, pair)),
        bindings_of(pairs.update(at, pair)) == bindings_of(pairs).insert(pair.0@, pair.1@),
    decreases pairs.len(),
{
    let updated = pairs.update(at, pair);
    assert forall|i: int, j: int| 0 <= i < j < updated.len() implies (#[trigger] updated[i]).0@
        != (#[trigger] updated[j]).0@ by {
        assert(updated[i].0@ == pairs[i].0@);
        assert(updated[j].0@ == pairs[j].0@);
    }
    let front = pairs.drop_last();
    if at == pairs.len() - 1 {
        assert(updated.drop_last() =~= front);
        assert(bindings_of(updated) =~= bindings_of(pairs).insert(pair.0@, pair.1@));
    } else {
        assert forall|i: int, j: int| 0 <= i < j < front.len() implies (#[trigger] front[i]).0@
            != (#[trigger] front[j]).0@ by {
            assert(front[i] == pairs[i] && front[j] == pairs[j]);
        }
        lemma_bindings_update(front, at, pair);
        assert(updated.drop_last() =~= front.update(at, pair));
        assert(updated.last() == pairs.last());
        assert(pairs[at].0@ != pairs[pairs.len() - 1].0@);
        assert(bindings_of(updated) =~= bindings_of(pairs).insert(pair.0@, pair.1@));
    }
}

/// A map from strings to strings. It keeps its bindings as a list of pairs,
/// each key once and in the order in which the keys came, so that a caller
/// can walk them and every fact about the map is proved.
pub struct StringMap {
    pairs: Vec<(String, String)>,
}

impl View for StringMap {
    type V = Map<Seq<char>, Seq<char>>;

    closed spec fn view(&self) -> Map<Seq<char>, Seq<char>> {
        bindings_of(self.pairs@)
    }
}

impl StringMap {
    #[verifier::type_invariant]
    spec fn keys_are_distinct(self) -> bool {
        distinct_keys(self.pairs@)
    }

    /// An empty map.
    pub fn new() -> (map: Self)
        ensures
            map@ == Map::<Seq<char>, Seq<char>>::empty(),
    {
        StringMap { pairs: Vec::new() }
    }

    /// The position of the pair with the key `key`.
    fn position(&self, key: &str) -> (at: Option<usize>)
        ensures
            match at {
                Some(i) => i < self.pairs.len() && self.pairs@[i as int].0@ == key@,
                None => forall|j: int| 0 <= j < self.pairs.len() ==> self.pairs@[j].0@ != key@,
            },
    {
        let mut i: usize = 0;
        while i < self.pairs.len()
            invariant
                i <= self.pairs.len(),
                forall|j: int| 0 <= j < i ==> self.pairs@[j].0@ != key@,
            decreases self.pairs.len() - i,
        {
            if same_text(self.pairs[i].0.as_str(), key) {
                return Some(i);
            }
            i += 1;
        }
        None
    }

    /// Binds `key` to `value`, and returns what `key` was bound to before.
    pub fn insert(&mut self, key: String, value: String) -> (before: Option<String>)
        ensures
            final(self)@ == old(self)@.insert(key@, value@),
            match before {
                Some(was) => old(self)@.contains_key(key@) && old(self)@[key@] == was@,
                None => !old(self)@.contains_key(key@),
            },
    {
        proof {
            use_type_invariant(&*self);
            lemma_bindings_distinct(self.pairs@);
            lemma_bindings_keys(self.pairs@, key@);
        }
        let at = self.position(key.as_str());
        let mut pairs: Vec<(String, String)> = Vec::new();
        core::mem::swap(&mut self.pairs, &mut pairs);
        let before = match at {
            Some(i) => {
                proof {
                    lemma_bindings_update(pairs@, i as int, (key, value));
                }
                let was = pairs.remove(i);
                pairs.insert(i, (key, value));
                proof {
                    assert(pairs@ =~= old(self).pairs@.update(i as int, (key, value)));
                }
                Some(was.1)
            },
            None => {
                pairs.push((key, value));
                proof {
                    assert(pairs@.drop_last() =~= old(self).pairs@);
                    assert forall|i: int, j: int| 0 <= i < j < pairs.len() implies (
                    #[trigger] pairs@[i]).0@ != (#[trigger] pairs@[j]).0@ by {
                        assert(pairs@[i] == old(self).pairs@[i]);
                        if j < pairs.len() - 1 {
                            assert(pairs@[j] == old(self).pairs@[j]);
                        }
                    }
                }
                None
            },
        };
        core::mem::swap(&mut self.pairs, &mut pairs);
        before
    }

    /// What `key` is bound to.
    pub fn get(&self, key: &str) -> (found: Option<&String>)
        ensures
            match found {
                Some(value) => self@.contains_key(key@) && self@[key@] == value@,
                None => !self@.contains_key(key@),
            },
    {
        proof {
            use_type_invariant(self);
            lemma_bindings_distinct(self.pairs@);
            lemma_bindings_keys(self.pairs@, key@);
        }
        match self.position(key) {
            Some(i) => Some(&self.pairs[i].1),
            None => None,
        }
    }

    /// Whether `key` is bound.
    pub fn contains_key(&self, key: &str) -> (found: bool)
        ensures
            found == self@.contains_key(key@),
    {
        self.get(key).is_some()
    }

    /// The number of bindings.
    pub fn len(&self) -> (count: usize)
        ensures
            count == self@.len(),
    {
        proof {
            use_type_invariant(self);
            lemma_bindings_distinct(self.pairs@);
        }
        self.pairs.len()
    }

    /// Whether the map has no binding.
    pub fn is_empty(&self) -> (empty: bool)
        ensures
            empty == (self@ == Map::<Seq<char>, Seq<char>>::empty()),
    {
        proof {
            use_type_invariant(self);
            lemma_bindings_distinct(self.pairs@);
            if self.pairs.len() > 0 {
                assert(self@.contains_key(self.pairs@[0].0@));
            }
        }
        self.pairs.len() == 0
    }

    /// The bindings as a list of pairs, each key once.
    pub fn pairs(&self) -> (pairs: &Vec<(String, String)>)
        ensures
            bindings_of(pairs@) == self@,
            distinct_keys(pairs@),
    {
        proof {
            use_type_invariant(self);
        }
        &self.pairs
    }

    /// The map of a list of pairs, in which a later pair replaces an earlier
    /// one of the same key.
    pub fn from_pairs(pairs: Vec<(String, String)>) -> (map: Self)
        ensures
            map@ == bindings_of(pairs@),
    {
        let mut map = StringMap::new();
        let mut pairs = pairs;
        let ghost all = pairs@;
        let mut rest: Vec<(String, String)> = Vec::new();
        while pairs.len() > 0
            invariant
                all == pairs@ + rest@.reverse(),
            decreases pairs.len(),
        {
            let pair = pairs.pop().unwrap();
            rest.push(pair);
            proof {
                assert(pairs@ + rest@.reverse() =~= all);
            }
        }
        let ghost mut done: Seq<(String, String)> = Seq::empty();
        proof {
            assert(done + rest@.reverse() =~= all);
        }
        while rest.len() > 0
            invariant
                all == done + rest@.reverse(),
                map@ == bindings_of(done),
            decreases rest.len(),
        {
            let ghost before = rest@;
            let pair = rest.pop().unwrap();
            proof {
                assert(done.push(pair).drop_last() =~= done);
                assert(done.push(pair) + rest@.reverse() =~= done + before.reverse());
                done = done.push(pair);
            }
            let (key, value) = pair;
            map.insert(key, value);
        }
        proof {
            assert(done =~= all);
        }
        map
    }
}

} // verus!
