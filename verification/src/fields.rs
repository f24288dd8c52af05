//! String-keyed, string-valued field maps: the canonical record form that
//! both text parsers produce, one map per job.
//!
//! A map is a sequence of insertions viewed as a mathematical map in which
//! the latest insertion for a key wins.

use vstd::prelude::*;

use crate::text::str_eq;

verus! {

/// One job's fields, keyed by the scheduler's field names.
pub struct FieldMap {
    pairs: Vec<(String, String)>,
}

/// The map that a sequence of insertions denotes, the latest entry winning.
pub open spec fn pairs_map(ps: Seq<(String, String)>) -> Map<Seq<char>, Seq<char>>
    decreases ps.len(),
{
    if ps.len() == 0 {
        Map::empty()
    } else {
        pairs_map(ps.drop_last()).insert(ps.last().0@, ps.last().1@)
    }
}

impl View for FieldMap {
    type V = Map<Seq<char>, Seq<char>>;

    closed spec fn view(&self) -> Map<Seq<char>, Seq<char>> {
        pairs_map(self.pairs@)
    }
}

impl FieldMap {
    /// An empty record.
    pub fn new() -> (r: FieldMap)
        ensures
            r@ == Map::<Seq<char>, Seq<char>>::empty(),
    {
        let r = FieldMap { pairs: Vec::new() };
        proof {
            assert(r.pairs@ =~= Seq::<(String, String)>::empty());
        }
        r
    }

    /// Sets `key` to `value`, replacing any earlier value.
    pub fn insert(&mut self, key: &str, value: String)
        ensures
            final (self)@ == old(self)@.insert(key@, value@),
    {
        let pair = (key.to_owned(), value);
        let ghost pre = self.pairs@;
        self.pairs.push(pair);
        proof {
            assert(self.pairs@.drop_last() =~= pre);
        }
    }

    /// The value last inserted for `key`, if any.
    pub fn get<'a>(&'a self, key: &str) -> (r: Option<&'a String>)
        ensures
            match r {
                Some(v) => self@.contains_key(key@) && v@ == self@[key@],
                None => !self@.contains_key(key@),
            },
    {
        let mut j: usize = self.pairs.len();
        proof {
            assert(self.pairs@.take(j as int) =~= self.pairs@);
        }
        while j > 0
            invariant
                0 <= j <= self.pairs@.len(),
                self@.contains_key(key@) == pairs_map(self.pairs@.take(j as int)).contains_key(
                    key@,
                ),
                self@.contains_key(key@) ==> self@[key@] == pairs_map(
                    self.pairs@.take(j as int),
                )[key@],
            decreases j,
        {
            j = j - 1;
            if str_eq(self.pairs[j].0.as_str(), key) {
                proof {
                    assert(self.pairs@.take(j + 1).last() == self.pairs@[j as int]);
                    assert(pairs_map(self.pairs@.take(j + 1)).contains_key(key@));
                }
                return Some(&self.pairs[j].1);
            }
            proof {
                assert(self.pairs@.take(j + 1).drop_last() =~= self.pairs@.take(j as int));
                assert(self.pairs@.take(j + 1).last() == self.pairs@[j as int]);
            }
        }
        proof {
            assert(self.pairs@.take(0) =~= Seq::<(String, String)>::empty());
        }
        None
    }

    /// Whether `key` has a value.
    pub fn contains_key(&self, key: &str) -> (r: bool)
        ensures
            r == self@.contains_key(key@),
    {
        match self.get(key) {
            Some(_) => true,
            None => false,
        }
    }

    /// An identical copy of the record.
    pub fn duplicate(&self) -> (r: FieldMap)
        ensures
            r@ == self@,
    {
        let n: usize = self.pairs.len();
        let mut pairs: Vec<(String, String)> = Vec::new();
        let mut i: usize = 0;
        while i < n
            invariant
                0 <= i <= n,
                n == self.pairs@.len(),
                pairs@.len() == i,
                forall|k: int|
                    0 <= k < i ==> #[trigger] pairs@[k].0@ == self.pairs@[k].0@ && pairs@[k].1@
                        == self.pairs@[k].1@,
            decreases n - i,
        {
            let k = self.pairs[i].0.clone();
            let v = self.pairs[i].1.clone();
            pairs.push((k, v));
            i = i + 1;
        }
        let r = FieldMap { pairs };
        proof {
            lemma_pairs_map_congruence(r.pairs@, self.pairs@);
        }
        r
    }
}

/// Two insertion sequences with equal keys and values denote the same map.
proof fn lemma_pairs_map_congruence(a: Seq<(String, String)>, b: Seq<(String, String)>)
    requires
        a.len() == b.len(),
        forall|k: int| 0 <= k < a.len() ==> #[trigger] a[k].0@ == b[k].0@ && a[k].1@ == b[k].1@,
    ensures
        pairs_map(a) == pairs_map(b),
    decreases a.len(),
{
    if a.len() > 0 {
        lemma_pairs_map_congruence(a.drop_last(), b.drop_last());
        assert(a.last().0@ == b.last().0@ && a.last().1@ == b.last().1@);
        assert(pairs_map(a) =~= pairs_map(b));
    } else {
        assert(pairs_map(a) =~= pairs_map(b));
    }
}

} // verus!
