//! A small string-keyed table kept as an association list with distinct
//! keys. It backs query parameters, headers, cookies, route parameters and
//! form fields: insertion order is kept (so rendering is deterministic) and
//! inserting an existing key overwrites its value, last write wins.

use vstd::prelude::*;
use crate::strutil::str_eq;

verus! {

pub struct Table {
    pub pairs: Vec<(String, String)>,
}

/// The table's entries as (key, value) views, in insertion order.
pub open spec fn entry_views(ps: Seq<(String, String)>) -> Seq<(Seq<char>, Seq<char>)> {
    ps.map_values(|p: (String, String)| (p.0@, p.1@))
}

/// The mapping an entry list denotes; a later entry would win.
pub open spec fn pairs_map(ps: Seq<(String, String)>) -> Map<Seq<char>, Seq<char>>
    decreases ps.len(),
{
    if ps.len() == 0 {
        Map::empty()
    } else {
        pairs_map(ps.drop_last()).insert(ps.last().0@, ps.last().1@)
    }
}

/// No two entries share a key.
pub open spec fn distinct_keys(ps: Seq<(String, String)>) -> bool {
    forall|i: int, j: int| 0 <= i < j < ps.len() ==> ps[i].0@ != ps[j].0@
}

/// What a key maps to, by scanning the entries.
pub proof fn lemma_pairs_map(ps: Seq<(String, String)>)
    ensures
        forall|k: Seq<char>|
            #[trigger] pairs_map(ps).contains_key(k) <==> exists|i: int|
                0 <= i < ps.len() && ps[i].0@ == k,
        distinct_keys(ps) ==> forall|i: int|
            0 <= i < ps.len() ==> pairs_map(ps)[#[trigger] ps[i].0@] == ps[i].1@,
    decreases ps.len(),
{
    if ps.len() > 0 {
        lemma_pairs_map(ps.drop_last());
        assert forall|k: Seq<char>| #[trigger]
            pairs_map(ps).contains_key(k) implies exists|i: int|
            0 <= i < ps.len() && ps[i].0@ == k by {
            if k == ps.last().0@ {
                assert(ps[ps.len() - 1].0@ == k);
            } else {
                assert(pairs_map(ps.drop_last()).contains_key(k));
                let i = choose|i: int|
                    0 <= i < ps.drop_last().len() && ps.drop_last()[i].0@ == k;
                assert(ps.drop_last()[i] == ps[i]);
                assert(ps[i].0@ == k);
            }
        }
        assert forall|k: Seq<char>|
            exists|i: int| 0 <= i < ps.len() && ps[i].0@ == k implies #[trigger] pairs_map(
            ps,
        ).contains_key(k) by {
            let i = choose|i: int| 0 <= i < ps.len() && ps[i].0@ == k;
            if i < ps.len() - 1 {
                assert(ps.drop_last()[i] == ps[i]);
                assert(ps.drop_last()[i].0@ == k);
                assert(pairs_map(ps.drop_last()).contains_key(k));
            } else {
                assert(ps.last().0@ == k);
            }
        }
        if distinct_keys(ps) {
            assert(distinct_keys(ps.drop_last())) by {
                assert(forall|i: int, j: int|
                    0 <= i < j < ps.len() - 1 ==> ps.drop_last()[i].0@ != ps.drop_last()[j].0@);
            }
            assert forall|i: int| 0 <= i < ps.len() implies pairs_map(ps)[#[trigger] ps[i].0@]
                == ps[i].1@ by {
                if i < ps.len() - 1 {
                    assert(ps[i].0@ != ps.last().0@);
                    assert(ps.drop_last()[i].0@ == ps[i].0@);
                }
            }
        }
    }
}

impl View for Table {
    type V = Map<Seq<char>, Seq<char>>;

    open spec fn view(&self) -> Map<Seq<char>, Seq<char>> {
        pairs_map(self.pairs@)
    }
}

impl Table {
    /// The internal entry list is the table's well-formedness witness.
    pub open spec fn wf(&self) -> bool {
        distinct_keys(self.pairs@)
    }

    /// The entries in insertion order.
    pub open spec fn entries(&self) -> Seq<(Seq<char>, Seq<char>)> {
        entry_views(self.pairs@)
    }

    pub fn new() -> (r: Table)
        ensures
            r.wf(),
            r@ == Map::<Seq<char>, Seq<char>>::empty(),
            r.entries() == Seq::<(Seq<char>, Seq<char>)>::empty(),
    {
        let r = Table { pairs: Vec::new() };
        proof {
            assert(r.entries() =~= Seq::<(Seq<char>, Seq<char>)>::empty());
        }
        r
    }

    /// Position of `key` among the entries, if present.
    fn position_of(&self, key: &str) -> (r: Option<usize>)
        ensures
            match r {
                Some(i) => i < self.pairs@.len() && self.pairs@[i as int].0@ == key@,
                None => forall|i: int| 0 <= i < self.pairs@.len() ==> self.pairs@[i].0@ != key@,
            },
    {
        let n = self.pairs.len();
        let mut i: usize = 0;
        while i < n
            invariant
                i <= n,
                n == self.pairs@.len(),
                forall|j: int| 0 <= j < i ==> self.pairs@[j].0@ != key@,
            decreases n - i,
        {
            if str_eq(self.pairs[i].0.as_str(), key) {
                return Some(i);
            }
            i = i + 1;
        }
        None
    }

    /// Insert or overwrite; last write wins, first insertion fixes the
    /// entry's position.
    pub fn insert(&mut self, key: String, value: String)
        requires
            old(self).wf(),
        ensures
            final(self).wf(),
            final(self)@ == old(self)@.insert(key@, value@),
            final(self).entries() == if old(self)@.contains_key(key@) {
                old(self).entries().update(
                    (choose|i: int|
                        0 <= i < old(self).entries().len() && old(self).entries()[i].0 == key@),
                    (key@, value@),
                )
            } else {
                old(self).entries().push((key@, value@))
            },
    {
        proof {
            lemma_pairs_map(self.pairs@);
        }
        match self.position_of(key.as_str()) {
            Some(i) => {
                let ghost ops = self.pairs@;
                self.pairs[i] = (key, value);
                proof {
                    lemma_pairs_map_update(ops, i as int, (key, value));
                    assert(ops[i as int].0@ == key@);
                    assert(old(self)@.contains_key(key@));
                    assert(old(self).entries()[i as int].0 == key@);
                    let w = choose|w: int|
                        0 <= w < old(self).entries().len() && old(self).entries()[w].0 == key@;
                    assert(old(self).entries()[w] == (ops[w].0@, ops[w].1@));
                    assert(ops[w].0@ == key@);
                    assert(w == i as int);
                    assert(final(self).entries() =~= old(self).entries().update(
                        i as int,
                        (key@, value@),
                    ));
                }
            },
            None => {
                let ghost ops = self.pairs@;
                self.pairs.push((key, value));
                proof {
                    assert(self.pairs@.drop_last() =~= ops);
                    assert(final(self).entries() =~= old(self).entries().push((key@, value@)));
                    lemma_pairs_map(ops);
                    assert(!old(self)@.contains_key(key@));
                }
            },
        }
    }

    /// Look a key up.
    pub fn get(&self, key: &str) -> (r: Option<&String>)
        requires
            self.wf(),
        ensures
            match r {
                Some(v) => self@.contains_key(key@) && v@ == self@[key@],
                None => !self@.contains_key(key@),
            },
    {
        proof {
            lemma_pairs_map(self.pairs@);
        }
        match self.position_of(key) {
            Some(i) => Some(&self.pairs[i].1),
            None => None,
        }
    }

    pub fn contains_key(&self, key: &str) -> (r: bool)
        requires
            self.wf(),
        ensures
            r == self@.contains_key(key@),
    {
        proof {
            lemma_pairs_map(self.pairs@);
        }
        match self.position_of(key) {
            Some(_) => true,
            None => false,
        }
    }

    /// How many entries the table holds.
    pub fn count(&self) -> (r: usize)
        ensures
            r == self.entries().len(),
    {
        self.pairs.len()
    }

    /// The entry at a position, for iteration.
    pub fn pair_at(&self, i: usize) -> (r: (&String, &String))
        requires
            i < self.entries().len(),
        ensures
            r.0@ == self.entries()[i as int].0,
            r.1@ == self.entries()[i as int].1,
    {
        (&self.pairs[i].0, &self.pairs[i].1)
    }
}

/// Updating the entry that holds `key` updates the mapping at `key`.
proof fn lemma_pairs_map_update(ps: Seq<(String, String)>, i: int, p: (String, String))
    requires
        distinct_keys(ps),
        0 <= i < ps.len(),
        ps[i].0@ == p.0@,
    ensures
        distinct_keys(ps.update(i, p)),
        pairs_map(ps.update(i, p)) == pairs_map(ps).insert(p.0@, p.1@),
    decreases ps.len(),
{
    let up = ps.update(i, p);
    assert(distinct_keys(up)) by {
        assert(forall|a: int| 0 <= a < ps.len() && a != i ==> up[a] == ps[a]);
        assert(up[i].0@ == ps[i].0@);
    }
    if i == ps.len() - 1 {
        assert(up.drop_last() =~= ps.drop_last());
        assert(pairs_map(up) == pairs_map(ps.drop_last()).insert(p.0@, p.1@));
        assert(pairs_map(ps) == pairs_map(ps.drop_last()).insert(ps.last().0@, ps.last().1@));
        assert(pairs_map(ps).insert(p.0@, p.1@) =~= pairs_map(ps.drop_last()).insert(
            p.0@,
            p.1@,
        ));
    } else {
        assert(distinct_keys(ps.drop_last())) by {
            assert(forall|a: int, b: int|
                0 <= a < b < ps.len() - 1 ==> ps.drop_last()[a].0@ != ps.drop_last()[b].0@);
        }
        assert(ps.drop_last()[i].0@ == p.0@);
        lemma_pairs_map_update(ps.drop_last(), i, p);
        assert(up.drop_last() =~= ps.drop_last().update(i, p));
        assert(up.last() == ps.last());
        assert(pairs_map(up) == pairs_map(ps.drop_last()).insert(p.0@, p.1@).insert(
            ps.last().0@,
            ps.last().1@,
        ));
        assert(ps.last().0@ != p.0@);
        assert(pairs_map(ps.drop_last()).insert(p.0@, p.1@).insert(ps.last().0@, ps.last().1@)
            =~= pairs_map(ps.drop_last()).insert(ps.last().0@, ps.last().1@).insert(
            p.0@,
            p.1@,
        ));
    }
}

} // verus!
