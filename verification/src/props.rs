use vstd::prelude::*;

verus! {

/// The values stored under key `k` among the (key, value) pairs `ps`,
/// in insertion order.
pub open spec fn pair_values(ps: Seq<(Seq<char>, Seq<char>)>, k: Seq<char>) -> Seq<Seq<char>>
    decreases ps.len(),
{
    if ps.len() == 0 {
        Seq::empty()
    } else {
        let rest = pair_values(ps.drop_last(), k);
        if ps.last().0 == k {
            rest.push(ps.last().1)
        } else {
            rest
        }
    }
}

/// The pairs of `ps` whose key is not `k`, keeping their order.
pub open spec fn pairs_without(
    ps: Seq<(Seq<char>, Seq<char>)>,
    k: Seq<char>,
) -> Seq<(Seq<char>, Seq<char>)>
    decreases ps.len(),
{
    if ps.len() == 0 {
        Seq::empty()
    } else {
        let rest = pairs_without(ps.drop_last(), k);
        if ps.last().0 == k {
            rest
        } else {
            rest.push(ps.last())
        }
    }
}

/// The view of a list of owned (key, value) pairs.
pub open spec fn pairs_view(ps: Seq<(String, String)>) -> Seq<(Seq<char>, Seq<char>)> {
    ps.map_values(|p: (String, String)| (p.0@, p.1@))
}

/// A value `v` stands under key `k` exactly when the pair (k, v) occurs.
pub proof fn lemma_pair_values_contains(
    ps: Seq<(Seq<char>, Seq<char>)>,
    k: Seq<char>,
    v: Seq<char>,
)
    ensures
        pair_values(ps, k).contains(v) <==> ps.contains((k, v)),
    decreases ps.len(),
{
    if ps.len() == 0 {
    } else {
        let p = ps.last();
        let rest = pair_values(ps.drop_last(), k);
        lemma_pair_values_contains(ps.drop_last(), k, v);
        assert(ps.contains((k, v)) <==> ps.drop_last().contains((k, v)) || p == (k, v)) by {
            if ps.contains((k, v)) {
                let i = choose|i: int| 0 <= i < ps.len() && ps[i] == (k, v);
                if i < ps.len() - 1 {
                    assert(ps.drop_last()[i] == (k, v));
                    assert(ps.drop_last().contains((k, v)));
                }
            }
            if ps.drop_last().contains((k, v)) {
                let i = choose|i: int|
                    0 <= i < ps.drop_last().len() && ps.drop_last()[i] == (k, v);
                assert(ps[i] == (k, v));
                assert(ps.contains((k, v)));
            }
            if p == (k, v) {
                assert(ps[ps.len() - 1] == (k, v));
                assert(ps.contains((k, v)));
            }
        }
        if p.0 == k {
            assert(pair_values(ps, k) == rest.push(p.1));
            assert(rest.push(p.1).contains(v) <==> rest.contains(v) || p.1 == v) by {
                if rest.push(p.1).contains(v) {
                    let j = choose|j: int|
                        0 <= j < rest.push(p.1).len() && rest.push(p.1)[j] == v;
                    if j < rest.len() {
                        assert(rest[j] == v);
                        assert(rest.contains(v));
                    }
                }
                if rest.contains(v) {
                    let j = choose|j: int| 0 <= j < rest.len() && rest[j] == v;
                    assert(rest.push(p.1)[j] == v);
                    assert(rest.push(p.1).contains(v));
                }
                assert(rest.push(p.1)[rest.len() as int] == p.1);
            }
            assert(p == (k, v) <==> p.1 == v);
        } else {
            assert(pair_values(ps, k) == rest);
            assert(p != (k, v));
        }
    }
}

/// Removing a key empties that key's values.
pub proof fn lemma_pairs_without_same(ps: Seq<(Seq<char>, Seq<char>)>, k: Seq<char>)
    ensures
        pair_values(pairs_without(ps, k), k) == Seq::<Seq<char>>::empty(),
    decreases ps.len(),
{
    if ps.len() == 0 {
    } else {
        lemma_pairs_without_same(ps.drop_last(), k);
        let rest = pairs_without(ps.drop_last(), k);
        if ps.last().0 != k {
            assert(pairs_without(ps, k) == rest.push(ps.last()));
            assert(rest.push(ps.last()).drop_last() =~= rest);
            assert(rest.push(ps.last()).last() == ps.last());
            assert(pair_values(rest.push(ps.last()), k) == pair_values(rest, k));
        }
    }
}

/// Removing a key leaves every other key's values unchanged.
pub proof fn lemma_pairs_without_other(
    ps: Seq<(Seq<char>, Seq<char>)>,
    k: Seq<char>,
    k2: Seq<char>,
)
    requires
        k2 != k,
    ensures
        pair_values(pairs_without(ps, k), k2) == pair_values(ps, k2),
    decreases ps.len(),
{
    if ps.len() == 0 {
    } else {
        lemma_pairs_without_other(ps.drop_last(), k, k2);
        let rest = pairs_without(ps.drop_last(), k);
        if ps.last().0 != k {
            assert(pairs_without(ps, k) == rest.push(ps.last()));
            assert(rest.push(ps.last()).drop_last() =~= rest);
            assert(rest.push(ps.last()).last() == ps.last());
            assert(pair_values(rest.push(ps.last()), k2) == if ps.last().0 == k2 {
                pair_values(rest, k2).push(ps.last().1)
            } else {
                pair_values(rest, k2)
            });
        }
    }
}

/// A property table for one entity: an ordered list of (key, value)
/// entries. A key maps to the sequence of values set under it, in the
/// order they were set; a key never set, or removed, maps to the empty
/// sequence rather than to an error.
pub struct PropTable {
    entries: Vec<(String, String)>,
}

impl PropTable {
    /// All (key, value) entries, as views, in insertion order.
    pub closed spec fn entries_view(self) -> Seq<(Seq<char>, Seq<char>)> {
        pairs_view(self.entries@)
    }

    /// The values under `k`, in the order they were set; empty when absent.
    pub open spec fn values_of(self, k: Seq<char>) -> Seq<Seq<char>> {
        pair_values(self.entries_view(), k)
    }

    /// An empty table.
    pub fn new() -> (t: PropTable)
        ensures
            t.entries_view() == Seq::<(Seq<char>, Seq<char>)>::empty(),
    {
        let t = PropTable { entries: Vec::new() };
        proof {
            assert(t.entries_view() =~= Seq::<(Seq<char>, Seq<char>)>::empty());
        }
        t
    }

    /// Appends `value` under `key`; earlier values of the key stay.
    pub fn set(&mut self, key: &String, value: &String)
        ensures
            final(self).entries_view() == old(self).entries_view().push((key@, value@)),
    {
        self.entries.push((key.clone(), value.clone()));
        proof {
            assert(final(self).entries_view() =~= old(self).entries_view().push(
                (key@, value@),
            ));
        }
    }

    /// The values under `key`, cloned, in order; empty when the key is absent.
    pub fn get(&self, key: &String) -> (r: Vec<String>)
        ensures
            r.deep_view() == self.values_of(key@),
    {
        let mut r: Vec<String> = Vec::new();
        let n = self.entries.len();
        let mut i: usize = 0;
        while i < n
            invariant
                n == self.entries.len(),
                i <= n,
                r.deep_view() == pair_values(pairs_view(self.entries@.take(i as int)), key@),
            decreases n - i,
        {
            let ghost pre = pairs_view(self.entries@.take(i as int));
            let ghost step = pairs_view(self.entries@.take(i + 1));
            proof {
                assert(step =~= pre.push((self.entries@[i as int].0@, self.entries@[i as int].1@)));
                assert(step.drop_last() =~= pre);
            }
            let ghost r_pre = r.deep_view();
            let e0 = &self.entries[i].0;
            if *e0 == *key {
                let v = self.entries[i].1.clone();
                r.push(v);
                proof {
                    assert(r.deep_view() =~= r_pre.push(self.entries@[i as int].1@));
                }
            }
            i += 1;
        }
        proof {
            assert(self.entries@.take(n as int) =~= self.entries@);
        }
        r
    }

    /// Deletes every value under `key`; a no-op when the key is absent.
    pub fn remove(&mut self, key: &String)
        ensures
            final(self).entries_view() == pairs_without(old(self).entries_view(), key@),
    {
        let mut kept: Vec<(String, String)> = Vec::new();
        let n = self.entries.len();
        let mut i: usize = 0;
        while i < n
            invariant
                n == self.entries.len(),
                *self == *old(self),
                i <= n,
                pairs_view(kept@) == pairs_without(
                    pairs_view(self.entries@.take(i as int)),
                    key@,
                ),
            decreases n - i,
        {
            let ghost pre = pairs_view(self.entries@.take(i as int));
            let ghost step = pairs_view(self.entries@.take(i + 1));
            proof {
                assert(step =~= pre.push((self.entries@[i as int].0@, self.entries@[i as int].1@)));
                assert(step.drop_last() =~= pre);
            }
            let ghost kept_pre = pairs_view(kept@);
            let e0 = &self.entries[i].0;
            if !(*e0 == *key) {
                let k = self.entries[i].0.clone();
                let v = self.entries[i].1.clone();
                kept.push((k, v));
                proof {
                    assert(pairs_view(kept@) =~= kept_pre.push(
                        (self.entries@[i as int].0@, self.entries@[i as int].1@),
                    ));
                }
            }
            i += 1;
        }
        proof {
            assert(self.entries@.take(n as int) =~= self.entries@);
        }
        self.entries = kept;
    }

    /// All (key, value) entries, cloned, in insertion order.
    pub fn pairs(&self) -> (r: Vec<(String, String)>)
        ensures
            pairs_view(r@) == self.entries_view(),
    {
        let mut r: Vec<(String, String)> = Vec::new();
        let n = self.entries.len();
        let mut i: usize = 0;
        while i < n
            invariant
                n == self.entries.len(),
                i <= n,
                pairs_view(r@) == pairs_view(self.entries@.take(i as int)),
            decreases n - i,
        {
            let ghost r_pre = pairs_view(r@);
            let k = self.entries[i].0.clone();
            let v = self.entries[i].1.clone();
            r.push((k, v));
            proof {
                assert(pairs_view(self.entries@.take(i + 1)) =~= r_pre.push(
                    (self.entries@[i as int].0@, self.entries@[i as int].1@),
                ));
                assert(pairs_view(r@) =~= r_pre.push(
                    (self.entries@[i as int].0@, self.entries@[i as int].1@),
                ));
            }
            i += 1;
        }
        proof {
            assert(self.entries@.take(n as int) =~= self.entries@);
        }
        r
    }
}

} // verus!
