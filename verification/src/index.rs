use vstd::prelude::*;
use crate::seqs::ascending;
use crate::seqs::lemma_insert_contains;
use crate::seqs::lemma_push_contains;
use crate::seqs::lemma_seq_remove_ascending;
use crate::seqs::lemma_seq_remove_contains;
use crate::seqs::lemma_seq_remove_no_dup;
use crate::seqs::seq_remove_u64;

verus! {

/// One (key, value) pair of the reverse index, with the identifiers of
/// the entities that hold this value under this key.
pub struct IdxRow {
    pub key: String,
    pub value: String,
    pub owners: Vec<u64>,
}

/// A reverse index: (property key, property value) -> owner identifiers.
pub struct IndexTable {
    rows: Vec<IdxRow>,
}

/// The owners recorded in `rows` under the pair (k, v); empty when absent.
pub open spec fn rows_owners(rows: Seq<IdxRow>, k: Seq<char>, v: Seq<char>) -> Seq<u64>
    decreases rows.len(),
{
    if rows.len() == 0 {
        Seq::empty()
    } else if rows[0].key@ == k && rows[0].value@ == v {
        rows[0].owners@
    } else {
        rows_owners(rows.drop_first(), k, v)
    }
}

/// Each (key, value) pair has at most one row, and every owner list is
/// strictly ascending (so an identifier is recorded at most once).
pub open spec fn rows_wf(rows: Seq<IdxRow>) -> bool {
    (forall|i: int, j: int|
        0 <= i < j < rows.len() ==> !(#[trigger] rows[i].key@ == #[trigger] rows[j].key@
            && rows[i].value@ == rows[j].value@)) && (forall|i: int|
        0 <= i < rows.len() ==> (#[trigger] rows[i].owners@).no_duplicates()) && (forall|i: int|
        0 <= i < rows.len() ==> ascending((#[trigger] rows[i]).owners@))
}

/// The owners under a pair are those of its unique matching row.
proof fn lemma_rows_owners_at(rows: Seq<IdxRow>, k: Seq<char>, v: Seq<char>, i: int)
    requires
        0 <= i < rows.len(),
        forall|j: int| 0 <= j < i ==> !(#[trigger] rows[j].key@ == k && rows[j].value@ == v),
        rows[i].key@ == k,
        rows[i].value@ == v,
    ensures
        rows_owners(rows, k, v) == rows[i].owners@,
    decreases i,
{
    if i > 0 {
        assert(rows.drop_first()[i - 1] == rows[i]);
        assert(forall|j: int|
            0 <= j < i - 1 ==> rows.drop_first()[j] == rows[j + 1]);
        lemma_rows_owners_at(rows.drop_first(), k, v, i - 1);
    }
}

/// A pair matched by no row has no owners.
proof fn lemma_rows_owners_absent(rows: Seq<IdxRow>, k: Seq<char>, v: Seq<char>)
    requires
        forall|j: int|
            0 <= j < rows.len() ==> !(#[trigger] rows[j].key@ == k && rows[j].value@ == v),
    ensures
        rows_owners(rows, k, v) == Seq::<u64>::empty(),
    decreases rows.len(),
{
    if rows.len() > 0 {
        assert(forall|j: int|
            0 <= j < rows.len() - 1 ==> rows.drop_first()[j] == rows[j + 1]);
        lemma_rows_owners_absent(rows.drop_first(), k, v);
    }
}

/// Replacing a row in place, keeping its pair, changes no other pair.
proof fn lemma_rows_owners_update_other(
    rows: Seq<IdxRow>,
    i: int,
    row2: IdxRow,
    k: Seq<char>,
    v: Seq<char>,
)
    requires
        0 <= i < rows.len(),
        row2.key@ == rows[i].key@,
        row2.value@ == rows[i].value@,
        !(rows[i].key@ == k && rows[i].value@ == v),
    ensures
        rows_owners(rows.update(i, row2), k, v) == rows_owners(rows, k, v),
    decreases i,
{
    let rows2 = rows.update(i, row2);
    if i == 0 {
        assert(rows2.drop_first() =~= rows.drop_first());
    } else {
        assert(rows2[0] == rows[0]);
        if rows[0].key@ == k && rows[0].value@ == v {
        } else {
            assert(rows2.drop_first() =~= rows.drop_first().update(i - 1, row2));
            assert(rows.drop_first()[i - 1] == rows[i]);
            lemma_rows_owners_update_other(rows.drop_first(), i - 1, row2, k, v);
        }
    }
}

/// Appending a row leaves every other pair's owners unchanged.
proof fn lemma_rows_owners_push_other(rows: Seq<IdxRow>, row: IdxRow, k: Seq<char>, v: Seq<char>)
    requires
        !(row.key@ == k && row.value@ == v),
    ensures
        rows_owners(rows.push(row), k, v) == rows_owners(rows, k, v),
    decreases rows.len(),
{
    let ext = rows.push(row);
    assert(ext.len() == rows.len() + 1);
    if rows.len() == 0 {
        assert(ext[0] == row);
        assert(!(ext[0].key@ == k && ext[0].value@ == v));
        assert(ext.drop_first() =~= Seq::<IdxRow>::empty());
        assert(rows_owners(ext, k, v) == rows_owners(ext.drop_first(), k, v));
        assert(rows_owners(ext.drop_first(), k, v) == Seq::<u64>::empty());
        assert(rows_owners(rows, k, v) == Seq::<u64>::empty());
    } else {
        assert(ext[0] == rows[0]);
        if rows[0].key@ == k && rows[0].value@ == v {
            assert(rows_owners(ext, k, v) == ext[0].owners@);
            assert(rows_owners(rows, k, v) == rows[0].owners@);
        } else {
            assert(ext.drop_first() =~= rows.drop_first().push(row));
            lemma_rows_owners_push_other(rows.drop_first(), row, k, v);
            assert(rows_owners(ext, k, v) == rows_owners(ext.drop_first(), k, v));
            assert(rows_owners(rows, k, v) == rows_owners(rows.drop_first(), k, v));
        }
    }
}

/// True when `x` occurs in `v`.
fn contains_u64(v: &Vec<u64>, x: u64) -> (r: bool)
    ensures
        r == v@.contains(x),
{
    let n = v.len();
    let mut i: usize = 0;
    while i < n
        invariant
            n == v.len(),
            i <= n,
            forall|j: int| 0 <= j < i ==> v@[j] != x,
        decreases n - i,
    {
        if v[i] == x {
            return true;
        }
        i += 1;
    }
    proof {
        if v@.contains(x) {
            let j = choose|j: int| 0 <= j < v@.len() && v@[j] == x;
            assert(v@[j] != x);
        }
    }
    false
}

impl IndexTable {
    /// The identifiers recorded under (k, v); empty when the pair is absent.
    pub closed spec fn owners_of(self, k: Seq<char>, v: Seq<char>) -> Seq<u64> {
        rows_owners(self.rows@, k, v)
    }

    /// `o` is recorded as an owner of the pair (k, v).
    pub open spec fn has_owner(self, k: Seq<char>, v: Seq<char>, o: u64) -> bool {
        self.owners_of(k, v).contains(o)
    }

    pub closed spec fn wf(self) -> bool {
        rows_wf(self.rows@)
    }

    /// An empty index.
    pub fn new() -> (t: IndexTable)
        ensures
            t.wf(),
            forall|k: Seq<char>, v: Seq<char>| #[trigger] t.owners_of(k, v) == Seq::<u64>::empty(),
    {
        let t = IndexTable { rows: Vec::new() };
        proof {
            assert forall|k: Seq<char>, v: Seq<char>| #[trigger] t.owners_of(k, v) == Seq::<
                u64,
            >::empty() by {
                lemma_rows_owners_absent(t.rows@, k, v);
            }
        }
        t
    }

    /// Finds the row of (key, value), if any.
    fn find_row(&self, key: &String, value: &String) -> (r: Option<usize>)
        ensures
            match r {
                Some(i) => i < self.rows@.len() && self.rows@[i as int].key@ == key@
                    && self.rows@[i as int].value@ == value@ && forall|j: int|
                    0 <= j < i ==> !(#[trigger] self.rows@[j].key@ == key@
                        && self.rows@[j].value@ == value@),
                None => forall|j: int|
                    0 <= j < self.rows@.len() ==> !(#[trigger] self.rows@[j].key@ == key@
                        && self.rows@[j].value@ == value@),
            },
    {
        let n = self.rows.len();
        let mut i: usize = 0;
        while i < n
            invariant
                n == self.rows.len(),
                i <= n,
                forall|j: int|
                    0 <= j < i ==> !(#[trigger] self.rows@[j].key@ == key@
                        && self.rows@[j].value@ == value@),
            decreases n - i,
        {
            let row = &self.rows[i];
            if row.key == *key && row.value == *value {
                return Some(i);
            }
            i += 1;
        }
        None
    }

    /// Records `owner` under (key, value); a no-op when already recorded.
    pub fn insert(&mut self, owner: u64, key: &String, value: &String)
        requires
            old(self).wf(),
        ensures
            final(self).wf(),
            forall|k: Seq<char>, v: Seq<char>, o: u64|
                #[trigger] final(self).has_owner(k, v, o) <==> old(self).has_owner(k, v, o) || (k
                    == key@ && v == value@ && o == owner),
    {
        let found = self.find_row(key, value);
        match found {
            Some(i) => {
                let ghost rows0 = self.rows@;
                let mut row = self.rows.remove(i);
                let ghost owners0 = row.owners@;
                let already = contains_u64(&row.owners, owner);
                let mut p: usize = 0;
                if !already {
                    let no = row.owners.len();
                    while p < no && row.owners[p] < owner
                        invariant
                            no == row.owners.len(),
                            row.owners@ == owners0,
                            p <= no,
                            forall|q: int| 0 <= q < p ==> owners0[q] < owner,
                        decreases no - p,
                    {
                        p += 1;
                    }
                    proof {
                        assert(ascending(owners0));
                        if (p as int) < owners0.len() {
                            assert(owners0[p as int] != owner) by {
                                if owners0[p as int] == owner {
                                    assert(owners0.contains(owner));
                                }
                            }
                            assert(owners0[p as int] > owner);
                        }
                    }
                    row.owners.insert(p, owner);
                    proof {
                        let ow1 = row.owners@;
                        let pi = p as int;
                        assert(ow1 == owners0.insert(pi, owner));
                        assert forall|a: int, b: int| 0 <= a < b < ow1.len() implies ow1[a]
                            < ow1[b] by {
                            if b < pi {
                                assert(ow1[a] == owners0[a]);
                                assert(ow1[b] == owners0[b]);
                            } else if b == pi {
                                assert(ow1[a] == owners0[a]);
                                assert(ow1[b] == owner);
                            } else {
                                assert(ow1[b] == owners0[b - 1]);
                                assert(owners0[pi] > owner);
                                if pi < b - 1 {
                                    assert(owners0[pi] < owners0[b - 1]);
                                }
                                if a < pi {
                                    assert(ow1[a] == owners0[a]);
                                } else if a == pi {
                                    assert(ow1[a] == owner);
                                } else {
                                    assert(ow1[a] == owners0[a - 1]);
                                }
                            }
                        }
                        assert(ascending(ow1));
                        assert(ow1.no_duplicates()) by {
                            assert forall|a: int, b: int|
                                0 <= a < ow1.len() && 0 <= b < ow1.len() && a != b implies ow1[a]
                                != ow1[b] by {
                                if a < b {
                                    assert(ow1[a] < ow1[b]);
                                } else {
                                    assert(ow1[b] < ow1[a]);
                                }
                            }
                        }
                    }
                }
                self.rows.insert(i, row);
                proof {
                    let rows1 = self.rows@;
                    let rowg = rows1[i as int];
                    assert(rows1 =~= rows0.update(i as int, rowg));
                    assert(rows_wf(rows1));
                    lemma_rows_owners_at(rows0, key@, value@, i as int);
                    lemma_rows_owners_at(rows1, key@, value@, i as int);
                    assert forall|k: Seq<char>, v: Seq<char>, o: u64|
                        #[trigger] final(self).has_owner(k, v, o) <==> old(self).has_owner(
                        k,
                        v,
                        o,
                    ) || (k == key@ && v == value@ && o == owner) by {
                        if k == key@ && v == value@ {
                            if !already {
                                lemma_insert_contains(owners0, p as int, owner, o);
                            }
                        } else {
                            lemma_rows_owners_update_other(rows0, i as int, rowg, k, v);
                        }
                    }
                }
            },
            None => {
                let mut owners: Vec<u64> = Vec::new();
                owners.push(owner);
                let row = IdxRow { key: key.clone(), value: value.clone(), owners };
                let ghost rows0 = self.rows@;
                let ghost rowg = row;
                self.rows.push(row);
                proof {
                    assert(rows_wf(self.rows@)) by {
                        assert(forall|j: int|
                            0 <= j < rows0.len() ==> self.rows@[j] == rows0[j]);
                        assert(self.rows@[rows0.len() as int] == rowg);
                        assert(rowg.owners@.len() == 1);
                        assert(ascending(rowg.owners@));
                    }
                    lemma_rows_owners_at(self.rows@, key@, value@, rows0.len() as int);
                    lemma_rows_owners_absent(rows0, key@, value@);
                    assert forall|k: Seq<char>, v: Seq<char>, o: u64|
                        #[trigger] final(self).has_owner(k, v, o) <==> old(self).has_owner(
                        k,
                        v,
                        o,
                    ) || (k == key@ && v == value@ && o == owner) by {
                        if k == key@ && v == value@ {
                            assert(rowg.owners@ =~= Seq::<u64>::empty().push(owner));
                            lemma_push_contains(Seq::<u64>::empty(), owner, o);
                        } else {
                            lemma_rows_owners_push_other(rows0, rowg, k, v);
                        }
                    }
                }
            },
        }
    }

    /// Strikes `owner` from (key, value); a no-op when not recorded.
    pub fn remove(&mut self, owner: u64, key: &String, value: &String)
        requires
            old(self).wf(),
        ensures
            final(self).wf(),
            forall|k: Seq<char>, v: Seq<char>, o: u64|
                #[trigger] final(self).has_owner(k, v, o) <==> old(self).has_owner(k, v, o) && !(k
                    == key@ && v == value@ && o == owner),
    {
        let found = self.find_row(key, value);
        match found {
            Some(i) => {
                let ghost rows0 = self.rows@;
                let mut row = self.rows.remove(i);
                let ghost owners0 = row.owners@;
                let mut kept: Vec<u64> = Vec::new();
                let n = row.owners.len();
                let mut j: usize = 0;
                while j < n
                    invariant
                        n == row.owners.len(),
                        row.owners@ == owners0,
                        j <= n,
                        kept@ == seq_remove_u64(owners0.take(j as int), owner),
                    decreases n - j,
                {
                    proof {
                        assert(owners0.take(j + 1).drop_last() =~= owners0.take(j as int));
                    }
                    let x = row.owners[j];
                    if x != owner {
                        kept.push(x);
                    }
                    j += 1;
                }
                proof {
                    assert(owners0.take(n as int) =~= owners0);
                }
                row.owners = kept;
                self.rows.insert(i, row);
                proof {
                    let rows1 = self.rows@;
                    let rowg = rows1[i as int];
                    assert(rows1 =~= rows0.update(i as int, rowg));
                    lemma_seq_remove_no_dup(owners0, owner);
                    lemma_seq_remove_ascending(owners0, owner);
                    assert(rows_wf(rows1));
                    lemma_rows_owners_at(rows0, key@, value@, i as int);
                    lemma_rows_owners_at(rows1, key@, value@, i as int);
                    assert forall|k: Seq<char>, v: Seq<char>, o: u64|
                        #[trigger] final(self).has_owner(k, v, o) <==> old(self).has_owner(
                        k,
                        v,
                        o,
                    ) && !(k == key@ && v == value@ && o == owner) by {
                        if k == key@ && v == value@ {
                            lemma_seq_remove_contains(owners0, owner, o);
                        } else {
                            lemma_rows_owners_update_other(rows0, i as int, rowg, k, v);
                        }
                    }
                }
            },
            None => {
                proof {
                    lemma_rows_owners_absent(self.rows@, key@, value@);
                    assert forall|k: Seq<char>, v: Seq<char>, o: u64|
                        #[trigger] final(self).has_owner(k, v, o) <==> old(self).has_owner(
                        k,
                        v,
                        o,
                    ) && !(k == key@ && v == value@ && o == owner) by {
                        if k == key@ && v == value@ {
                            assert(final(self).owners_of(k, v) == Seq::<u64>::empty());
                        }
                    }
                }
            },
        }
    }

    /// The identifiers recorded under (key, value), in ascending order.
    pub fn lookup(&self, key: &String, value: &String) -> (r: Vec<u64>)
        requires
            self.wf(),
        ensures
            r@ == self.owners_of(key@, value@),
            r@.no_duplicates(),
            ascending(r@),
    {
        let found = self.find_row(key, value);
        match found {
            Some(i) => {
                proof {
                    lemma_rows_owners_at(self.rows@, key@, value@, i as int);
                }
                let row = &self.rows[i];
                let n = row.owners.len();
                let mut r: Vec<u64> = Vec::new();
                let mut j: usize = 0;
                while j < n
                    invariant
                        n == row.owners.len(),
                        j <= n,
                        r@ == row.owners@.take(j as int),
                    decreases n - j,
                {
                    r.push(row.owners[j]);
                    proof {
                        assert(r@ =~= row.owners@.take(j + 1));
                    }
                    j += 1;
                }
                proof {
                    assert(row.owners@.take(n as int) =~= row.owners@);
                }
                r
            },
            None => {
                proof {
                    lemma_rows_owners_absent(self.rows@, key@, value@);
                }
                Vec::new()
            },
        }
    }
}

} // verus!
