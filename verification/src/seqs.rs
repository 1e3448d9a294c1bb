use vstd::prelude::*;

verus! {

/// `s` with every occurrence of `x` removed, keeping the order of the rest.
pub open spec fn seq_remove_u64(s: Seq<u64>, x: u64) -> Seq<u64>
    decreases s.len(),
{
    if s.len() == 0 {
        Seq::empty()
    } else {
        let rest = seq_remove_u64(s.drop_last(), x);
        if s.last() == x {
            rest
        } else {
            rest.push(s.last())
        }
    }
}

/// Membership in a pushed sequence.
pub proof fn lemma_push_contains<A>(s: Seq<A>, x: A, y: A)
    ensures
        s.push(x).contains(y) <==> s.contains(y) || y == x,
{
    if s.push(x).contains(y) {
        let j = choose|j: int| 0 <= j < s.push(x).len() && s.push(x)[j] == y;
        if j < s.len() {
            assert(s[j] == y);
            assert(s.contains(y));
        }
    }
    if s.contains(y) {
        let j = choose|j: int| 0 <= j < s.len() && s[j] == y;
        assert(s.push(x)[j] == y);
        assert(s.push(x).contains(y));
    }
    assert(s.push(x)[s.len() as int] == x);
    assert(s.push(x).contains(x));
}

/// Pushing a fresh element keeps a sequence free of duplicates.
pub proof fn lemma_no_dup_push<A>(s: Seq<A>, x: A)
    requires
        s.no_duplicates(),
        !s.contains(x),
    ensures
        s.push(x).no_duplicates(),
{
    assert forall|i: int, j: int|
        0 <= i < s.push(x).len() && 0 <= j < s.push(x).len() && i != j implies s.push(x)[i]
        != s.push(x)[j] by {
        if i < s.len() && j < s.len() {
        } else if i < s.len() {
            assert(s[i] == s.push(x)[i]);
            assert(!s.contains(x));
            if s.push(x)[i] == x {
                assert(s.contains(x));
            }
        } else if j < s.len() {
            if s.push(x)[j] == x {
                assert(s.contains(x));
            }
        }
    }
}

/// Membership after removing `x`: everything but `x` survives.
pub proof fn lemma_seq_remove_contains(s: Seq<u64>, x: u64, y: u64)
    ensures
        seq_remove_u64(s, x).contains(y) <==> s.contains(y) && y != x,
    decreases s.len(),
{
    if s.len() == 0 {
    } else {
        lemma_seq_remove_contains(s.drop_last(), x, y);
        let rest = seq_remove_u64(s.drop_last(), x);
        assert(s.contains(y) <==> s.drop_last().contains(y) || s.last() == y) by {
            if s.contains(y) {
                let i = choose|i: int| 0 <= i < s.len() && s[i] == y;
                if i < s.len() - 1 {
                    assert(s.drop_last()[i] == y);
                    assert(s.drop_last().contains(y));
                }
            }
            if s.drop_last().contains(y) {
                let i = choose|i: int| 0 <= i < s.drop_last().len() && s.drop_last()[i] == y;
                assert(s[i] == y);
                assert(s.contains(y));
            }
            if s.last() == y {
                assert(s[s.len() - 1] == y);
                assert(s.contains(y));
            }
        }
        if s.last() != x {
            lemma_push_contains(rest, s.last(), y);
        }
    }
}

/// Removing an element keeps a sequence free of duplicates.
pub proof fn lemma_seq_remove_no_dup(s: Seq<u64>, x: u64)
    requires
        s.no_duplicates(),
    ensures
        seq_remove_u64(s, x).no_duplicates(),
    decreases s.len(),
{
    if s.len() == 0 {
    } else {
        assert(s.drop_last().no_duplicates());
        lemma_seq_remove_no_dup(s.drop_last(), x);
        let rest = seq_remove_u64(s.drop_last(), x);
        if s.last() != x {
            assert(!rest.contains(s.last())) by {
                lemma_seq_remove_contains(s.drop_last(), x, s.last());
                if s.drop_last().contains(s.last()) {
                    let i = choose|i: int|
                        0 <= i < s.drop_last().len() && s.drop_last()[i] == s.last();
                    assert(s[i] == s[s.len() - 1]);
                }
            }
            lemma_no_dup_push(rest, s.last());
        }
    }
}

/// Removing one position keeps a sequence free of duplicates.
pub proof fn lemma_no_dup_remove<A>(s: Seq<A>, i: int)
    requires
        s.no_duplicates(),
        0 <= i < s.len(),
    ensures
        s.remove(i).no_duplicates(),
{
    let s2 = s.remove(i);
    assert forall|a: int, b: int| 0 <= a < s2.len() && 0 <= b < s2.len() && a != b implies s2[a]
        != s2[b] by {
        let a0: int = if a < i {
            a
        } else {
            a + 1
        };
        let b0: int = if b < i {
            b
        } else {
            b + 1
        };
        assert(s2[a] == s[a0]);
        assert(s2[b] == s[b0]);
    }
}

/// Removing an absent element changes nothing.
pub proof fn lemma_seq_remove_absent(s: Seq<u64>, x: u64)
    requires
        !s.contains(x),
    ensures
        seq_remove_u64(s, x) == s,
    decreases s.len(),
{
    if s.len() > 0 {
        assert(!s.drop_last().contains(x)) by {
            if s.drop_last().contains(x) {
                let j = choose|j: int| 0 <= j < s.drop_last().len() && s.drop_last()[j] == x;
                assert(s[j] == x);
            }
        }
        assert(s.last() != x) by {
            assert(s[s.len() - 1] == s.last());
            if s.last() == x {
                assert(s.contains(x));
            }
        }
        lemma_seq_remove_absent(s.drop_last(), x);
        assert(seq_remove_u64(s, x) =~= s.drop_last().push(s.last()));
        assert(s.drop_last().push(s.last()) =~= s);
    }
}

/// On a duplicate-free sequence, removing the value at `i` is removing
/// the position `i`.
pub proof fn lemma_seq_remove_at(s: Seq<u64>, i: int)
    requires
        s.no_duplicates(),
        0 <= i < s.len(),
    ensures
        seq_remove_u64(s, s[i]) == s.remove(i),
    decreases s.len(),
{
    let x = s[i];
    if i == s.len() - 1 {
        assert(!s.drop_last().contains(x)) by {
            if s.drop_last().contains(x) {
                let j = choose|j: int| 0 <= j < s.drop_last().len() && s.drop_last()[j] == x;
                assert(s[j] == s[i]);
            }
        }
        lemma_seq_remove_absent(s.drop_last(), x);
        assert(seq_remove_u64(s, x) == s.drop_last());
        assert(s.remove(i) =~= s.drop_last());
    } else {
        assert(s.last() != x) by {
            assert(s[s.len() - 1] == s.last());
        }
        assert(s.drop_last().no_duplicates());
        assert(s.drop_last()[i] == x);
        lemma_seq_remove_at(s.drop_last(), i);
        assert(seq_remove_u64(s, x) == s.drop_last().remove(i).push(s.last()));
        assert(s.remove(i) =~= s.drop_last().remove(i).push(s.last()));
    }
}

/// The identifiers of `s` are in strictly increasing order.
pub open spec fn ascending(s: Seq<u64>) -> bool {
    forall|i: int, j: int| 0 <= i < j < s.len() ==> s[i] < s[j]
}

/// The identifiers of `s` satisfying `pred`, keeping their order: the
/// order-preserving subsequence.
pub open spec fn keep_ids(s: Seq<u64>, pred: spec_fn(u64) -> bool) -> Seq<u64>
    decreases s.len(),
{
    if s.len() == 0 {
        Seq::empty()
    } else {
        let rest = keep_ids(s.drop_last(), pred);
        if pred(s.last()) {
            rest.push(s.last())
        } else {
            rest
        }
    }
}

/// Membership in the order-preserving subsequence.
pub proof fn lemma_keep_ids_contains(s: Seq<u64>, pred: spec_fn(u64) -> bool, x: u64)
    ensures
        keep_ids(s, pred).contains(x) <==> s.contains(x) && pred(x),
    decreases s.len(),
{
    if s.len() > 0 {
        lemma_keep_ids_contains(s.drop_last(), pred, x);
        assert(s.contains(x) <==> s.drop_last().contains(x) || s.last() == x) by {
            if s.contains(x) {
                let i = choose|i: int| 0 <= i < s.len() && s[i] == x;
                if i < s.len() - 1 {
                    assert(s.drop_last()[i] == x);
                    assert(s.drop_last().contains(x));
                }
            }
            if s.drop_last().contains(x) {
                let i = choose|i: int| 0 <= i < s.drop_last().len() && s.drop_last()[i] == x;
                assert(s[i] == x);
                assert(s.contains(x));
            }
            if s.last() == x {
                assert(s[s.len() - 1] == x);
                assert(s.contains(x));
            }
        }
        if pred(s.last()) {
            lemma_push_contains(keep_ids(s.drop_last(), pred), s.last(), x);
        }
    }
}

/// Filtering keeps a duplicate-free sequence duplicate-free.
pub proof fn lemma_keep_ids_no_dup(s: Seq<u64>, pred: spec_fn(u64) -> bool)
    requires
        s.no_duplicates(),
    ensures
        keep_ids(s, pred).no_duplicates(),
    decreases s.len(),
{
    if s.len() > 0 {
        assert(s.drop_last().no_duplicates());
        lemma_keep_ids_no_dup(s.drop_last(), pred);
        if pred(s.last()) {
            assert(!keep_ids(s.drop_last(), pred).contains(s.last())) by {
                lemma_keep_ids_contains(s.drop_last(), pred, s.last());
                if s.drop_last().contains(s.last()) {
                    let i = choose|i: int|
                        0 <= i < s.drop_last().len() && s.drop_last()[i] == s.last();
                    assert(s[i] == s[s.len() - 1]);
                }
            }
            lemma_no_dup_push(keep_ids(s.drop_last(), pred), s.last());
        }
    }
}

/// Filtering keeps an ascending sequence ascending.
pub proof fn lemma_keep_ids_ascending(s: Seq<u64>, pred: spec_fn(u64) -> bool)
    requires
        ascending(s),
    ensures
        ascending(keep_ids(s, pred)),
    decreases s.len(),
{
    if s.len() > 0 {
        assert(ascending(s.drop_last()));
        lemma_keep_ids_ascending(s.drop_last(), pred);
        if pred(s.last()) {
            let rest = keep_ids(s.drop_last(), pred);
            assert forall|q: int| 0 <= q < rest.len() implies rest[q] < s.last() by {
                assert(rest.contains(rest[q]));
                lemma_keep_ids_contains(s.drop_last(), pred, rest[q]);
                let i = choose|i: int|
                    0 <= i < s.drop_last().len() && s.drop_last()[i] == rest[q];
                assert(s[i] == rest[q]);
                assert(s[i] < s[s.len() - 1]);
            }
            assert forall|i: int, j: int|
                0 <= i < j < rest.push(s.last()).len() implies rest.push(s.last())[i]
                < rest.push(s.last())[j] by {
                if j < rest.len() {
                } else {
                    assert(rest.push(s.last())[j] == s.last());
                    assert(rest.push(s.last())[i] == rest[i]);
                }
            }
        }
    }
}

/// Appending something larger than everything keeps a sequence ascending.
pub proof fn lemma_ascending_push(s: Seq<u64>, x: u64)
    requires
        ascending(s),
        forall|i: int| 0 <= i < s.len() ==> s[i] < x,
    ensures
        ascending(s.push(x)),
{
    assert forall|i: int, j: int| 0 <= i < j < s.push(x).len() implies s.push(x)[i] < s.push(
        x,
    )[j] by {
        if j < s.len() {
        } else {
            assert(s.push(x)[j] == x);
            assert(s.push(x)[i] == s[i]);
        }
    }
}

/// Removing one position keeps a sequence ascending.
pub proof fn lemma_ascending_remove(s: Seq<u64>, i: int)
    requires
        ascending(s),
        0 <= i < s.len(),
    ensures
        ascending(s.remove(i)),
{
    let s2 = s.remove(i);
    assert forall|a: int, b: int| 0 <= a < b < s2.len() implies s2[a] < s2[b] by {
        let a0: int = if a < i {
            a
        } else {
            a + 1
        };
        let b0: int = if b < i {
            b
        } else {
            b + 1
        };
        assert(s2[a] == s[a0]);
        assert(s2[b] == s[b0]);
    }
}

/// Removing a value keeps a sequence ascending.
pub proof fn lemma_seq_remove_ascending(s: Seq<u64>, x: u64)
    requires
        ascending(s),
    ensures
        ascending(seq_remove_u64(s, x)),
    decreases s.len(),
{
    if s.len() > 0 {
        assert(ascending(s.drop_last()));
        lemma_seq_remove_ascending(s.drop_last(), x);
        if s.last() != x {
            let rest = seq_remove_u64(s.drop_last(), x);
            assert forall|q: int| 0 <= q < rest.len() implies rest[q] < s.last() by {
                assert(rest.contains(rest[q]));
                lemma_seq_remove_contains(s.drop_last(), x, rest[q]);
                let i = choose|i: int|
                    0 <= i < s.drop_last().len() && s.drop_last()[i] == rest[q];
                assert(s[i] == rest[q]);
                assert(s[i] < s[s.len() - 1]);
            }
            lemma_ascending_push(rest, s.last());
        }
    }
}

/// Membership in a sequence with one element inserted.
pub proof fn lemma_insert_contains(s: Seq<u64>, i: int, x: u64, y: u64)
    requires
        0 <= i <= s.len(),
    ensures
        s.insert(i, x).contains(y) <==> s.contains(y) || y == x,
{
    let s2 = s.insert(i, x);
    assert(s2[i] == x);
    if s2.contains(y) {
        let j = choose|j: int| 0 <= j < s2.len() && s2[j] == y;
        if j < i {
            assert(s[j] == y);
            assert(s.contains(y));
        } else if j > i {
            assert(s[j - 1] == y);
            assert(s.contains(y));
        }
    }
    if s.contains(y) {
        let j = choose|j: int| 0 <= j < s.len() && s[j] == y;
        if j < i {
            assert(s2[j] == y);
        } else {
            assert(s2[j + 1] == y);
        }
        assert(s2.contains(y));
    }
    if y == x {
        assert(s2.contains(y));
    }
}

/// Two ascending sequences with the same members are the same sequence.
pub proof fn lemma_ascending_same_members(s1: Seq<u64>, s2: Seq<u64>)
    requires
        ascending(s1),
        ascending(s2),
        forall|x: u64| s1.contains(x) <==> s2.contains(x),
    ensures
        s1 == s2,
    decreases s1.len(),
{
    if s1.len() == 0 {
        if s2.len() > 0 {
            assert(s2.contains(s2[0]));
            assert(s1.contains(s2[0]));
        }
        assert(s1 =~= s2);
    } else {
        assert(s1.contains(s1.last())) by {
            assert(s1[s1.len() - 1] == s1.last());
        }
        assert(s2.contains(s1.last()));
        assert(s2.len() > 0);
        assert(s2.contains(s2.last())) by {
            assert(s2[s2.len() - 1] == s2.last());
        }
        assert(s1.contains(s2.last()));
        assert(s1.last() == s2.last()) by {
            let i = choose|i: int| 0 <= i < s2.len() && s2[i] == s1.last();
            if i < s2.len() - 1 {
                assert(s2[i] < s2[s2.len() - 1]);
            }
            let j = choose|j: int| 0 <= j < s1.len() && s1[j] == s2.last();
            if j < s1.len() - 1 {
                assert(s1[j] < s1[s1.len() - 1]);
            }
        }
        assert(ascending(s1.drop_last()));
        assert(ascending(s2.drop_last()));
        assert forall|x: u64| s1.drop_last().contains(x) <==> s2.drop_last().contains(x) by {
            if s1.drop_last().contains(x) {
                let i = choose|i: int|
                    0 <= i < s1.drop_last().len() && s1.drop_last()[i] == x;
                assert(s1[i] == x);
                assert(s1[i] < s1[s1.len() - 1]);
                assert(s1.contains(x));
                assert(s2.contains(x));
                let j = choose|j: int| 0 <= j < s2.len() && s2[j] == x;
                assert(j < s2.len() - 1) by {
                    if j == s2.len() - 1 {
                        assert(s2[j] == s2.last());
                    }
                }
                assert(s2.drop_last()[j] == x);
                assert(s2.drop_last().contains(x));
            }
            if s2.drop_last().contains(x) {
                let i = choose|i: int|
                    0 <= i < s2.drop_last().len() && s2.drop_last()[i] == x;
                assert(s2[i] == x);
                assert(s2[i] < s2[s2.len() - 1]);
                assert(s2.contains(x));
                assert(s1.contains(x));
                let j = choose|j: int| 0 <= j < s1.len() && s1[j] == x;
                assert(j < s1.len() - 1) by {
                    if j == s1.len() - 1 {
                        assert(s1[j] == s1.last());
                    }
                }
                assert(s1.drop_last()[j] == x);
                assert(s1.drop_last().contains(x));
            }
        }
        lemma_ascending_same_members(s1.drop_last(), s2.drop_last());
        assert(s1 =~= s2) by {
            assert(s1.len() == s2.len());
            assert(forall|i: int|
                0 <= i < s1.len() - 1 ==> s1[i] == s1.drop_last()[i] && s2[i]
                    == s2.drop_last()[i]);
        }
    }
}

/// A sequence without duplicates whose members are exactly `x` is `[x]`.
pub proof fn lemma_singleton_members(s: Seq<u64>, x: u64)
    requires
        s.no_duplicates(),
        forall|y: u64| s.contains(y) <==> y == x,
    ensures
        s =~= seq![x],
{
    assert(s.contains(x));
    let i = choose|i: int| 0 <= i < s.len() && s[i] == x;
    if s.len() > 1 {
        let j: int = if i == 0 {
            1
        } else {
            0
        };
        assert(s.contains(s[j]));
        assert(s[j] == x);
    }
    assert(s.len() == 1);
    assert(s[0] == x);
}

} // verus!
