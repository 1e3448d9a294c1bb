use vstd::prelude::*;
use crate::index::IndexTable;
use crate::props::PropTable;
use crate::props::lemma_pair_values_contains;
use crate::props::lemma_pairs_without_other;
use crate::props::lemma_pairs_without_same;
use crate::props::pair_values;
use crate::props::pairs_view;
use crate::seqs::ascending;
use crate::seqs::keep_ids;
use crate::seqs::lemma_ascending_push;
use crate::seqs::lemma_ascending_remove;
use crate::seqs::lemma_ascending_same_members;
use crate::seqs::lemma_keep_ids_ascending;
use crate::seqs::lemma_keep_ids_contains;
use crate::seqs::lemma_no_dup_push;
use crate::seqs::lemma_no_dup_remove;
use crate::seqs::lemma_push_contains;
use crate::seqs::lemma_seq_remove_at;
use crate::seqs::lemma_seq_remove_contains;
use crate::seqs::seq_remove_u64;

verus! {

/// The recoverable failures of the store. A traversal can never outlive
/// its snapshot here: a traversal borrows the store, so a structural
/// mutation while one is alive is rejected at compile time, and no
/// invalidation arises at run time.
#[derive(Clone, Copy, PartialEq, Eq, Structural, Debug)]
pub enum GraphError {
    /// A vertex identifier that is not present in the store.
    UnknownVertex,
    /// An edge identifier that is not present in the store.
    UnknownEdge,
}

/// One adjacency entry of a vertex: an incident edge's identifier, the
/// vertex at its other end, and a copy of its label.
pub struct Adj {
    pub eid: u64,
    pub peer: u64,
    pub label: String,
}

/// A stored vertex: its identifier, its property table, and its derived
/// adjacency lists (outgoing and incoming), kept in edge-insertion order.
pub struct VertexRec {
    pub id: u64,
    pub props: PropTable,
    pub out: Vec<Adj>,
    pub inc: Vec<Adj>,
}

/// A stored edge: its identifier, its immutable label, its endpoints,
/// and its property table.
pub struct EdgeRec {
    pub id: u64,
    pub label: String,
    pub from: u64,
    pub to: u64,
    pub props: PropTable,
}

/// A returned edge: identifier, label and endpoints, detached from the
/// store.
#[derive(Debug, Clone, PartialEq, Eq)]
pub struct EdgeInfo {
    pub id: u64,
    pub label: String,
    pub from: u64,
    pub to: u64,
}

/// The identifiers of `vs`, in storage order.
pub open spec fn v_ids_of(vs: Seq<VertexRec>) -> Seq<u64> {
    vs.map_values(|r: VertexRec| r.id)
}

/// The identifiers of `es`, in storage order.
pub open spec fn e_ids_of(es: Seq<EdgeRec>) -> Seq<u64> {
    es.map_values(|r: EdgeRec| r.id)
}

/// The vertex of `vs` with identifier `id`, if any.
pub open spec fn v_find(vs: Seq<VertexRec>, id: u64) -> Option<VertexRec>
    decreases vs.len(),
{
    if vs.len() == 0 {
        None
    } else if vs.last().id == id {
        Some(vs.last())
    } else {
        v_find(vs.drop_last(), id)
    }
}

/// The edge of `es` with identifier `id`, if any.
pub open spec fn e_find(es: Seq<EdgeRec>, id: u64) -> Option<EdgeRec>
    decreases es.len(),
{
    if es.len() == 0 {
        None
    } else if es.last().id == id {
        Some(es.last())
    } else {
        e_find(es.drop_last(), id)
    }
}

/// The adjacency entries derived from `es` for the outgoing side of `v`,
/// in edge-insertion order.
pub open spec fn adj_out(es: Seq<EdgeRec>, v: u64) -> Seq<Adj>
    decreases es.len(),
{
    if es.len() == 0 {
        Seq::empty()
    } else {
        let rest = adj_out(es.drop_last(), v);
        let e = es.last();
        if e.from == v {
            rest.push(Adj { eid: e.id, peer: e.to, label: e.label })
        } else {
            rest
        }
    }
}

/// The adjacency entries derived from `es` for the incoming side of `v`.
pub open spec fn adj_in(es: Seq<EdgeRec>, v: u64) -> Seq<Adj>
    decreases es.len(),
{
    if es.len() == 0 {
        Seq::empty()
    } else {
        let rest = adj_in(es.drop_last(), v);
        let e = es.last();
        if e.to == v {
            rest.push(Adj { eid: e.id, peer: e.from, label: e.label })
        } else {
            rest
        }
    }
}

/// The identifiers carried by adjacency entries, in order.
pub open spec fn adj_ids(s: Seq<Adj>) -> Seq<u64> {
    s.map_values(|a: Adj| a.eid)
}

proof fn lemma_v_find_contains(vs: Seq<VertexRec>, id: u64)
    ensures
        v_find(vs, id) is Some <==> v_ids_of(vs).contains(id),
        v_find(vs, id) is Some ==> v_find(vs, id)->Some_0.id == id,
    decreases vs.len(),
{
    if vs.len() == 0 {
    } else {
        lemma_v_find_contains(vs.drop_last(), id);
        assert(v_ids_of(vs.drop_last()) =~= v_ids_of(vs).drop_last());
        lemma_push_contains(v_ids_of(vs).drop_last(), vs.last().id, id);
        assert(v_ids_of(vs).drop_last().push(vs.last().id) =~= v_ids_of(vs));
    }
}

proof fn lemma_e_find_contains(es: Seq<EdgeRec>, id: u64)
    ensures
        e_find(es, id) is Some <==> e_ids_of(es).contains(id),
        e_find(es, id) is Some ==> e_find(es, id)->Some_0.id == id,
    decreases es.len(),
{
    if es.len() == 0 {
    } else {
        lemma_e_find_contains(es.drop_last(), id);
        assert(e_ids_of(es.drop_last()) =~= e_ids_of(es).drop_last());
        lemma_push_contains(e_ids_of(es).drop_last(), es.last().id, id);
        assert(e_ids_of(es).drop_last().push(es.last().id) =~= e_ids_of(es));
    }
}

proof fn lemma_v_find_at(vs: Seq<VertexRec>, id: u64, i: int)
    requires
        v_ids_of(vs).no_duplicates(),
        0 <= i < vs.len(),
        vs[i].id == id,
    ensures
        v_find(vs, id) == Some(vs[i]),
    decreases vs.len(),
{
    if i == vs.len() - 1 {
    } else {
        assert(v_ids_of(vs)[i] == id);
        assert(v_ids_of(vs)[vs.len() - 1] == vs.last().id);
        assert(vs.last().id != id);
        assert(v_ids_of(vs.drop_last()) =~= v_ids_of(vs).drop_last());
        assert(v_ids_of(vs).drop_last().no_duplicates());
        assert(vs.drop_last()[i] == vs[i]);
        lemma_v_find_at(vs.drop_last(), id, i);
    }
}

proof fn lemma_e_find_at(es: Seq<EdgeRec>, id: u64, i: int)
    requires
        e_ids_of(es).no_duplicates(),
        0 <= i < es.len(),
        es[i].id == id,
    ensures
        e_find(es, id) == Some(es[i]),
    decreases es.len(),
{
    if i == es.len() - 1 {
    } else {
        assert(e_ids_of(es)[i] == id);
        assert(e_ids_of(es)[es.len() - 1] == es.last().id);
        assert(e_ids_of(es.drop_last()) =~= e_ids_of(es).drop_last());
        assert(e_ids_of(es).drop_last().no_duplicates());
        assert(es.drop_last()[i] == es[i]);
        lemma_e_find_at(es.drop_last(), id, i);
    }
}

proof fn lemma_v_find_update(vs: Seq<VertexRec>, i: int, r2: VertexRec, o: u64)
    requires
        v_ids_of(vs).no_duplicates(),
        0 <= i < vs.len(),
        r2.id == vs[i].id,
    ensures
        v_find(vs.update(i, r2), o) == if o == vs[i].id {
            Some(r2)
        } else {
            v_find(vs, o)
        },
    decreases vs.len(),
{
    let vs2 = vs.update(i, r2);
    assert(vs2.len() == vs.len());
    if i == vs.len() - 1 {
        assert(vs2.last() == r2);
        if o != vs[i].id {
            assert(vs2.drop_last() =~= vs.drop_last());
        }
    } else {
        assert(vs2.last() == vs.last());
        assert(v_ids_of(vs)[i] == vs[i].id);
        assert(v_ids_of(vs)[vs.len() - 1] == vs.last().id);
        assert(vs.last().id != vs[i].id);
        assert(vs2.drop_last() =~= vs.drop_last().update(i, r2));
        assert(v_ids_of(vs.drop_last()) =~= v_ids_of(vs).drop_last());
        assert(v_ids_of(vs).drop_last().no_duplicates());
        assert(vs.drop_last()[i] == vs[i]);
        lemma_v_find_update(vs.drop_last(), i, r2, o);
    }
}

proof fn lemma_e_find_update(es: Seq<EdgeRec>, i: int, r2: EdgeRec, o: u64)
    requires
        e_ids_of(es).no_duplicates(),
        0 <= i < es.len(),
        r2.id == es[i].id,
    ensures
        e_find(es.update(i, r2), o) == if o == es[i].id {
            Some(r2)
        } else {
            e_find(es, o)
        },
    decreases es.len(),
{
    let es2 = es.update(i, r2);
    assert(es2.len() == es.len());
    if i == es.len() - 1 {
        assert(es2.last() == r2);
        if o != es[i].id {
            assert(es2.drop_last() =~= es.drop_last());
        }
    } else {
        assert(es2.last() == es.last());
        assert(e_ids_of(es)[i] == es[i].id);
        assert(e_ids_of(es)[es.len() - 1] == es.last().id);
        assert(es.last().id != es[i].id);
        assert(es2.drop_last() =~= es.drop_last().update(i, r2));
        assert(e_ids_of(es.drop_last()) =~= e_ids_of(es).drop_last());
        assert(e_ids_of(es).drop_last().no_duplicates());
        assert(es.drop_last()[i] == es[i]);
        lemma_e_find_update(es.drop_last(), i, r2, o);
    }
}

proof fn lemma_adj_out_absent(es: Seq<EdgeRec>, v: u64)
    requires
        forall|j: int| 0 <= j < es.len() ==> (#[trigger] es[j]).from != v,
    ensures
        adj_out(es, v) == Seq::<Adj>::empty(),
    decreases es.len(),
{
    if es.len() > 0 {
        assert(forall|j: int| 0 <= j < es.len() - 1 ==> es.drop_last()[j] == es[j]);
        lemma_adj_out_absent(es.drop_last(), v);
    }
}

proof fn lemma_adj_in_absent(es: Seq<EdgeRec>, v: u64)
    requires
        forall|j: int| 0 <= j < es.len() ==> (#[trigger] es[j]).to != v,
    ensures
        adj_in(es, v) == Seq::<Adj>::empty(),
    decreases es.len(),
{
    if es.len() > 0 {
        assert(forall|j: int| 0 <= j < es.len() - 1 ==> es.drop_last()[j] == es[j]);
        lemma_adj_in_absent(es.drop_last(), v);
    }
}

proof fn lemma_adj_update_shape(es: Seq<EdgeRec>, i: int, r2: EdgeRec, v: u64)
    requires
        0 <= i < es.len(),
        r2.id == es[i].id,
        r2.from == es[i].from,
        r2.to == es[i].to,
        r2.label == es[i].label,
    ensures
        adj_out(es.update(i, r2), v) == adj_out(es, v),
        adj_in(es.update(i, r2), v) == adj_in(es, v),
    decreases es.len(),
{
    let es2 = es.update(i, r2);
    assert(es2.len() == es.len());
    if i == es.len() - 1 {
        assert(es2.last() == r2);
        assert(es2.drop_last() =~= es.drop_last());
    } else {
        assert(es2.last() == es.last());
        assert(es2.drop_last() =~= es.drop_last().update(i, r2));
        assert(es.drop_last()[i] == es[i]);
        lemma_adj_update_shape(es.drop_last(), i, r2, v);
    }
}

proof fn lemma_adj_out_props(es: Seq<EdgeRec>, v: u64)
    requires
        e_ids_of(es).no_duplicates(),
    ensures
        adj_ids(adj_out(es, v)).no_duplicates(),
        forall|j: int|
            0 <= j < adj_out(es, v).len() ==> e_find(es, (#[trigger] adj_out(es, v)[j]).eid)
                is Some && e_find(es, adj_out(es, v)[j].eid)->Some_0.from == v && e_find(
                es,
                adj_out(es, v)[j].eid,
            )->Some_0.to == adj_out(es, v)[j].peer && e_find(es, adj_out(es, v)[j].eid)->Some_0
                .label == adj_out(es, v)[j].label,
        forall|e: u64|
            #[trigger] adj_ids(adj_out(es, v)).contains(e) <==> (e_find(es, e) is Some && e_find(
                es,
                e,
            )->Some_0.from == v),
    decreases es.len(),
{
    if es.len() == 0 {
    } else {
        let pre = es.drop_last();
        let e = es.last();
        assert(e_ids_of(pre) =~= e_ids_of(es).drop_last());
        assert(e_ids_of(pre).no_duplicates());
        lemma_adj_out_props(pre, v);
        lemma_e_find_contains(pre, e.id);
        assert(!e_ids_of(pre).contains(e.id)) by {
            if e_ids_of(pre).contains(e.id) {
                let l = choose|l: int| 0 <= l < e_ids_of(pre).len() && e_ids_of(pre)[l] == e.id;
                assert(e_ids_of(es)[l] == e.id);
                assert(e_ids_of(es)[es.len() - 1] == e.id);
            }
        }
        assert(e_find(pre, e.id) is None);
        assert forall|x: u64| x != e.id implies e_find(es, x) == e_find(pre, x) by {}
        assert(e_find(es, e.id) == Some(e));
        assert forall|x: u64| e_find(pre, x) is Some implies x != e.id by {
            lemma_e_find_contains(pre, x);
        }
        if e.from == v {
            let entry = Adj { eid: e.id, peer: e.to, label: e.label };
            assert(adj_out(es, v) == adj_out(pre, v).push(entry));
            assert(adj_ids(adj_out(es, v)) =~= adj_ids(adj_out(pre, v)).push(e.id));
            assert(!adj_ids(adj_out(pre, v)).contains(e.id));
            lemma_no_dup_push(adj_ids(adj_out(pre, v)), e.id);
            assert forall|x: u64| #[trigger] adj_ids(adj_out(es, v)).contains(x) <==> (e_find(
                es,
                x,
            ) is Some && e_find(es, x)->Some_0.from == v) by {
                lemma_push_contains(adj_ids(adj_out(pre, v)), e.id, x);
            }
        } else {
            assert(adj_out(es, v) == adj_out(pre, v));
            assert forall|x: u64| #[trigger] adj_ids(adj_out(es, v)).contains(x) <==> (e_find(
                es,
                x,
            ) is Some && e_find(es, x)->Some_0.from == v) by {}
        }
    }
}

proof fn lemma_adj_in_props(es: Seq<EdgeRec>, v: u64)
    requires
        e_ids_of(es).no_duplicates(),
    ensures
        adj_ids(adj_in(es, v)).no_duplicates(),
        forall|j: int|
            0 <= j < adj_in(es, v).len() ==> e_find(es, (#[trigger] adj_in(es, v)[j]).eid) is Some
                && e_find(es, adj_in(es, v)[j].eid)->Some_0.to == v && e_find(
                es,
                adj_in(es, v)[j].eid,
            )->Some_0.from == adj_in(es, v)[j].peer && e_find(es, adj_in(es, v)[j].eid)->Some_0
                .label == adj_in(es, v)[j].label,
        forall|e: u64|
            #[trigger] adj_ids(adj_in(es, v)).contains(e) <==> (e_find(es, e) is Some && e_find(
                es,
                e,
            )->Some_0.to == v),
    decreases es.len(),
{
    if es.len() == 0 {
    } else {
        let pre = es.drop_last();
        let e = es.last();
        assert(e_ids_of(pre) =~= e_ids_of(es).drop_last());
        assert(e_ids_of(pre).no_duplicates());
        lemma_adj_in_props(pre, v);
        lemma_e_find_contains(pre, e.id);
        assert(!e_ids_of(pre).contains(e.id)) by {
            if e_ids_of(pre).contains(e.id) {
                let l = choose|l: int| 0 <= l < e_ids_of(pre).len() && e_ids_of(pre)[l] == e.id;
                assert(e_ids_of(es)[l] == e.id);
                assert(e_ids_of(es)[es.len() - 1] == e.id);
            }
        }
        assert(e_find(pre, e.id) is None);
        assert forall|x: u64| x != e.id implies e_find(es, x) == e_find(pre, x) by {}
        assert(e_find(es, e.id) == Some(e));
        assert forall|x: u64| e_find(pre, x) is Some implies x != e.id by {
            lemma_e_find_contains(pre, x);
        }
        if e.to == v {
            let entry = Adj { eid: e.id, peer: e.from, label: e.label };
            assert(adj_in(es, v) == adj_in(pre, v).push(entry));
            assert(adj_ids(adj_in(es, v)) =~= adj_ids(adj_in(pre, v)).push(e.id));
            assert(!adj_ids(adj_in(pre, v)).contains(e.id));
            lemma_no_dup_push(adj_ids(adj_in(pre, v)), e.id);
            assert forall|x: u64| #[trigger] adj_ids(adj_in(es, v)).contains(x) <==> (e_find(
                es,
                x,
            ) is Some && e_find(es, x)->Some_0.to == v) by {
                lemma_push_contains(adj_ids(adj_in(pre, v)), e.id, x);
            }
        } else {
            assert(adj_in(es, v) == adj_in(pre, v));
            assert forall|x: u64| #[trigger] adj_ids(adj_in(es, v)).contains(x) <==> (e_find(
                es,
                x,
            ) is Some && e_find(es, x)->Some_0.to == v) by {}
        }
    }
}

/// The adjacency entries of `s` whose edge is not `x`, keeping order.
pub open spec fn filter_adj(s: Seq<Adj>, x: u64) -> Seq<Adj>
    decreases s.len(),
{
    if s.len() == 0 {
        Seq::empty()
    } else {
        let rest = filter_adj(s.drop_last(), x);
        if s.last().eid == x {
            rest
        } else {
            rest.push(s.last())
        }
    }
}

proof fn lemma_filter_adj_absent(s: Seq<Adj>, x: u64)
    requires
        forall|j: int| 0 <= j < s.len() ==> (#[trigger] s[j]).eid != x,
    ensures
        filter_adj(s, x) == s,
    decreases s.len(),
{
    if s.len() > 0 {
        assert(forall|j: int| 0 <= j < s.len() - 1 ==> s.drop_last()[j] == s[j]);
        lemma_filter_adj_absent(s.drop_last(), x);
        assert(filter_adj(s, x) =~= s.drop_last().push(s.last()));
        assert(s.drop_last().push(s.last()) =~= s);
    }
}

proof fn lemma_adj_remove(es: Seq<EdgeRec>, i: int, u: u64)
    requires
        e_ids_of(es).no_duplicates(),
        0 <= i < es.len(),
    ensures
        adj_out(es.remove(i), u) == filter_adj(adj_out(es, u), es[i].id),
        adj_in(es.remove(i), u) == filter_adj(adj_in(es, u), es[i].id),
    decreases es.len(),
{
    let x = es[i].id;
    lemma_adj_out_props(es, u);
    lemma_adj_in_props(es, u);
    if i == es.len() - 1 {
        assert(es.remove(i) =~= es.drop_last());
        assert forall|j: int| 0 <= j < adj_out(es.drop_last(), u).len() implies (
        #[trigger] adj_out(es.drop_last(), u)[j]).eid != x by {
            assert(e_ids_of(es.drop_last()) =~= e_ids_of(es).drop_last());
            lemma_adj_out_props(es.drop_last(), u);
            lemma_e_find_contains(es.drop_last(), adj_out(es.drop_last(), u)[j].eid);
            if adj_out(es.drop_last(), u)[j].eid == x {
                let l = choose|l: int|
                    0 <= l < e_ids_of(es.drop_last()).len() && e_ids_of(es.drop_last())[l] == x;
                assert(e_ids_of(es)[l] == x);
                assert(e_ids_of(es)[es.len() - 1] == x);
            }
        }
        lemma_filter_adj_absent(adj_out(es.drop_last(), u), x);
        assert forall|j: int| 0 <= j < adj_in(es.drop_last(), u).len() implies (
        #[trigger] adj_in(es.drop_last(), u)[j]).eid != x by {
            assert(e_ids_of(es.drop_last()) =~= e_ids_of(es).drop_last());
            lemma_adj_in_props(es.drop_last(), u);
            lemma_e_find_contains(es.drop_last(), adj_in(es.drop_last(), u)[j].eid);
            if adj_in(es.drop_last(), u)[j].eid == x {
                let l = choose|l: int|
                    0 <= l < e_ids_of(es.drop_last()).len() && e_ids_of(es.drop_last())[l] == x;
                assert(e_ids_of(es)[l] == x);
                assert(e_ids_of(es)[es.len() - 1] == x);
            }
        }
        lemma_filter_adj_absent(adj_in(es.drop_last(), u), x);
        if es.last().from == u {
            let entry = Adj { eid: es.last().id, peer: es.last().to, label: es.last().label };
            assert(adj_out(es, u) == adj_out(es.drop_last(), u).push(entry));
            assert(adj_out(es.drop_last(), u).push(entry).drop_last() =~= adj_out(
                es.drop_last(),
                u,
            ));
            assert(adj_out(es.drop_last(), u).push(entry).last() == entry);
            assert(filter_adj(adj_out(es, u), x) == filter_adj(adj_out(es.drop_last(), u), x));
        } else {
            assert(adj_out(es, u) == adj_out(es.drop_last(), u));
        }
        if es.last().to == u {
            let entry = Adj { eid: es.last().id, peer: es.last().from, label: es.last().label };
            assert(adj_in(es, u) == adj_in(es.drop_last(), u).push(entry));
            assert(adj_in(es.drop_last(), u).push(entry).drop_last() =~= adj_in(
                es.drop_last(),
                u,
            ));
            assert(adj_in(es.drop_last(), u).push(entry).last() == entry);
            assert(filter_adj(adj_in(es, u), x) == filter_adj(adj_in(es.drop_last(), u), x));
        } else {
            assert(adj_in(es, u) == adj_in(es.drop_last(), u));
        }
    } else {
        let pre = es.drop_last();
        let e = es.last();
        assert(e_ids_of(pre) =~= e_ids_of(es).drop_last());
        assert(e_ids_of(pre).no_duplicates());
        assert(pre[i] == es[i]);
        assert(e.id != x) by {
            assert(e_ids_of(es)[i] == x);
            assert(e_ids_of(es)[es.len() - 1] == e.id);
        }
        lemma_adj_remove(pre, i, u);
        assert(es.remove(i).len() == es.len() - 1);
        assert(es.remove(i).last() == e);
        assert(es.remove(i).drop_last() =~= pre.remove(i));
        if e.from == u {
            let entry = Adj { eid: e.id, peer: e.to, label: e.label };
            assert(adj_out(es.remove(i), u) == adj_out(pre.remove(i), u).push(entry));
            assert(adj_out(es, u) == adj_out(pre, u).push(entry));
            assert(filter_adj(adj_out(pre, u).push(entry), x) == filter_adj(
                adj_out(pre, u),
                x,
            ).push(entry)) by {
                assert(adj_out(pre, u).push(entry).drop_last() =~= adj_out(pre, u));
                assert(adj_out(pre, u).push(entry).last() == entry);
            }
        } else {
            assert(adj_out(es.remove(i), u) == adj_out(pre.remove(i), u));
            assert(adj_out(es, u) == adj_out(pre, u));
        }
        if e.to == u {
            let entry = Adj { eid: e.id, peer: e.from, label: e.label };
            assert(adj_in(es.remove(i), u) == adj_in(pre.remove(i), u).push(entry));
            assert(adj_in(es, u) == adj_in(pre, u).push(entry));
            assert(filter_adj(adj_in(pre, u).push(entry), x) == filter_adj(
                adj_in(pre, u),
                x,
            ).push(entry)) by {
                assert(adj_in(pre, u).push(entry).drop_last() =~= adj_in(pre, u));
                assert(adj_in(pre, u).push(entry).last() == entry);
            }
        } else {
            assert(adj_in(es.remove(i), u) == adj_in(pre.remove(i), u));
            assert(adj_in(es, u) == adj_in(pre, u));
        }
    }
}

proof fn lemma_e_find_remove(es: Seq<EdgeRec>, i: int, o: u64)
    requires
        e_ids_of(es).no_duplicates(),
        0 <= i < es.len(),
    ensures
        e_find(es.remove(i), o) == if o == es[i].id {
            None
        } else {
            e_find(es, o)
        },
    decreases es.len(),
{
    let es2 = es.remove(i);
    if i == es.len() - 1 {
        assert(es2 =~= es.drop_last());
        if o == es[i].id {
            assert forall|j: int| 0 <= j < es.drop_last().len() implies (
            #[trigger] es.drop_last()[j]).id != o by {
                assert(e_ids_of(es)[j] == es[j].id);
                assert(e_ids_of(es)[es.len() - 1] == o);
            }
            lemma_e_find_absent_rec(es.drop_last(), o);
        }
    } else {
        assert(es2.len() == es.len() - 1);
        assert(es2.last() == es.last());
        assert(es2.drop_last() =~= es.drop_last().remove(i));
        assert(e_ids_of(es.drop_last()) =~= e_ids_of(es).drop_last());
        assert(e_ids_of(es.drop_last()).no_duplicates());
        assert(es.drop_last()[i] == es[i]);
        lemma_e_find_remove(es.drop_last(), i, o);
        if o == es[i].id {
            assert(es.last().id != o) by {
                assert(e_ids_of(es)[i] == o);
                assert(e_ids_of(es)[es.len() - 1] == es.last().id);
            }
        }
    }
}

proof fn lemma_e_find_absent_rec(es: Seq<EdgeRec>, o: u64)
    requires
        forall|j: int| 0 <= j < es.len() ==> (#[trigger] es[j]).id != o,
    ensures
        e_find(es, o) is None,
    decreases es.len(),
{
    if es.len() > 0 {
        assert(forall|j: int| 0 <= j < es.len() - 1 ==> es.drop_last()[j] == es[j]);
        lemma_e_find_absent_rec(es.drop_last(), o);
    }
}

proof fn lemma_v_find_remove(vs: Seq<VertexRec>, i: int, o: u64)
    requires
        v_ids_of(vs).no_duplicates(),
        0 <= i < vs.len(),
    ensures
        v_find(vs.remove(i), o) == if o == vs[i].id {
            None
        } else {
            v_find(vs, o)
        },
    decreases vs.len(),
{
    let vs2 = vs.remove(i);
    if i == vs.len() - 1 {
        assert(vs2 =~= vs.drop_last());
        if o == vs[i].id {
            assert forall|j: int| 0 <= j < vs.drop_last().len() implies (
            #[trigger] vs.drop_last()[j]).id != o by {
                assert(v_ids_of(vs)[j] == vs[j].id);
                assert(v_ids_of(vs)[vs.len() - 1] == o);
            }
            lemma_v_find_absent_rec(vs.drop_last(), o);
        }
    } else {
        assert(vs2.len() == vs.len() - 1);
        assert(vs2.last() == vs.last());
        assert(vs2.drop_last() =~= vs.drop_last().remove(i));
        assert(v_ids_of(vs.drop_last()) =~= v_ids_of(vs).drop_last());
        assert(v_ids_of(vs.drop_last()).no_duplicates());
        assert(vs.drop_last()[i] == vs[i]);
        lemma_v_find_remove(vs.drop_last(), i, o);
        if o == vs[i].id {
            assert(vs.last().id != o) by {
                assert(v_ids_of(vs)[i] == o);
                assert(v_ids_of(vs)[vs.len() - 1] == vs.last().id);
            }
        }
    }
}

proof fn lemma_v_find_absent_rec(vs: Seq<VertexRec>, o: u64)
    requires
        forall|j: int| 0 <= j < vs.len() ==> (#[trigger] vs[j]).id != o,
    ensures
        v_find(vs, o) is None,
    decreases vs.len(),
{
    if vs.len() > 0 {
        assert(forall|j: int| 0 <= j < vs.len() - 1 ==> vs.drop_last()[j] == vs[j]);
        lemma_v_find_absent_rec(vs.drop_last(), o);
    }
}

/// The identifiers of the edges of `es` incident to `v`, in order.
pub open spec fn inc_ids(es: Seq<EdgeRec>, v: u64) -> Seq<u64>
    decreases es.len(),
{
    if es.len() == 0 {
        Seq::empty()
    } else {
        let rest = inc_ids(es.drop_last(), v);
        let e = es.last();
        if e.from == v || e.to == v {
            rest.push(e.id)
        } else {
            rest
        }
    }
}

proof fn lemma_inc_ids_props(es: Seq<EdgeRec>, v: u64)
    requires
        e_ids_of(es).no_duplicates(),
    ensures
        inc_ids(es, v).no_duplicates(),
        forall|e: u64|
            #[trigger] inc_ids(es, v).contains(e) <==> (e_find(es, e) is Some && (e_find(
                es,
                e,
            )->Some_0.from == v || e_find(es, e)->Some_0.to == v)),
    decreases es.len(),
{
    if es.len() == 0 {
    } else {
        let pre = es.drop_last();
        let e = es.last();
        assert(e_ids_of(pre) =~= e_ids_of(es).drop_last());
        assert(e_ids_of(pre).no_duplicates());
        lemma_inc_ids_props(pre, v);
        lemma_e_find_contains(pre, e.id);
        assert(!e_ids_of(pre).contains(e.id)) by {
            if e_ids_of(pre).contains(e.id) {
                let l = choose|l: int| 0 <= l < e_ids_of(pre).len() && e_ids_of(pre)[l] == e.id;
                assert(e_ids_of(es)[l] == e.id);
                assert(e_ids_of(es)[es.len() - 1] == e.id);
            }
        }
        assert(e_find(pre, e.id) is None);
        assert forall|x: u64| x != e.id implies e_find(es, x) == e_find(pre, x) by {}
        assert(e_find(es, e.id) == Some(e));
        assert forall|x: u64| e_find(pre, x) is Some implies x != e.id by {
            lemma_e_find_contains(pre, x);
        }
        if e.from == v || e.to == v {
            assert(!inc_ids(pre, v).contains(e.id));
            lemma_no_dup_push(inc_ids(pre, v), e.id);
            assert forall|x: u64| #[trigger] inc_ids(es, v).contains(x) <==> (e_find(es, x) is Some
                && (e_find(es, x)->Some_0.from == v || e_find(es, x)->Some_0.to == v)) by {
                lemma_push_contains(inc_ids(pre, v), e.id, x);
            }
        } else {
            assert(inc_ids(es, v) == inc_ids(pre, v));
            assert forall|x: u64| #[trigger] inc_ids(es, v).contains(x) <==> (e_find(es, x) is Some
                && (e_find(es, x)->Some_0.from == v || e_find(es, x)->Some_0.to == v)) by {}
        }
    }
}

/// Edge `e` of `a` is still present in `b`, with the same label and the
/// same endpoints.
pub open spec fn edge_kept_at(a: Graph, b: Graph, e: u64) -> bool {
    b.has_e(e) && b.e_label(e) == a.e_label(e) && b.e_from(e) == a.e_from(e) && b.e_to(e)
        == a.e_to(e)
}

/// Every edge of `a` is still present in `b`, with the same label and
/// the same endpoints.
pub open spec fn edges_kept(a: Graph, b: Graph) -> bool {
    forall|e: u64| a.has_e(e) ==> #[trigger] edge_kept_at(a, b, e)
}

/// Reads `edges_kept` for one edge.
pub proof fn lemma_edges_kept(a: Graph, b: Graph, e: u64)
    requires
        edges_kept(a, b),
        a.has_e(e),
    ensures
        b.has_e(e),
        b.e_label(e) == a.e_label(e),
        b.e_from(e) == a.e_from(e),
        b.e_to(e) == a.e_to(e),
{
    assert(edge_kept_at(a, b, e));
}

/// `edges_kept` composes.
pub proof fn lemma_edges_kept_trans(a: Graph, b: Graph, c: Graph)
    requires
        edges_kept(a, b),
        edges_kept(b, c),
    ensures
        edges_kept(a, c),
{
    assert forall|e: u64| a.has_e(e) implies #[trigger] edge_kept_at(a, c, e) by {
        assert(edge_kept_at(a, b, e));
        assert(edge_kept_at(b, c, e));
    }
}

proof fn lemma_edges_kept_same(a: Graph, b: Graph)
    requires
        b.edges@ == a.edges@,
    ensures
        edges_kept(a, b),
{
    assert forall|e: u64| a.has_e(e) implies #[trigger] edge_kept_at(a, b, e) by {}
}

/// The two stores have the same identifiers, allocator bound, and the
/// same shape on every edge.
pub open spec fn same_entities(a: Graph, b: Graph) -> bool {
    &&& b.id_bound() == a.id_bound()
    &&& b.v_ids() == a.v_ids()
    &&& b.e_ids() == a.e_ids()
    &&& forall|e: u64|
        a.has_e(e) ==> (#[trigger] b.e_label(e)) == a.e_label(e) && b.e_from(e) == a.e_from(e)
            && b.e_to(e) == a.e_to(e)
}

/// All vertex properties agree.
pub open spec fn same_vprops(a: Graph, b: Graph) -> bool {
    forall|o: u64, k: Seq<char>| (#[trigger] b.vprops(o, k)) == a.vprops(o, k)
}

/// All edge properties agree.
pub open spec fn same_eprops(a: Graph, b: Graph) -> bool {
    forall|o: u64, k: Seq<char>| (#[trigger] b.eprops(o, k)) == a.eprops(o, k)
}

/// All vertex properties agree but possibly the one named slot.
pub open spec fn same_vprops_except(a: Graph, b: Graph, o: u64, k: Seq<char>) -> bool {
    forall|o2: u64, k2: Seq<char>|
        !(o2 == o && k2 == k) ==> (#[trigger] b.vprops(o2, k2)) == a.vprops(o2, k2)
}

/// All edge properties agree but possibly the one named slot.
pub open spec fn same_eprops_except(a: Graph, b: Graph, o: u64, k: Seq<char>) -> bool {
    forall|o2: u64, k2: Seq<char>|
        !(o2 == o && k2 == k) ==> (#[trigger] b.eprops(o2, k2)) == a.eprops(o2, k2)
}

/// The entries of `list` whose edge is not `x`, cloned, keeping order.
fn filter_adj_exec(list: &Vec<Adj>, x: u64) -> (r: Vec<Adj>)
    ensures
        r@ == filter_adj(list@, x),
{
    let mut r: Vec<Adj> = Vec::new();
    let n = list.len();
    let mut i: usize = 0;
    while i < n
        invariant
            n == list.len(),
            i <= n,
            r@ == filter_adj(list@.take(i as int), x),
        decreases n - i,
    {
        proof {
            assert(list@.take(i + 1).drop_last() =~= list@.take(i as int));
            assert(list@.take(i + 1).last() == list@[i as int]);
        }
        let a = &list[i];
        if a.eid != x {
            let entry = Adj { eid: a.eid, peer: a.peer, label: a.label.clone() };
            proof {
                assert(entry == list@[i as int]);
            }
            r.push(entry);
        }
        i += 1;
    }
    proof {
        assert(list@.take(n as int) =~= list@);
    }
    r
}

/// The graph store: the canonical vertex and edge records, the identifier
/// allocator, and the two reverse indices, one for vertices and one for
/// edges.
pub struct Graph {
    next_id: u64,
    vertices: Vec<VertexRec>,
    edges: Vec<EdgeRec>,
    vindex: IndexTable,
    eindex: IndexTable,
}

impl Graph {
    /// All identifiers handed out so far are below this bound.
    pub closed spec fn id_bound(self) -> u64 {
        self.next_id
    }

    /// The vertex identifiers, in insertion order.
    pub closed spec fn v_ids(self) -> Seq<u64> {
        v_ids_of(self.vertices@)
    }

    /// The edge identifiers, in insertion order.
    pub closed spec fn e_ids(self) -> Seq<u64> {
        e_ids_of(self.edges@)
    }

    /// The vertex `id` is currently present.
    pub open spec fn has_v(self, id: u64) -> bool {
        self.v_ids().contains(id)
    }

    /// The edge `id` is currently present.
    pub open spec fn has_e(self, id: u64) -> bool {
        self.e_ids().contains(id)
    }

    spec fn e_rec(self, id: u64) -> EdgeRec {
        e_find(self.edges@, id)->Some_0
    }

    /// The label of edge `id` (meaningful when the edge is present).
    pub closed spec fn e_label(self, id: u64) -> Seq<char> {
        self.e_rec(id).label@
    }

    /// The source vertex of edge `id`.
    pub closed spec fn e_from(self, id: u64) -> u64 {
        self.e_rec(id).from
    }

    /// The target vertex of edge `id`.
    pub closed spec fn e_to(self, id: u64) -> u64 {
        self.e_rec(id).to
    }

    /// The values of vertex `id` under `k`; empty when absent.
    pub closed spec fn vprops(self, id: u64, k: Seq<char>) -> Seq<Seq<char>> {
        match v_find(self.vertices@, id) {
            Some(r) => r.props.values_of(k),
            None => Seq::empty(),
        }
    }

    /// The values of edge `id` under `k`; empty when absent.
    pub closed spec fn eprops(self, id: u64, k: Seq<char>) -> Seq<Seq<char>> {
        match e_find(self.edges@, id) {
            Some(r) => r.props.values_of(k),
            None => Seq::empty(),
        }
    }

    /// Vertex `o` is present and holds `val` under `k`.
    pub open spec fn v_has_prop(self, o: u64, k: Seq<char>, val: Seq<char>) -> bool {
        self.has_v(o) && self.vprops(o, k).contains(val)
    }

    /// Edge `o` is present and holds `val` under `k`.
    pub open spec fn e_has_prop(self, o: u64, k: Seq<char>, val: Seq<char>) -> bool {
        self.has_e(o) && self.eprops(o, k).contains(val)
    }

    /// The predicate "is a present vertex holding `val` under `k`", as a
    /// value, for stating order-preserving filters.
    pub open spec fn v_matcher(self, k: Seq<char>, val: Seq<char>) -> spec_fn(u64) -> bool {
        |o: u64| self.v_has_prop(o, k, val)
    }

    /// The predicate "is a present edge holding `val` under `k`".
    pub open spec fn e_matcher(self, k: Seq<char>, val: Seq<char>) -> spec_fn(u64) -> bool {
        |o: u64| self.e_has_prop(o, k, val)
    }

    /// The predicate "is a present edge leaving `v`".
    pub open spec fn from_matcher(self, v: u64) -> spec_fn(u64) -> bool {
        |e: u64| self.has_e(e) && self.e_from(e) == v
    }

    /// The predicate "is a present edge entering `v`".
    pub open spec fn to_matcher(self, v: u64) -> spec_fn(u64) -> bool {
        |e: u64| self.has_e(e) && self.e_to(e) == v
    }

    /// The outgoing edge identifiers of `v`, in edge-insertion order.
    pub closed spec fn out_ids(self, v: u64) -> Seq<u64> {
        adj_ids(adj_out(self.edges@, v))
    }

    /// The incoming edge identifiers of `v`, in edge-insertion order.
    pub closed spec fn in_ids(self, v: u64) -> Seq<u64> {
        adj_ids(adj_in(self.edges@, v))
    }

    /// The store's invariant: identifiers are unique and below the
    /// allocator bound, vertex and edge identifiers never collide, every
    /// edge endpoint is a present vertex, each vertex's adjacency lists
    /// are exactly the entries derived from the edge records, and each
    /// reverse index agrees with the property tables.
    pub closed spec fn wf(self) -> bool {
        &&& v_ids_of(self.vertices@).no_duplicates()
        &&& e_ids_of(self.edges@).no_duplicates()
        &&& ascending(v_ids_of(self.vertices@))
        &&& ascending(e_ids_of(self.edges@))
        &&& (forall|i: int|
            0 <= i < self.vertices@.len() ==> (#[trigger] self.vertices@[i]).id < self.next_id)
        &&& (forall|i: int|
            0 <= i < self.edges@.len() ==> (#[trigger] self.edges@[i]).id < self.next_id)
        &&& (forall|i: int, j: int|
            0 <= i < self.vertices@.len() && 0 <= j < self.edges@.len()
                ==> (#[trigger] self.vertices@[i]).id != (#[trigger] self.edges@[j]).id)
        &&& (forall|j: int|
            0 <= j < self.edges@.len() ==> self.has_v((#[trigger] self.edges@[j]).from)
                && self.has_v(self.edges@[j].to))
        &&& (forall|i: int|
            0 <= i < self.vertices@.len() ==> (#[trigger] self.vertices@[i]).out@ == adj_out(
                self.edges@,
                self.vertices@[i].id,
            ))
        &&& (forall|i: int|
            0 <= i < self.vertices@.len() ==> (#[trigger] self.vertices@[i]).inc@ == adj_in(
                self.edges@,
                self.vertices@[i].id,
            ))
        &&& self.vindex.wf()
        &&& self.eindex.wf()
        &&& (forall|k: Seq<char>, val: Seq<char>, o: u64|
            #[trigger] self.vindex.has_owner(k, val, o) <==> self.v_has_prop(o, k, val))
        &&& (forall|k: Seq<char>, val: Seq<char>, o: u64|
            #[trigger] self.eindex.has_owner(k, val, o) <==> self.e_has_prop(o, k, val))
    }

    /// Identifiers never repeat: distinct positions, distinct vertices.
    pub proof fn lemma_ids_distinct(self)
        requires
            self.wf(),
        ensures
            self.v_ids().no_duplicates(),
            self.e_ids().no_duplicates(),
            forall|o: u64| !(self.has_v(o) && self.has_e(o)),
    {
        assert forall|o: u64| !(self.has_v(o) && self.has_e(o)) by {
            if self.has_v(o) && self.has_e(o) {
                let i = choose|i: int| 0 <= i < self.v_ids().len() && self.v_ids()[i] == o;
                let j = choose|j: int| 0 <= j < self.e_ids().len() && self.e_ids()[j] == o;
                assert(self.vertices@[i].id == o);
                assert(self.edges@[j].id == o);
            }
        }
    }

    /// An empty store.
    pub fn new() -> (g: Graph)
        ensures
            g.wf(),
            g.v_ids() == Seq::<u64>::empty(),
            g.e_ids() == Seq::<u64>::empty(),
            g.id_bound() == 0,
    {
        let g = Graph {
            next_id: 0,
            vertices: Vec::new(),
            edges: Vec::new(),
            vindex: IndexTable::new(),
            eindex: IndexTable::new(),
        };
        proof {
            assert(g.v_ids() =~= Seq::<u64>::empty());
            assert(g.e_ids() =~= Seq::<u64>::empty());
        }
        g
    }

    /// The position of vertex `id` in the record list, if present.
    fn find_vertex(&self, id: u64) -> (r: Option<usize>)
        ensures
            match r {
                Some(i) => i < self.vertices@.len() && self.vertices@[i as int].id == id,
                None => forall|j: int|
                    0 <= j < self.vertices@.len() ==> (#[trigger] self.vertices@[j]).id != id,
            },
    {
        let n = self.vertices.len();
        let mut i: usize = 0;
        while i < n
            invariant
                n == self.vertices.len(),
                i <= n,
                forall|j: int| 0 <= j < i ==> (#[trigger] self.vertices@[j]).id != id,
            decreases n - i,
        {
            if self.vertices[i].id == id {
                return Some(i);
            }
            i += 1;
        }
        None
    }

    /// The position of edge `id` in the record list, if present.
    fn find_edge(&self, id: u64) -> (r: Option<usize>)
        ensures
            match r {
                Some(i) => i < self.edges@.len() && self.edges@[i as int].id == id,
                None => forall|j: int|
                    0 <= j < self.edges@.len() ==> (#[trigger] self.edges@[j]).id != id,
            },
    {
        let n = self.edges.len();
        let mut i: usize = 0;
        while i < n
            invariant
                n == self.edges.len(),
                i <= n,
                forall|j: int| 0 <= j < i ==> (#[trigger] self.edges@[j]).id != id,
            decreases n - i,
    {
            if self.edges[i].id == id {
                return Some(i);
            }
            i += 1;
        }
        None
    }

    /// All vertex identifiers, in insertion order.
    pub fn vertices(&self) -> (r: Vec<u64>)
        ensures
            r@ == self.v_ids(),
    {
        let n = self.vertices.len();
        let mut r: Vec<u64> = Vec::new();
        let mut i: usize = 0;
        while i < n
            invariant
                n == self.vertices.len(),
                i <= n,
                r@ =~= v_ids_of(self.vertices@).take(i as int),
            decreases n - i,
        {
            r.push(self.vertices[i].id);
            i += 1;
        }
        proof {
            assert(v_ids_of(self.vertices@).take(n as int) =~= v_ids_of(self.vertices@));
        }
        r
    }

    /// All edge identifiers, in insertion order.
    pub fn edges(&self) -> (r: Vec<u64>)
        ensures
            r@ == self.e_ids(),
    {
        let n = self.edges.len();
        let mut r: Vec<u64> = Vec::new();
        let mut i: usize = 0;
        while i < n
            invariant
                n == self.edges.len(),
                i <= n,
                r@ =~= e_ids_of(self.edges@).take(i as int),
            decreases n - i,
        {
            r.push(self.edges[i].id);
            i += 1;
        }
        proof {
            assert(e_ids_of(self.edges@).take(n as int) =~= e_ids_of(self.edges@));
        }
        r
    }

    /// The values stored on entity `owner` under `key`; empty when the
    /// key, or the owner itself, is absent — absence is not an error.
    pub open spec fn props_of(self, o: u64, k: Seq<char>) -> Seq<Seq<char>> {
        if self.has_v(o) {
            self.vprops(o, k)
        } else {
            self.eprops(o, k)
        }
    }

    /// Appends `value` under `key` on the vertex or edge `owner`, and
    /// records the pair in the matching reverse index, as one step.
    /// Fails with `UnknownVertex` when no entity has this identifier.
    pub fn set(&mut self, owner: u64, key: &String, value: &String) -> (r: Result<(), GraphError>)
        requires
            old(self).wf(),
        ensures
            final(self).wf(),
            r is Ok <==> (old(self).has_v(owner) || old(self).has_e(owner)),
            !(old(self).has_v(owner) || old(self).has_e(owner)) ==> r == Err::<(), GraphError>(
                GraphError::UnknownVertex,
            ) && *final(self) == *old(self),
            same_entities(*old(self), *final(self)),
            edges_kept(*old(self), *final(self)),
            old(self).has_v(owner) ==> final(self).vprops(owner, key@) == old(self).vprops(
                owner,
                key@,
            ).push(value@) && same_vprops_except(*old(self), *final(self), owner, key@)
                && same_eprops(*old(self), *final(self)),
            old(self).has_e(owner) ==> final(self).eprops(owner, key@) == old(self).eprops(
                owner,
                key@,
            ).push(value@) && same_eprops_except(*old(self), *final(self), owner, key@)
                && same_vprops(*old(self), *final(self)),
            forall|v: u64|
                (#[trigger] final(self).out_ids(v)) == old(self).out_ids(v) && final(self).in_ids(
                    v,
                ) == old(self).in_ids(v),
    {
        let fv = self.find_vertex(owner);
        match fv {
            Some(i) => {
                let ghost g0 = *self;
                let mut rec = self.vertices.remove(i);
                let ghost rec0 = rec;
                rec.props.set(key, value);
                let ghost rec1 = rec;
                self.vertices.insert(i, rec);
                self.vindex.insert(owner, key, value);
                proof {
                    let vs0 = g0.vertices@;
                    let vs1 = self.vertices@;
                    assert(vs1 =~= vs0.update(i as int, rec1));
                    assert(v_ids_of(vs1) =~= v_ids_of(vs0));
                    assert(g0.has_v(owner)) by {
                        assert(v_ids_of(vs0)[i as int] == owner);
                    }
                    lemma_v_find_at(vs0, owner, i as int);
                    assert forall|o: u64| v_find(vs1, o) == if o == owner {
                        Some(rec1)
                    } else {
                        v_find(vs0, o)
                    } by {
                        lemma_v_find_update(vs0, i as int, rec1, o);
                    }
                    assert(rec1.props.entries_view() == rec0.props.entries_view().push(
                        (key@, value@),
                    ));
                    assert forall|k: Seq<char>| rec1.props.values_of(k) == if k == key@ {
                        rec0.props.values_of(k).push(value@)
                    } else {
                        rec0.props.values_of(k)
                    } by {
                        assert(rec1.props.entries_view().drop_last()
                            =~= rec0.props.entries_view());
                    }
                    assert(final(self).vprops(owner, key@) == old(self).vprops(owner, key@).push(
                        value@,
                    ));
                    assert(same_vprops_except(g0, *self, owner, key@));
                    assert(same_eprops(g0, *self));
                    assert(same_entities(g0, *self));
                    lemma_edges_kept_same(g0, *self);
                    // the invariant: adjacency and identifier clauses
                    assert forall|j: int| 0 <= j < vs1.len() implies (#[trigger] vs1[j]).id
                        < self.next_id && vs1[j].out@ == adj_out(self.edges@, vs1[j].id)
                        && vs1[j].inc@ == adj_in(self.edges@, vs1[j].id) by {
                        assert(vs0[j].id < g0.next_id);
                        if j == i as int {
                            assert(vs1[j] == rec1);
                            assert(rec1.out@ == rec0.out@);
                        }
                    }
                    // vertex index consistency
                    assert forall|k: Seq<char>, val: Seq<char>, o: u64| #[trigger] self
                        .vindex
                        .has_owner(k, val, o) <==> self.v_has_prop(o, k, val) by {
                        if o == owner && k == key@ {
                            lemma_push_contains(rec0.props.values_of(k), value@, val);
                        }
                    }
                    assert(self.wf());
                }
                Ok(())
            },
            None => {
                let fe = self.find_edge(owner);
                match fe {
                    Some(i) => {
                        let ghost g0 = *self;
                        let mut rec = self.edges.remove(i);
                        let ghost rec0 = rec;
                        rec.props.set(key, value);
                        let ghost rec1 = rec;
                        self.edges.insert(i, rec);
                        self.eindex.insert(owner, key, value);
                        proof {
                            let es0 = g0.edges@;
                            let es1 = self.edges@;
                            assert(es1 =~= es0.update(i as int, rec1));
                            assert(e_ids_of(es1) =~= e_ids_of(es0));
                            assert(g0.has_e(owner)) by {
                                assert(e_ids_of(es0)[i as int] == owner);
                            }
                            lemma_e_find_at(es0, owner, i as int);
                            assert forall|o: u64| e_find(es1, o) == if o == owner {
                                Some(rec1)
                            } else {
                                e_find(es0, o)
                            } by {
                                lemma_e_find_update(es0, i as int, rec1, o);
                            }
                            assert forall|k: Seq<char>| rec1.props.values_of(k) == if k == key@ {
                                rec0.props.values_of(k).push(value@)
                            } else {
                                rec0.props.values_of(k)
                            } by {
                                assert(rec1.props.entries_view().drop_last()
                                    =~= rec0.props.entries_view());
                            }
                            assert(same_eprops_except(g0, *self, owner, key@));
                            assert(same_vprops(g0, *self));
                            assert(same_entities(g0, *self));
                            assert forall|e: u64| g0.has_e(e) implies #[trigger] edge_kept_at(
                                g0,
                                *self,
                                e,
                            ) by {}
                            assert(edges_kept(g0, *self));
                            // adjacency is derived from unchanged shape fields
                            assert forall|v: u64| adj_out(es1, v) == adj_out(es0, v) && adj_in(
                                es1,
                                v,
                            ) == adj_in(es0, v) by {
                                lemma_adj_update_shape(es0, i as int, rec1, v);
                            }
                            assert forall|j: int| 0 <= j < self.vertices@.len() implies (
                            #[trigger] self.vertices@[j]).out@ == adj_out(
                                es1,
                                self.vertices@[j].id,
                            ) && self.vertices@[j].inc@ == adj_in(
                                es1,
                                self.vertices@[j].id,
                            ) by {}
                            assert forall|j: int| 0 <= j < es1.len() implies (
                            #[trigger] es1[j]).id < self.next_id && self.has_v(es1[j].from)
                                && self.has_v(es1[j].to) by {
                                assert(es0[j].id < g0.next_id);
                                if j == i as int {
                                    assert(es1[j] == rec1);
                                }
                            }
                            // edge index consistency
                            assert forall|k: Seq<char>, val: Seq<char>, o: u64| #[trigger] self
                                .eindex
                                .has_owner(k, val, o) <==> self.e_has_prop(o, k, val) by {
                                if o == owner && k == key@ {
                                    lemma_push_contains(rec0.props.values_of(k), value@, val);
                                }
                            }
                            assert(self.wf());
                        }
                        Ok(())
                    },
                    None => {
                        proof {
                            if self.has_v(owner) {
                                let j = choose|j: int|
                                    0 <= j < self.v_ids().len() && self.v_ids()[j] == owner;
                                assert(self.vertices@[j].id == owner);
                            }
                            if self.has_e(owner) {
                                let j = choose|j: int|
                                    0 <= j < self.e_ids().len() && self.e_ids()[j] == owner;
                                assert(self.edges@[j].id == owner);
                            }
                            lemma_edges_kept_same(*old(self), *self);
                        }
                        Err(GraphError::UnknownVertex)
                    },
                }
            },
        }
    }

    /// The values of entity `owner` under `key`, in the order they were
    /// set; empty when the key or the owner is absent, never an error.
    pub fn get(&self, owner: u64, key: &String) -> (r: Vec<String>)
        requires
            self.wf(),
        ensures
            r.deep_view() == self.props_of(owner, key@),
    {
        let fv = self.find_vertex(owner);
        match fv {
            Some(i) => {
                proof {
                    assert(self.has_v(owner)) by {
                        assert(v_ids_of(self.vertices@)[i as int] == owner);
                    }
                    lemma_v_find_at(self.vertices@, owner, i as int);
                }
                let r = self.vertices[i].props.get(key);
                proof {
                    assert(v_find(self.vertices@, owner) == Some(self.vertices@[i as int]));
                    assert(self.vprops(owner, key@) == self.vertices@[i as int].props.values_of(
                        key@,
                    ));
                    assert(r.deep_view() == self.props_of(owner, key@));
                }
                r
            },
            None => {
                proof {
                    if self.has_v(owner) {
                        let j = choose|j: int|
                            0 <= j < self.v_ids().len() && self.v_ids()[j] == owner;
                        assert(self.vertices@[j].id == owner);
                    }
                }
                let fe = self.find_edge(owner);
                match fe {
                    Some(i) => {
                        proof {
                            lemma_e_find_at(self.edges@, owner, i as int);
                        }
                        let r = self.edges[i].props.get(key);
                        proof {
                            assert(self.has_e(owner)) by {
                                assert(e_ids_of(self.edges@)[i as int] == owner);
                            }
                            assert(e_find(self.edges@, owner) == Some(self.edges@[i as int]));
                            assert(self.eprops(owner, key@) == self.edges@[i as int]
                                .props
                                .values_of(key@));
                            assert(r.deep_view() == self.props_of(owner, key@));
                        }
                        r
                    },
                    None => {
                        let empty: Vec<String> = Vec::new();
                        proof {
                            if self.has_e(owner) {
                                let j = choose|j: int|
                                    0 <= j < self.e_ids().len() && self.e_ids()[j] == owner;
                                assert(self.edges@[j].id == owner);
                            }
                            lemma_v_find_contains(self.vertices@, owner);
                            lemma_e_find_contains(self.edges@, owner);
                            assert(empty.deep_view() =~= Seq::<Seq<char>>::empty());
                            assert(empty.deep_view() == self.props_of(owner, key@));
                        }
                        empty
                    },
                }
            },
        }
    }

    /// Deletes every value under `key` on entity `owner`, and strikes the
    /// matching reverse-index records, as one step. A key never set is a
    /// valid no-op; an absent owner fails with `UnknownVertex`.
    pub fn remove(&mut self, owner: u64, key: &String) -> (r: Result<(), GraphError>)
        requires
            old(self).wf(),
        ensures
            final(self).wf(),
            r is Ok <==> (old(self).has_v(owner) || old(self).has_e(owner)),
            !(old(self).has_v(owner) || old(self).has_e(owner)) ==> r == Err::<(), GraphError>(
                GraphError::UnknownVertex,
            ) && *final(self) == *old(self),
            same_entities(*old(self), *final(self)),
            old(self).has_v(owner) ==> final(self).vprops(owner, key@) == Seq::<Seq<char>>::empty()
                && same_vprops_except(*old(self), *final(self), owner, key@) && same_eprops(
                *old(self),
                *final(self),
            ),
            old(self).has_e(owner) ==> final(self).eprops(owner, key@) == Seq::<Seq<char>>::empty()
                && same_eprops_except(*old(self), *final(self), owner, key@) && same_vprops(
                *old(self),
                *final(self),
            ),
            forall|v: u64|
                (#[trigger] final(self).out_ids(v)) == old(self).out_ids(v) && final(self).in_ids(
                    v,
                ) == old(self).in_ids(v),
    {
        let fv = self.find_vertex(owner);
        match fv {
            Some(i) => {
                let ghost g0 = *self;
                let mut rec = self.vertices.remove(i);
                let ghost rec0 = rec;
                let values = rec.props.get(key);
                rec.props.remove(key);
                let ghost rec1 = rec;
                self.vertices.insert(i, rec);
                proof {
                    let vs0 = g0.vertices@;
                    let vs1 = self.vertices@;
                    assert(vs1 =~= vs0.update(i as int, rec1));
                    assert(v_ids_of(vs1) =~= v_ids_of(vs0));
                    assert(forall|j: int| 0 <= j < vs1.len() ==> (#[trigger] vs1[j]).id == vs0[j].id);
                    assert(g0.has_v(owner)) by {
                        assert(v_ids_of(vs0)[i as int] == owner);
                    }
                    lemma_v_find_at(vs0, owner, i as int);
                    assert forall|o: u64| v_find(vs1, o) == if o == owner {
                        Some(rec1)
                    } else {
                        v_find(vs0, o)
                    } by {
                        lemma_v_find_update(vs0, i as int, rec1, o);
                    }
                    lemma_pairs_without_same(rec0.props.entries_view(), key@);
                    assert forall|k: Seq<char>| k != key@ implies rec1.props.values_of(k)
                        == rec0.props.values_of(k) by {
                        lemma_pairs_without_other(rec0.props.entries_view(), key@, k);
                    }
                }
                let ghost g1 = *self;
                let ghost vx0 = self.vindex;
                let n = values.len();
                let mut j: usize = 0;
                while j < n
                    invariant
                        n == values.len(),
                        self.vindex.wf(),
                        *self == (Graph { vindex: self.vindex, ..g1 }),
                        j <= n,
                        forall|k: Seq<char>, val: Seq<char>, o: u64|
                            !(o == owner && k == key@) ==> (#[trigger] self.vindex.has_owner(
                                k,
                                val,
                                o,
                            ) <==> vx0.has_owner(k, val, o)),
                        forall|val: Seq<char>|
                            #[trigger] self.vindex.has_owner(key@, val, owner) ==> vx0.has_owner(
                                key@,
                                val,
                                owner,
                            ) && (forall|l: int| 0 <= l < j ==> values@[l]@ != val),
                    decreases n - j,
                {
                    self.vindex.remove(owner, key, &values[j]);
                    j += 1;
                }
                proof {
                    assert forall|k: Seq<char>, val: Seq<char>, o: u64| #[trigger] self
                        .vindex
                        .has_owner(k, val, o) <==> self.v_has_prop(o, k, val) by {
                        if o == owner && k == key@ {
                            if self.vindex.has_owner(k, val, o) {
                                assert(g0.v_has_prop(owner, key@, val));
                                assert(values.deep_view() == rec0.props.values_of(key@));
                                let l = choose|l: int|
                                    0 <= l < rec0.props.values_of(key@).len()
                                        && rec0.props.values_of(key@)[l] == val;
                                assert(values.deep_view()[l] == val);
                                assert(values@[l]@ == val);
                            }
                            assert(!self.v_has_prop(o, k, val));
                        }
                    }
                    assert(self.wf());
                    assert(same_entities(g0, *self));
                    assert(same_vprops_except(g0, *self, owner, key@));
                    assert(same_eprops(g0, *self));
                }
                Ok(())
            },
            None => {
                proof {
                    if self.has_v(owner) {
                        let j = choose|j: int|
                            0 <= j < self.v_ids().len() && self.v_ids()[j] == owner;
                        assert(self.vertices@[j].id == owner);
                    }
                }
                let fe = self.find_edge(owner);
                match fe {
                    Some(i) => {
                        let ghost g0 = *self;
                        let mut rec = self.edges.remove(i);
                        let ghost rec0 = rec;
                        let values = rec.props.get(key);
                        rec.props.remove(key);
                        let ghost rec1 = rec;
                        self.edges.insert(i, rec);
                        proof {
                            let es0 = g0.edges@;
                            let es1 = self.edges@;
                            assert(es1 =~= es0.update(i as int, rec1));
                            assert(e_ids_of(es1) =~= e_ids_of(es0));
                            assert(forall|j2: int|
                                0 <= j2 < es1.len() ==> (#[trigger] es1[j2]).id == es0[j2].id);
                            assert(g0.has_e(owner)) by {
                                assert(e_ids_of(es0)[i as int] == owner);
                            }
                            lemma_e_find_at(es0, owner, i as int);
                            assert forall|o: u64| e_find(es1, o) == if o == owner {
                                Some(rec1)
                            } else {
                                e_find(es0, o)
                            } by {
                                lemma_e_find_update(es0, i as int, rec1, o);
                            }
                            lemma_pairs_without_same(rec0.props.entries_view(), key@);
                            assert forall|k: Seq<char>| k != key@ implies rec1.props.values_of(k)
                                == rec0.props.values_of(k) by {
                                lemma_pairs_without_other(rec0.props.entries_view(), key@, k);
                            }
                            assert forall|v: u64| adj_out(es1, v) == adj_out(es0, v) && adj_in(
                                es1,
                                v,
                            ) == adj_in(es0, v) by {
                                lemma_adj_update_shape(es0, i as int, rec1, v);
                            }
                        }
                        let ghost g1 = *self;
                        let ghost ex0 = self.eindex;
                        let n = values.len();
                        let mut j: usize = 0;
                        while j < n
                            invariant
                                n == values.len(),
                                self.eindex.wf(),
                                *self == (Graph { eindex: self.eindex, ..g1 }),
                                j <= n,
                                forall|k: Seq<char>, val: Seq<char>, o: u64|
                                    !(o == owner && k == key@) ==> (#[trigger] self
                                        .eindex
                                        .has_owner(k, val, o) <==> ex0.has_owner(k, val, o)),
                                forall|val: Seq<char>|
                                    #[trigger] self.eindex.has_owner(key@, val, owner)
                                        ==> ex0.has_owner(key@, val, owner) && (forall|l: int|
                                        0 <= l < j ==> values@[l]@ != val),
                            decreases n - j,
                        {
                            self.eindex.remove(owner, key, &values[j]);
                            j += 1;
                        }
                        proof {
                            assert forall|k: Seq<char>, val: Seq<char>, o: u64| #[trigger] self
                                .eindex
                                .has_owner(k, val, o) <==> self.e_has_prop(o, k, val) by {
                                if o == owner && k == key@ {
                                    if self.eindex.has_owner(k, val, o) {
                                        assert(g0.e_has_prop(owner, key@, val));
                                        assert(values.deep_view() == rec0.props.values_of(key@));
                                        let l = choose|l: int|
                                            0 <= l < rec0.props.values_of(key@).len()
                                                && rec0.props.values_of(key@)[l] == val;
                                        assert(values.deep_view()[l] == val);
                                        assert(values@[l]@ == val);
                                    }
                                    assert(!self.e_has_prop(o, k, val));
                                }
                            }
                            assert(self.wf());
                            assert(same_entities(g0, *self));
                            assert(same_eprops_except(g0, *self, owner, key@));
                            assert(same_vprops(g0, *self));
                        }
                        Ok(())
                    },
                    None => {
                        proof {
                            if self.has_e(owner) {
                                let j = choose|j: int|
                                    0 <= j < self.e_ids().len() && self.e_ids()[j] == owner;
                                assert(self.edges@[j].id == owner);
                            }
                        }
                        Err(GraphError::UnknownVertex)
                    },
                }
            },
        }
    }

    /// The identifiers of the vertices holding `value` under `key`, as
    /// the order-preserving subsequence of the vertex listing, answered
    /// from the reverse index, not by scanning the vertices.
    #[allow(non_snake_case)]
    pub fn V_has(&self, key: &String, value: &String) -> (r: Vec<u64>)
        requires
            self.wf(),
        ensures
            r@ == keep_ids(self.v_ids(), self.v_matcher(key@, value@)),
            r@.no_duplicates(),
            forall|o: u64| #[trigger] r@.contains(o) <==> self.v_has_prop(o, key@, value@),
    {
        let r = self.vindex.lookup(key, value);
        proof {
            assert forall|o: u64| #[trigger] r@.contains(o) <==> self.v_has_prop(
                o,
                key@,
                value@,
            ) by {
                assert(r@.contains(o) == self.vindex.has_owner(key@, value@, o));
            }
            let pred = self.v_matcher(key@, value@);
            let want = keep_ids(self.v_ids(), pred);
            lemma_keep_ids_ascending(self.v_ids(), pred);
            assert forall|o: u64| r@.contains(o) <==> want.contains(o) by {
                lemma_keep_ids_contains(self.v_ids(), pred, o);
            }
            lemma_ascending_same_members(r@, want);
        }
        r
    }

    /// The identifiers of the edges holding `value` under `key`, as the
    /// order-preserving subsequence of the edge listing, answered from
    /// the reverse index.
    #[allow(non_snake_case)]
    pub fn E_has(&self, key: &String, value: &String) -> (r: Vec<u64>)
        requires
            self.wf(),
        ensures
            r@ == keep_ids(self.e_ids(), self.e_matcher(key@, value@)),
            r@.no_duplicates(),
            forall|o: u64| #[trigger] r@.contains(o) <==> self.e_has_prop(o, key@, value@),
    {
        let r = self.eindex.lookup(key, value);
        proof {
            assert forall|o: u64| #[trigger] r@.contains(o) <==> self.e_has_prop(
                o,
                key@,
                value@,
            ) by {
                assert(r@.contains(o) == self.eindex.has_owner(key@, value@, o));
            }
            let pred = self.e_matcher(key@, value@);
            let want = keep_ids(self.e_ids(), pred);
            lemma_keep_ids_ascending(self.e_ids(), pred);
            assert forall|o: u64| r@.contains(o) <==> want.contains(o) by {
                lemma_keep_ids_contains(self.e_ids(), pred, o);
            }
            lemma_ascending_same_members(r@, want);
        }
        r
    }

    /// Adds a vertex carrying the given initial (key, value) properties
    /// and returns its fresh identifier. Always succeeds; the identifier
    /// is distinct from every identifier the store ever handed out.
    #[allow(non_snake_case)]
    pub fn addV(&mut self, properties: &Vec<(String, String)>) -> (r: u64)
        requires
            old(self).wf(),
            old(self).id_bound() < u64::MAX,
        ensures
            final(self).wf(),
            r == old(self).id_bound(),
            !old(self).has_v(r),
            !old(self).has_e(r),
            final(self).id_bound() == old(self).id_bound() + 1,
            final(self).v_ids() == old(self).v_ids().push(r),
            final(self).e_ids() == old(self).e_ids(),
            forall|e: u64|
                old(self).has_e(e) ==> (#[trigger] final(self).e_label(e)) == old(self).e_label(e)
                    && final(self).e_from(e) == old(self).e_from(e) && final(self).e_to(e) == old(
                    self,
                ).e_to(e),
            forall|o: u64, k: Seq<char>|
                o != r ==> (#[trigger] final(self).vprops(o, k)) == old(self).vprops(o, k),
            forall|k: Seq<char>|
                #[trigger] final(self).vprops(r, k) == pair_values(pairs_view(properties@), k),
            same_eprops(*old(self), *final(self)),
            final(self).out_ids(r) == Seq::<u64>::empty(),
            final(self).in_ids(r) == Seq::<u64>::empty(),
    {
        let id = self.next_id;
        self.next_id = id + 1;
        let rec = VertexRec { id, props: PropTable::new(), out: Vec::new(), inc: Vec::new() };
        let ghost g0 = *old(self);
        let ghost recg = rec;
        self.vertices.push(rec);
        proof {
            let vs0 = g0.vertices@;
            let vs1 = self.vertices@;
            assert(vs1 == vs0.push(recg));
            assert(v_ids_of(vs1) =~= v_ids_of(vs0).push(id));
            assert(!g0.has_v(id)) by {
                if v_ids_of(vs0).contains(id) {
                    let j = choose|j: int| 0 <= j < v_ids_of(vs0).len() && v_ids_of(vs0)[j] == id;
                    assert(vs0[j].id == id);
                }
            }
            assert(!g0.has_e(id)) by {
                if e_ids_of(g0.edges@).contains(id) {
                    let j = choose|j: int|
                        0 <= j < e_ids_of(g0.edges@).len() && e_ids_of(g0.edges@)[j] == id;
                    assert(g0.edges@[j].id == id);
                }
            }
            lemma_no_dup_push(v_ids_of(vs0), id);
            assert forall|l: int| 0 <= l < v_ids_of(vs0).len() implies v_ids_of(vs0)[l] < id by {
                assert(v_ids_of(vs0)[l] == vs0[l].id);
            }
            lemma_ascending_push(v_ids_of(vs0), id);
            assert forall|o: u64| #[trigger] v_find(vs1, o) == if o == id {
                Some(recg)
            } else {
                v_find(vs0, o)
            } by {
                if o != id {
                    assert(vs1.drop_last() =~= vs0);
                }
            }
            assert forall|e: u64| self.has_v(e) <==> g0.has_v(e) || e == id by {
                lemma_push_contains(v_ids_of(vs0), id, e);
            }
            assert(adj_out(self.edges@, id) == Seq::<Adj>::empty()) by {
                assert forall|j: int| 0 <= j < self.edges@.len() implies (
                #[trigger] self.edges@[j]).from != id by {
                    assert(g0.has_v(self.edges@[j].from));
                    let l = choose|l: int|
                        0 <= l < v_ids_of(vs0).len() && v_ids_of(vs0)[l] == self.edges@[j].from;
                    assert(vs0[l].id == self.edges@[j].from);
                }
                lemma_adj_out_absent(self.edges@, id);
            }
            assert(adj_in(self.edges@, id) == Seq::<Adj>::empty()) by {
                assert forall|j: int| 0 <= j < self.edges@.len() implies (
                #[trigger] self.edges@[j]).to != id by {
                    assert(g0.has_v(self.edges@[j].to));
                    let l = choose|l: int|
                        0 <= l < v_ids_of(vs0).len() && v_ids_of(vs0)[l] == self.edges@[j].to;
                    assert(vs0[l].id == self.edges@[j].to);
                }
                lemma_adj_in_absent(self.edges@, id);
            }
            assert forall|k: Seq<char>| #[trigger] recg.props.values_of(k) == Seq::<
                Seq<char>,
            >::empty() by {}
            assert forall|j: int| 0 <= j < vs1.len() implies (#[trigger] vs1[j]).id < self.next_id
                && vs1[j].out@ == adj_out(self.edges@, vs1[j].id) && vs1[j].inc@ == adj_in(
                self.edges@,
                vs1[j].id,
            ) by {
                if j < vs0.len() {
                    assert(vs1[j] == vs0[j]);
                } else {
                    assert(vs1[j] == recg);
                    assert(recg.out@ =~= adj_out(self.edges@, id));
                    assert(recg.inc@ =~= adj_in(self.edges@, id));
                }
            }
            assert forall|k: Seq<char>, val: Seq<char>, o: u64| #[trigger] self.vindex.has_owner(
                k,
                val,
                o,
            ) <==> self.v_has_prop(o, k, val) by {}
            assert(self.wf());
            assert(adj_ids(adj_out(self.edges@, id)) =~= Seq::<u64>::empty());
            assert(adj_ids(adj_in(self.edges@, id)) =~= Seq::<u64>::empty());
        }
        let ghost g1 = *self;
        let n = properties.len();
        let mut i: usize = 0;
        while i < n
            invariant
                n == properties.len(),
                i <= n,
                self.wf(),
                g1.wf(),
                g1.has_v(id),
                same_entities(g1, *self),
                forall|o: u64, k: Seq<char>|
                    o != id ==> (#[trigger] self.vprops(o, k)) == g1.vprops(o, k),
                forall|k: Seq<char>|
                    #[trigger] self.vprops(id, k) == pair_values(
                        pairs_view(properties@.take(i as int)),
                        k,
                    ),
                same_eprops(g1, *self),
                forall|v: u64|
                    (#[trigger] self.out_ids(v)) == g1.out_ids(v) && self.in_ids(v) == g1.in_ids(
                        v,
                    ),
            decreases n - i,
        {
            let ghost pre = *self;
            let _r = self.set(id, &properties[i].0, &properties[i].1);
            proof {
                assert(pre.has_v(id));
                assert(pairs_view(properties@.take(i + 1)) =~= pairs_view(
                    properties@.take(i as int),
                ).push((properties@[i as int].0@, properties@[i as int].1@)));
                assert forall|k: Seq<char>| #[trigger] self.vprops(id, k) == pair_values(
                    pairs_view(properties@.take(i + 1)),
                    k,
                ) by {
                    let ext = pairs_view(properties@.take(i as int)).push(
                        (properties@[i as int].0@, properties@[i as int].1@),
                    );
                    assert(ext.drop_last() =~= pairs_view(properties@.take(i as int)));
                }
            }
            i += 1;
        }
        proof {
            assert(properties@.take(n as int) =~= properties@);
            assert(self.out_ids(id) =~= Seq::<u64>::empty());
            assert(self.in_ids(id) =~= Seq::<u64>::empty());
        }
        id
    }

    proof fn lemma_out_ids_prefix(self, n: int, v: u64)
        requires
            self.wf(),
            0 <= n <= self.edges@.len(),
        ensures
            adj_ids(adj_out(self.edges@.take(n), v)) == keep_ids(
                self.e_ids().take(n),
                self.from_matcher(v),
            ),
        decreases n,
    {
        let pred = self.from_matcher(v);
        if n == 0 {
            assert(self.edges@.take(0) =~= Seq::<EdgeRec>::empty());
            assert(self.e_ids().take(0) =~= Seq::<u64>::empty());
            assert(adj_ids(adj_out(self.edges@.take(0), v)) =~= Seq::<u64>::empty());
        } else {
            self.lemma_out_ids_prefix(n - 1, v);
            let esp = self.edges@.take(n);
            let idsp = self.e_ids().take(n);
            let e = self.edges@[n - 1];
            assert(esp.drop_last() =~= self.edges@.take(n - 1));
            assert(esp.last() == e);
            assert(idsp.drop_last() =~= self.e_ids().take(n - 1));
            assert(idsp.last() == e.id) by {
                assert(self.e_ids()[n - 1] == e.id);
            }
            lemma_e_find_at(self.edges@, e.id, n - 1);
            assert(self.has_e(e.id)) by {
                assert(self.e_ids()[n - 1] == e.id);
            }
            assert(self.e_from(e.id) == e.from);
            assert(pred(e.id) == (e.from == v));
            if e.from == v {
                let entry = Adj { eid: e.id, peer: e.to, label: e.label };
                assert(adj_out(esp, v) == adj_out(self.edges@.take(n - 1), v).push(entry));
                assert(adj_ids(adj_out(esp, v)) =~= adj_ids(
                    adj_out(self.edges@.take(n - 1), v),
                ).push(e.id));
                assert(keep_ids(idsp, pred) == keep_ids(self.e_ids().take(n - 1), pred).push(
                    e.id,
                ));
            } else {
                assert(adj_out(esp, v) == adj_out(self.edges@.take(n - 1), v));
                assert(keep_ids(idsp, pred) == keep_ids(self.e_ids().take(n - 1), pred));
            }
        }
    }

    proof fn lemma_in_ids_prefix(self, n: int, v: u64)
        requires
            self.wf(),
            0 <= n <= self.edges@.len(),
        ensures
            adj_ids(adj_in(self.edges@.take(n), v)) == keep_ids(
                self.e_ids().take(n),
                self.to_matcher(v),
            ),
        decreases n,
    {
        let pred = self.to_matcher(v);
        if n == 0 {
            assert(self.edges@.take(0) =~= Seq::<EdgeRec>::empty());
            assert(self.e_ids().take(0) =~= Seq::<u64>::empty());
            assert(adj_ids(adj_in(self.edges@.take(0), v)) =~= Seq::<u64>::empty());
        } else {
            self.lemma_in_ids_prefix(n - 1, v);
            let esp = self.edges@.take(n);
            let idsp = self.e_ids().take(n);
            let e = self.edges@[n - 1];
            assert(esp.drop_last() =~= self.edges@.take(n - 1));
            assert(esp.last() == e);
            assert(idsp.drop_last() =~= self.e_ids().take(n - 1));
            assert(idsp.last() == e.id) by {
                assert(self.e_ids()[n - 1] == e.id);
            }
            lemma_e_find_at(self.edges@, e.id, n - 1);
            assert(self.has_e(e.id)) by {
                assert(self.e_ids()[n - 1] == e.id);
            }
            assert(self.e_to(e.id) == e.to);
            assert(pred(e.id) == (e.to == v));
            if e.to == v {
                let entry = Adj { eid: e.id, peer: e.from, label: e.label };
                assert(adj_in(esp, v) == adj_in(self.edges@.take(n - 1), v).push(entry));
                assert(adj_ids(adj_in(esp, v)) =~= adj_ids(
                    adj_in(self.edges@.take(n - 1), v),
                ).push(e.id));
                assert(keep_ids(idsp, pred) == keep_ids(self.e_ids().take(n - 1), pred).push(
                    e.id,
                ));
            } else {
                assert(adj_in(esp, v) == adj_in(self.edges@.take(n - 1), v));
                assert(keep_ids(idsp, pred) == keep_ids(self.e_ids().take(n - 1), pred));
            }
        }
    }

    /// What the outgoing identifiers of a vertex are: exactly the present
    /// edges whose source is that vertex, each once, as the
    /// order-preserving subsequence of the edge listing.
    pub proof fn lemma_out_ids(self, v: u64)
        requires
            self.wf(),
        ensures
            self.out_ids(v) == keep_ids(self.e_ids(), self.from_matcher(v)),
            self.out_ids(v).no_duplicates(),
            forall|e: u64|
                #[trigger] self.out_ids(v).contains(e) <==> self.has_e(e) && self.e_from(e) == v,
    {
        lemma_adj_out_props(self.edges@, v);
        assert forall|e: u64| #[trigger] self.out_ids(v).contains(e) <==> self.has_e(e)
            && self.e_from(e) == v by {
            lemma_e_find_contains(self.edges@, e);
        }
        self.lemma_out_ids_prefix(self.edges@.len() as int, v);
        assert(self.edges@.take(self.edges@.len() as int) =~= self.edges@);
        assert(self.e_ids().take(self.edges@.len() as int) =~= self.e_ids());
    }

    /// What the incoming identifiers of a vertex are: exactly the present
    /// edges whose target is that vertex, each once, as the
    /// order-preserving subsequence of the edge listing.
    pub proof fn lemma_in_ids(self, v: u64)
        requires
            self.wf(),
        ensures
            self.in_ids(v) == keep_ids(self.e_ids(), self.to_matcher(v)),
            self.in_ids(v).no_duplicates(),
            forall|e: u64|
                #[trigger] self.in_ids(v).contains(e) <==> self.has_e(e) && self.e_to(e) == v,
    {
        lemma_adj_in_props(self.edges@, v);
        assert forall|e: u64| #[trigger] self.in_ids(v).contains(e) <==> self.has_e(e)
            && self.e_to(e) == v by {
            lemma_e_find_contains(self.edges@, e);
        }
        self.lemma_in_ids_prefix(self.edges@.len() as int, v);
        assert(self.edges@.take(self.edges@.len() as int) =~= self.edges@);
        assert(self.e_ids().take(self.edges@.len() as int) =~= self.e_ids());
    }

    /// Stores each (key, value) pair of `properties`, in order, on the
    /// freshly created edge `owner`, whose table starts empty.
    fn init_eprops(&mut self, owner: u64, properties: &Vec<(String, String)>)
        requires
            old(self).wf(),
            old(self).has_e(owner),
            forall|k: Seq<char>|
                #[trigger] old(self).eprops(owner, k) == Seq::<Seq<char>>::empty(),
        ensures
            final(self).wf(),
            same_entities(*old(self), *final(self)),
            edges_kept(*old(self), *final(self)),
            same_vprops(*old(self), *final(self)),
            forall|o: u64, k: Seq<char>|
                o != owner ==> (#[trigger] final(self).eprops(o, k)) == old(self).eprops(o, k),
            forall|k: Seq<char>|
                #[trigger] final(self).eprops(owner, k) == pair_values(
                    pairs_view(properties@),
                    k,
                ),
    {
        let ghost g0 = *old(self);
        proof {
            lemma_edges_kept_same(g0, *self);
        }
        let n = properties.len();
        let mut i: usize = 0;
        while i < n
            invariant
                n == properties.len(),
                i <= n,
                self.wf(),
                g0.wf(),
                g0.has_e(owner),
                same_entities(g0, *self),
                edges_kept(g0, *self),
                same_vprops(g0, *self),
                forall|o: u64, k: Seq<char>|
                    o != owner ==> (#[trigger] self.eprops(o, k)) == g0.eprops(o, k),
                forall|k: Seq<char>|
                    #[trigger] self.eprops(owner, k) == pair_values(
                        pairs_view(properties@.take(i as int)),
                        k,
                    ),
            decreases n - i,
        {
            let ghost pre = *self;
            let _r = self.set(owner, &properties[i].0, &properties[i].1);
            proof {
                assert(pre.has_e(owner));
                assert(!pre.has_v(owner)) by {
                    pre.lemma_ids_distinct();
                }
                lemma_edges_kept_trans(g0, pre, *self);
                assert forall|e: u64| g0.has_e(e) implies (#[trigger] self.e_label(e))
                    == g0.e_label(e) && self.e_from(e) == g0.e_from(e) && self.e_to(e)
                    == g0.e_to(e) by {
                    assert(pre.e_label(e) == g0.e_label(e) && pre.e_from(e) == g0.e_from(e)
                        && pre.e_to(e) == g0.e_to(e) && pre.has_e(e));
                    assert(self.e_label(e) == pre.e_label(e) && self.e_from(e) == pre.e_from(e)
                        && self.e_to(e) == pre.e_to(e));
                }
                assert(same_entities(g0, *self));
                assert(pairs_view(properties@.take(i + 1)) =~= pairs_view(
                    properties@.take(i as int),
                ).push((properties@[i as int].0@, properties@[i as int].1@)));
                assert forall|k: Seq<char>| #[trigger] self.eprops(owner, k) == pair_values(
                    pairs_view(properties@.take(i + 1)),
                    k,
                ) by {
                    let ext = pairs_view(properties@.take(i as int)).push(
                        (properties@[i as int].0@, properties@[i as int].1@),
                    );
                    assert(ext.drop_last() =~= pairs_view(properties@.take(i as int)));
                }
            }
            i += 1;
        }
        proof {
            assert(properties@.take(n as int) =~= properties@);
        }
    }

    /// Allocates the identifier, records the edge, and pushes the two
    /// adjacency entries; the new edge's property table starts empty.
    #[verifier::rlimit(100)]
    fn attach_edge(&mut self, label: &String, from: u64, to: u64) -> (id: u64)
        requires
            old(self).wf(),
            old(self).id_bound() < u64::MAX,
            old(self).has_v(from),
            old(self).has_v(to),
        ensures
            final(self).wf(),
            id == old(self).id_bound(),
            !old(self).has_e(id),
            !old(self).has_v(id),
            final(self).id_bound() == old(self).id_bound() + 1,
            final(self).v_ids() == old(self).v_ids(),
            final(self).e_ids() == old(self).e_ids().push(id),
            final(self).has_e(id),
            final(self).e_label(id) == label@,
            final(self).e_from(id) == from,
            final(self).e_to(id) == to,
            edges_kept(*old(self), *final(self)),
            same_vprops(*old(self), *final(self)),
            forall|o: u64, k: Seq<char>|
                o != id ==> (#[trigger] final(self).eprops(o, k)) == old(self).eprops(o, k),
            forall|k: Seq<char>|
                #[trigger] final(self).eprops(id, k) == Seq::<Seq<char>>::empty(),
    {
        let fvo = self.find_vertex(from);
        let fto = self.find_vertex(to);
        let (fi, ti) = match (fvo, fto) {
            (Some(a), Some(b)) => (a, b),
            _ => {
                proof {
                    if fvo is None {
                        let j = choose|j: int|
                            0 <= j < self.v_ids().len() && self.v_ids()[j] == from;
                        assert(self.vertices@[j].id == from);
                        assert(false);
                    }
                    if fto is None {
                        let j = choose|j: int| 0 <= j < self.v_ids().len() && self.v_ids()[j] == to;
                        assert(self.vertices@[j].id == to);
                        assert(false);
                    }
                }
                (0, 0)
            },
        };
        let ghost g0 = *self;
        let id = self.next_id;
        self.next_id = id + 1;
        let erec = EdgeRec {
            id,
            label: label.clone(),
            from,
            to,
            props: PropTable::new(),
        };
        let ghost erecg = erec;
        self.edges.push(erec);
        if fi == ti {
            let mut vrec = self.vertices.remove(fi);
            let ghost vrec0 = vrec;
            vrec.out.push(Adj { eid: id, peer: to, label: label.clone() });
            vrec.inc.push(Adj { eid: id, peer: from, label: label.clone() });
            self.vertices.insert(fi, vrec);
            proof {
                assert(self.vertices@ =~= g0.vertices@.update(
                    fi as int,
                    self.vertices@[fi as int],
                ));
            }
        } else {
            let mut vf = self.vertices.remove(fi);
            vf.out.push(Adj { eid: id, peer: to, label: label.clone() });
            self.vertices.insert(fi, vf);
            let mut vt = self.vertices.remove(ti);
            vt.inc.push(Adj { eid: id, peer: from, label: label.clone() });
            self.vertices.insert(ti, vt);
            proof {
                assert(self.vertices@ =~= g0.vertices@.update(
                    fi as int,
                    self.vertices@[fi as int],
                ).update(ti as int, self.vertices@[ti as int]));
            }
        }
        proof {
            let vs0 = g0.vertices@;
            let vs1 = self.vertices@;
            let es0 = g0.edges@;
            let es1 = self.edges@;
            assert(es1 == es0.push(erecg));
            assert(es1.drop_last() =~= es0);
            assert(e_ids_of(es1) =~= e_ids_of(es0).push(id));
            assert(!g0.has_e(id)) by {
                if e_ids_of(es0).contains(id) {
                    let j = choose|j: int|
                        0 <= j < e_ids_of(es0).len() && e_ids_of(es0)[j] == id;
                    assert(es0[j].id == id);
                }
            }
            assert(!g0.has_v(id)) by {
                if v_ids_of(vs0).contains(id) {
                    let j = choose|j: int|
                        0 <= j < v_ids_of(vs0).len() && v_ids_of(vs0)[j] == id;
                    assert(vs0[j].id == id);
                }
            }
            lemma_no_dup_push(e_ids_of(es0), id);
            assert forall|l: int| 0 <= l < e_ids_of(es0).len() implies e_ids_of(es0)[l] < id by {
                assert(e_ids_of(es0)[l] == es0[l].id);
            }
            lemma_ascending_push(e_ids_of(es0), id);
            assert(vs1.len() == vs0.len());
            assert(forall|j: int|
                0 <= j < vs1.len() ==> (#[trigger] vs1[j]).id == vs0[j].id
                    && vs1[j].props == vs0[j].props);
            assert(v_ids_of(vs1) =~= v_ids_of(vs0));
            assert forall|o: u64| #[trigger] e_find(es1, o) == if o == id {
                Some(erecg)
            } else {
                e_find(es0, o)
            } by {}
            assert forall|o: u64| #[trigger] v_find(vs1, o) == if o == from {
                Some(vs1[fi as int])
            } else if o == to {
                Some(vs1[ti as int])
            } else {
                v_find(vs0, o)
            } by {
                assert(vs0[fi as int].id == from);
                assert(vs0[ti as int].id == to);
                assert(v_ids_of(vs0)[fi as int] == from);
                assert(v_ids_of(vs0)[ti as int] == to);
                if fi == ti {
                    assert(vs1 =~= vs0.update(fi as int, vs1[fi as int]));
                    lemma_v_find_update(vs0, fi as int, vs1[fi as int], o);
                } else {
                    assert(from != to);
                    lemma_v_find_update(vs0, fi as int, vs1[fi as int], o);
                    let vs_mid = vs0.update(fi as int, vs1[fi as int]);
                    assert(v_ids_of(vs_mid) =~= v_ids_of(vs0));
                    assert(vs_mid[ti as int] == vs0[ti as int]);
                    lemma_v_find_update(vs_mid, ti as int, vs1[ti as int], o);
                    assert(vs1 =~= vs_mid.update(ti as int, vs1[ti as int]));
                }
            }
            // adjacency lists match the derived entries
            assert forall|j: int| 0 <= j < vs1.len() implies (#[trigger] vs1[j]).out@
                == adj_out(es1, vs1[j].id) && vs1[j].inc@ == adj_in(es1, vs1[j].id) by {
                assert(vs0[j].out@ == adj_out(es0, vs0[j].id));
                assert(vs0[j].inc@ == adj_in(es0, vs0[j].id));
                if j == fi as int {
                    assert(vs1[j].out@ =~= vs0[j].out@.push(
                        Adj { eid: id, peer: to, label: erecg.label },
                    ));
                }
                if j == ti as int {
                    assert(vs1[j].inc@ =~= vs0[j].inc@.push(
                        Adj { eid: id, peer: from, label: erecg.label },
                    ));
                }
                if j != fi as int {
                    assert(vs1[j].out@ == vs0[j].out@);
                    assert(vs1[j].id != from) by {
                        assert(v_ids_of(vs0)[j] == vs0[j].id);
                        assert(v_ids_of(vs0)[fi as int] == from);
                    }
                }
                if j != ti as int {
                    assert(vs1[j].inc@ == vs0[j].inc@);
                    assert(vs1[j].id != to) by {
                        assert(v_ids_of(vs0)[j] == vs0[j].id);
                        assert(v_ids_of(vs0)[ti as int] == to);
                    }
                }
            }
            assert forall|j: int| 0 <= j < es1.len() implies (#[trigger] es1[j]).id
                < self.next_id && self.has_v(es1[j].from) && self.has_v(es1[j].to) by {
                if j < es0.len() {
                    assert(es1[j] == es0[j]);
                    assert(es0[j].id < g0.next_id);
                } else {
                    assert(es1[j] == erecg);
                }
            }
            assert forall|k: Seq<char>, val: Seq<char>, o: u64| #[trigger] self
                .eindex
                .has_owner(k, val, o) <==> self.e_has_prop(o, k, val) by {
                lemma_push_contains(e_ids_of(es0), id, o);
            }
            lemma_v_find_at(vs0, from, fi as int);
            lemma_v_find_at(vs0, to, ti as int);
            assert forall|o: u64, k: Seq<char>| (#[trigger] self.vprops(o, k)) == g0.vprops(
                o,
                k,
            ) by {}
            assert forall|k: Seq<char>, val: Seq<char>, o: u64| #[trigger] self
                .vindex
                .has_owner(k, val, o) <==> self.v_has_prop(o, k, val) by {}
            assert(self.wf());
            assert(same_vprops(g0, *self));
            assert(self.has_e(id)) by {
                assert(e_ids_of(self.edges@)[g0.edges@.len() as int] == id);
            }
            assert forall|e: u64| g0.has_e(e) implies #[trigger] edge_kept_at(g0, *self, e) by {
                lemma_push_contains(e_ids_of(es0), id, e);
                assert(e != id);
            }
            assert(edges_kept(g0, *self));
            assert(self.e_label(id) == label@);
            assert(self.e_from(id) == from);
            assert(self.e_to(id) == to);
        }
        id
    }

    /// Adds a directed labeled edge from `from` to `to`, with initial
    /// properties, updating both endpoints' adjacency lists. Fails with
    /// `UnknownVertex`, changing nothing, unless both endpoints are
    /// present vertices.
    #[allow(non_snake_case)]
    #[verifier::rlimit(100)]
    pub fn addE(
        &mut self,
        label: &String,
        from: u64,
        to: u64,
        properties: &Vec<(String, String)>,
    ) -> (r: Result<u64, GraphError>)
        requires
            old(self).wf(),
            old(self).id_bound() < u64::MAX,
        ensures
            final(self).wf(),
            r is Ok <==> (old(self).has_v(from) && old(self).has_v(to)),
            !(old(self).has_v(from) && old(self).has_v(to)) ==> r == Err::<u64, GraphError>(
                GraphError::UnknownVertex,
            ) && *final(self) == *old(self),
            r is Ok ==> r->Ok_0 == old(self).id_bound() && !old(self).has_e(r->Ok_0) && !old(
                self,
            ).has_v(r->Ok_0) && final(self).id_bound() == old(self).id_bound() + 1,
            r is Ok ==> final(self).v_ids() == old(self).v_ids() && final(self).e_ids() == old(
                self,
            ).e_ids().push(r->Ok_0),
            r is Ok ==> final(self).e_label(r->Ok_0) == label@ && final(self).e_from(r->Ok_0)
                == from && final(self).e_to(r->Ok_0) == to,
            r is Ok ==> edges_kept(*old(self), *final(self)),
            r is Ok ==> same_vprops(*old(self), *final(self)),
            r is Ok ==> forall|o: u64, k: Seq<char>|
                o != r->Ok_0 ==> (#[trigger] final(self).eprops(o, k)) == old(self).eprops(o, k),
            r is Ok ==> forall|k: Seq<char>|
                #[trigger] final(self).eprops(r->Ok_0, k) == pair_values(
                    pairs_view(properties@),
                    k,
                ),
    {
        let fv = self.find_vertex(from);
        let ft = self.find_vertex(to);
        match (fv, ft) {
            (Some(fi), Some(ti)) => {
                proof {
                    assert(self.has_v(from)) by {
                        assert(v_ids_of(self.vertices@)[fi as int] == from);
                    }
                    assert(self.has_v(to)) by {
                        assert(v_ids_of(self.vertices@)[ti as int] == to);
                    }
                }
                let id = self.attach_edge(label, from, to);
                let ghost g0 = *old(self);
                let ghost g1 = *self;
                proof {
                    assert forall|k: Seq<char>| #[trigger] g1.eprops(id, k) == Seq::<
                        Seq<char>,
                    >::empty() by {}
                }
                self.init_eprops(id, properties);
                proof {
                    lemma_edges_kept_trans(g0, g1, *self);
                    lemma_edges_kept(g1, *self, id);
                    assert forall|o: u64, k: Seq<char>| o != id implies (
                    #[trigger] self.eprops(o, k)) == g0.eprops(o, k) by {
                        assert(self.eprops(o, k) == g1.eprops(o, k));
                    }
                }
                Ok(id)
            },
            _ => {
                proof {
                    if fv is None && self.has_v(from) {
                        let j = choose|j: int|
                            0 <= j < self.v_ids().len() && self.v_ids()[j] == from;
                        assert(self.vertices@[j].id == from);
                    }
                    if ft is None && self.has_v(to) {
                        let j = choose|j: int| 0 <= j < self.v_ids().len() && self.v_ids()[j] == to;
                        assert(self.vertices@[j].id == to);
                    }
                    if fv is Some {
                        assert(self.has_v(from)) by {
                            assert(v_ids_of(self.vertices@)[fv->Some_0 as int] == from);
                        }
                    }
                    if ft is Some {
                        assert(self.has_v(to)) by {
                            assert(v_ids_of(self.vertices@)[ft->Some_0 as int] == to);
                        }
                    }
                }
                Err(GraphError::UnknownVertex)
            },
        }
    }

    /// The edges leaving `v`, in edge-insertion order, answered from the
    /// vertex's adjacency list. Fails with `UnknownVertex` when `v` is
    /// absent.
    pub fn outgoing(&self, v: u64) -> (r: Result<Vec<EdgeInfo>, GraphError>)
        requires
            self.wf(),
        ensures
            r is Ok <==> self.has_v(v),
            !self.has_v(v) ==> r == Err::<Vec<EdgeInfo>, GraphError>(GraphError::UnknownVertex),
            r is Ok ==> (r->Ok_0)@.len() == self.out_ids(v).len() && forall|j: int|
                0 <= j < self.out_ids(v).len() ==> (#[trigger] (r->Ok_0)@[j]).id == self.out_ids(
                    v,
                )[j] && (r->Ok_0)@[j].label@ == self.e_label(self.out_ids(v)[j]) && (r->Ok_0)@[j]
                .from == v && (r->Ok_0)@[j].to == self.e_to(self.out_ids(v)[j]),
    {
        let f = self.find_vertex(v);
        match f {
            Some(i) => {
                proof {
                    assert(self.has_v(v)) by {
                        assert(v_ids_of(self.vertices@)[i as int] == v);
                    }
                    lemma_adj_out_props(self.edges@, v);
                }
                let rec = &self.vertices[i];
                let n = rec.out.len();
                let mut r: Vec<EdgeInfo> = Vec::new();
                let mut j: usize = 0;
                while j < n
                    invariant
                        n == rec.out.len(),
                        rec.out@ == adj_out(self.edges@, v),
                        self.wf(),
                        j <= n,
                        r@.len() == j,
                        forall|l: int|
                            0 <= l < j ==> (#[trigger] r@[l]).id == adj_out(self.edges@, v)[l].eid
                                && r@[l].label == adj_out(self.edges@, v)[l].label && r@[l].from
                                == v && r@[l].to == adj_out(self.edges@, v)[l].peer,
                    decreases n - j,
                {
                    let a = &rec.out[j];
                    r.push(EdgeInfo { id: a.eid, label: a.label.clone(), from: v, to: a.peer });
                    j += 1;
                }
                proof {
                    assert forall|l: int| 0 <= l < self.out_ids(v).len() implies (
                    #[trigger] r@[l]).id == self.out_ids(v)[l] && r@[l].label@ == self.e_label(
                        self.out_ids(v)[l],
                    ) && r@[l].from == v && r@[l].to == self.e_to(self.out_ids(v)[l]) by {
                        assert(self.out_ids(v)[l] == adj_out(self.edges@, v)[l].eid);
                    }
                }
                Ok(r)
            },
            None => {
                proof {
                    if self.has_v(v) {
                        let j = choose|j: int| 0 <= j < self.v_ids().len() && self.v_ids()[j] == v;
                        assert(self.vertices@[j].id == v);
                    }
                }
                Err(GraphError::UnknownVertex)
            },
        }
    }

    /// The edges entering `v`, in edge-insertion order, answered from the
    /// vertex's adjacency list. Fails with `UnknownVertex` when `v` is
    /// absent.
    pub fn incoming(&self, v: u64) -> (r: Result<Vec<EdgeInfo>, GraphError>)
        requires
            self.wf(),
        ensures
            r is Ok <==> self.has_v(v),
            !self.has_v(v) ==> r == Err::<Vec<EdgeInfo>, GraphError>(GraphError::UnknownVertex),
            r is Ok ==> (r->Ok_0)@.len() == self.in_ids(v).len() && forall|j: int|
                0 <= j < self.in_ids(v).len() ==> (#[trigger] (r->Ok_0)@[j]).id == self.in_ids(
                    v,
                )[j] && (r->Ok_0)@[j].label@ == self.e_label(self.in_ids(v)[j]) && (r->Ok_0)@[j].to
                == v && (r->Ok_0)@[j].from == self.e_from(self.in_ids(v)[j]),
    {
        let f = self.find_vertex(v);
        match f {
            Some(i) => {
                proof {
                    assert(self.has_v(v)) by {
                        assert(v_ids_of(self.vertices@)[i as int] == v);
                    }
                    lemma_adj_in_props(self.edges@, v);
                }
                let rec = &self.vertices[i];
                let n = rec.inc.len();
                let mut r: Vec<EdgeInfo> = Vec::new();
                let mut j: usize = 0;
                while j < n
                    invariant
                        n == rec.inc.len(),
                        rec.inc@ == adj_in(self.edges@, v),
                        self.wf(),
                        j <= n,
                        r@.len() == j,
                        forall|l: int|
                            0 <= l < j ==> (#[trigger] r@[l]).id == adj_in(self.edges@, v)[l].eid
                                && r@[l].label == adj_in(self.edges@, v)[l].label && r@[l].to == v
                                && r@[l].from == adj_in(self.edges@, v)[l].peer,
                    decreases n - j,
                {
                    let a = &rec.inc[j];
                    r.push(EdgeInfo { id: a.eid, label: a.label.clone(), from: a.peer, to: v });
                    j += 1;
                }
                proof {
                    assert forall|l: int| 0 <= l < self.in_ids(v).len() implies (
                    #[trigger] r@[l]).id == self.in_ids(v)[l] && r@[l].label@ == self.e_label(
                        self.in_ids(v)[l],
                    ) && r@[l].to == v && r@[l].from == self.e_from(self.in_ids(v)[l]) by {
                        assert(self.in_ids(v)[l] == adj_in(self.edges@, v)[l].eid);
                    }
                }
                Ok(r)
            },
            None => {
                proof {
                    if self.has_v(v) {
                        let j = choose|j: int| 0 <= j < self.v_ids().len() && self.v_ids()[j] == v;
                        assert(self.vertices@[j].id == v);
                    }
                }
                Err(GraphError::UnknownVertex)
            },
        }
    }

    /// The identifier, label and endpoints of edge `id`; `UnknownEdge`
    /// when absent.
    pub fn edge_info(&self, id: u64) -> (r: Result<EdgeInfo, GraphError>)
        requires
            self.wf(),
        ensures
            r is Ok <==> self.has_e(id),
            !self.has_e(id) ==> r == Err::<EdgeInfo, GraphError>(GraphError::UnknownEdge),
            r is Ok ==> (r->Ok_0).id == id && (r->Ok_0).label@ == self.e_label(id) && (r->Ok_0)
                .from == self.e_from(id) && (r->Ok_0).to == self.e_to(id),
    {
        let f = self.find_edge(id);
        match f {
            Some(i) => {
                proof {
                    assert(self.has_e(id)) by {
                        assert(e_ids_of(self.edges@)[i as int] == id);
                    }
                    lemma_e_find_at(self.edges@, id, i as int);
                }
                let rec = &self.edges[i];
                Ok(EdgeInfo { id: rec.id, label: rec.label.clone(), from: rec.from, to: rec.to })
            },
            None => {
                proof {
                    if self.has_e(id) {
                        let j = choose|j: int| 0 <= j < self.e_ids().len() && self.e_ids()[j] == id;
                        assert(self.edges@[j].id == id);
                    }
                }
                Err(GraphError::UnknownEdge)
            },
        }
    }

    /// Removes edge `id`: the record, its reverse-index entries, and its
    /// entry in both endpoints' adjacency lists, as one step. Fails with
    /// `UnknownEdge`, changing nothing, when the edge is absent.
    #[verifier::rlimit(100)]
    pub fn drop_edge(&mut self, id: u64) -> (r: Result<(), GraphError>)
        requires
            old(self).wf(),
        ensures
            final(self).wf(),
            r is Ok <==> old(self).has_e(id),
            !old(self).has_e(id) ==> r == Err::<(), GraphError>(GraphError::UnknownEdge)
                && *final(self) == *old(self),
            final(self).id_bound() == old(self).id_bound(),
            final(self).v_ids() == old(self).v_ids(),
            r is Ok ==> final(self).e_ids() == seq_remove_u64(old(self).e_ids(), id),
            forall|e: u64| #[trigger] final(self).has_e(e) <==> old(self).has_e(e) && e != id,
            forall|e: u64|
                old(self).has_e(e) && e != id ==> #[trigger] edge_kept_at(
                    *old(self),
                    *final(self),
                    e,
                ),
            same_vprops(*old(self), *final(self)),
            forall|o: u64, k: Seq<char>|
                o != id ==> (#[trigger] final(self).eprops(o, k)) == old(self).eprops(o, k),
    {
        let f = self.find_edge(id);
        match f {
            None => {
                proof {
                    if self.has_e(id) {
                        let j = choose|j: int| 0 <= j < self.e_ids().len() && self.e_ids()[j] == id;
                        assert(self.edges@[j].id == id);
                    }
                    assert forall|e: u64| old(self).has_e(e) && e != id implies
                        #[trigger] edge_kept_at(*old(self), *self, e) by {}
                    assert forall|e: u64| #[trigger] self.has_e(e) <==> (old(self).has_e(e) && e
                        != id) by {}
                }
                Err(GraphError::UnknownEdge)
            },
            Some(ei) => {
                let ghost g0 = *self;
                proof {
                    assert(g0.has_e(id)) by {
                        assert(e_ids_of(self.edges@)[ei as int] == id);
                    }
                    lemma_e_find_at(self.edges@, id, ei as int);
                }
                let erec = self.edges.remove(ei);
                let ghost erecg = erec;
                proof {
                    let es0 = g0.edges@;
                    let es1 = self.edges@;
                    assert(es1 == es0.remove(ei as int));
                    assert(e_ids_of(es1) =~= e_ids_of(es0).remove(ei as int));
                    lemma_no_dup_remove(e_ids_of(es0), ei as int);
                    lemma_ascending_remove(e_ids_of(es0), ei as int);
                    lemma_seq_remove_at(e_ids_of(es0), ei as int);
                    assert(e_ids_of(es1) == seq_remove_u64(e_ids_of(es0), id));
                    assert forall|o: u64| #[trigger] e_find(es1, o) == if o == id {
                        None::<EdgeRec>
                    } else {
                        e_find(es0, o)
                    } by {
                        lemma_e_find_remove(es0, ei as int, o);
                    }
                    assert forall|u: u64| #[trigger] adj_out(es1, u) == filter_adj(
                        adj_out(es0, u),
                        id,
                    ) && adj_in(es1, u) == filter_adj(adj_in(es0, u), id) by {
                        lemma_adj_remove(es0, ei as int, u);
                    }
                    assert forall|e: u64| #[trigger] self.has_e(e) <==> g0.has_e(e) && e
                        != id by {
                        lemma_seq_remove_contains(e_ids_of(es0), id, e);
                    }
                }
                let from_id = erec.from;
                let to_id = erec.to;
                let ps = erec.props.pairs();
                let ghost g1 = *self;
                let ghost ex0 = self.eindex;
                let np = ps.len();
                let mut l: usize = 0;
                while l < np
                    invariant
                        np == ps.len(),
                        self.eindex.wf(),
                        *self == (Graph { eindex: self.eindex, ..g1 }),
                        l <= np,
                        forall|k: Seq<char>, val: Seq<char>, o: u64|
                            o != id ==> (#[trigger] self.eindex.has_owner(k, val, o)
                                <==> ex0.has_owner(k, val, o)),
                        forall|k: Seq<char>, val: Seq<char>|
                            #[trigger] self.eindex.has_owner(k, val, id) ==> ex0.has_owner(
                                k,
                                val,
                                id,
                            ) && (forall|m: int|
                                0 <= m < l ==> !(ps@[m].0@ == k && ps@[m].1@ == val)),
                    decreases np - l,
                {
                    self.eindex.remove(id, &ps[l].0, &ps[l].1);
                    l += 1;
                }
                let fo = self.find_vertex(from_id);
                let fi = match fo {
                    Some(a) => a,
                    None => {
                        proof {
                            assert(g0.has_v(from_id)) by {
                                assert(g0.edges@[ei as int].from == from_id);
                            }
                            let j = choose|j: int|
                                0 <= j < g0.v_ids().len() && g0.v_ids()[j] == from_id;
                            assert(g0.vertices@[j].id == from_id);
                            assert(self.vertices@[j].id == from_id);
                            assert(false);
                        }
                        0
                    },
                };
                let to2 = self.find_vertex(to_id);
                let ti = match to2 {
                    Some(a) => a,
                    None => {
                        proof {
                            assert(g0.has_v(to_id)) by {
                                assert(g0.edges@[ei as int].to == to_id);
                            }
                            let j = choose|j: int|
                                0 <= j < g0.v_ids().len() && g0.v_ids()[j] == to_id;
                            assert(g0.vertices@[j].id == to_id);
                            assert(self.vertices@[j].id == to_id);
                            assert(false);
                        }
                        0
                    },
                };
                let ghost vs0 = self.vertices@;
                if fi == ti {
                    let mut vrec = self.vertices.remove(fi);
                    let newout = filter_adj_exec(&vrec.out, id);
                    let newinc = filter_adj_exec(&vrec.inc, id);
                    vrec.out = newout;
                    vrec.inc = newinc;
                    self.vertices.insert(fi, vrec);
                    proof {
                        assert(self.vertices@ =~= vs0.update(fi as int, self.vertices@[fi as int]));
                    }
                } else {
                    let mut vf = self.vertices.remove(fi);
                    let newout = filter_adj_exec(&vf.out, id);
                    vf.out = newout;
                    self.vertices.insert(fi, vf);
                    let mut vt = self.vertices.remove(ti);
                    let newinc = filter_adj_exec(&vt.inc, id);
                    vt.inc = newinc;
                    self.vertices.insert(ti, vt);
                    proof {
                        assert(self.vertices@ =~= vs0.update(
                            fi as int,
                            self.vertices@[fi as int],
                        ).update(ti as int, self.vertices@[ti as int]));
                    }
                }
                proof {
                    let es0 = g0.edges@;
                    let es1 = self.edges@;
                    let vs1 = self.vertices@;
                    assert(es1 == es0.remove(ei as int));
                    assert(e_ids_of(es1) =~= e_ids_of(es0).remove(ei as int));
                    lemma_no_dup_remove(e_ids_of(es0), ei as int);
                    lemma_ascending_remove(e_ids_of(es0), ei as int);
                    lemma_seq_remove_at(e_ids_of(es0), ei as int);
                    assert(self.e_ids() == seq_remove_u64(g0.e_ids(), id));
                    assert forall|e: u64| #[trigger] self.has_e(e) <==> (g0.has_e(e) && e
                        != id) by {
                        lemma_seq_remove_contains(e_ids_of(es0), id, e);
                    }
                    assert(vs0 == g0.vertices@);
                    assert(vs0[fi as int].id == from_id);
                    assert(vs0[ti as int].id == to_id);
                    assert(v_ids_of(vs0)[fi as int] == from_id);
                    assert(v_ids_of(vs0)[ti as int] == to_id);
                    assert(vs1.len() == vs0.len());
                    assert(forall|j: int|
                        0 <= j < vs1.len() ==> (#[trigger] vs1[j]).id == vs0[j].id
                            && vs1[j].props == vs0[j].props);
                    assert(v_ids_of(vs1) =~= v_ids_of(vs0));
                    // the records found for the endpoints
                    assert forall|o: u64| v_find(vs1, o) is Some implies v_find(vs0, o) is Some
                        && (#[trigger] v_find(vs1, o))->Some_0.id == v_find(vs0, o)->Some_0.id
                        && v_find(vs1, o)->Some_0.props == v_find(vs0, o)->Some_0.props by {
                        lemma_v_find_contains(vs1, o);
                        let j = choose|j: int| 0 <= j < v_ids_of(vs1).len() && v_ids_of(vs1)[j] == o;
                        lemma_v_find_at(vs1, o, j);
                        lemma_v_find_at(vs0, o, j);
                    }
                    assert forall|o: u64| v_find(vs1, o) is Some <==> v_find(vs0, o) is Some by {
                        lemma_v_find_contains(vs1, o);
                        lemma_v_find_contains(vs0, o);
                    }
                    assert(same_vprops(g0, *self));
                    // adjacency lists match the filtered derivations
                    assert forall|j: int| 0 <= j < vs1.len() implies (#[trigger] vs1[j]).out@
                        == adj_out(es1, vs1[j].id) && vs1[j].inc@ == adj_in(es1, vs1[j].id) by {
                        let u = vs1[j].id;
                        assert(vs0[j].out@ == adj_out(es0, u));
                        assert(vs0[j].inc@ == adj_in(es0, u));
                        lemma_adj_out_props(es0, u);
                        lemma_adj_in_props(es0, u);
                        lemma_adj_remove(es0, ei as int, u);
                        assert(adj_out(es1, u) == filter_adj(adj_out(es0, u), id));
                        assert(adj_in(es1, u) == filter_adj(adj_in(es0, u), id));
                        if j != fi as int {
                            assert(u != from_id) by {
                                assert(v_ids_of(vs0)[j] == u);
                            }
                            assert forall|m: int| 0 <= m < adj_out(es0, u).len() implies (
                            #[trigger] adj_out(es0, u)[m]).eid != id by {
                                if adj_out(es0, u)[m].eid == id {
                                    assert(e_find(es0, id)->Some_0.from == u);
                                }
                            }
                            lemma_filter_adj_absent(adj_out(es0, u), id);
                            assert(vs1[j].out@ == vs0[j].out@);
                        } else {
                            assert(vs1[j].out@ == filter_adj(adj_out(es0, u), id));
                        }
                        if j != ti as int {
                            assert(u != to_id) by {
                                assert(v_ids_of(vs0)[j] == u);
                            }
                            assert forall|m: int| 0 <= m < adj_in(es0, u).len() implies (
                            #[trigger] adj_in(es0, u)[m]).eid != id by {
                                if adj_in(es0, u)[m].eid == id {
                                    assert(e_find(es0, id)->Some_0.to == u);
                                }
                            }
                            lemma_filter_adj_absent(adj_in(es0, u), id);
                            assert(vs1[j].inc@ == vs0[j].inc@);
                        } else {
                            assert(vs1[j].inc@ == filter_adj(adj_in(es0, u), id));
                        }
                    }
                    // identifier bookkeeping
                    assert forall|j: int| 0 <= j < es1.len() implies (#[trigger] es1[j]).id
                        < self.next_id && self.has_v(es1[j].from) && self.has_v(es1[j].to) by {
                        let j0: int = if j < ei as int {
                            j
                        } else {
                            j + 1
                        };
                        assert(es1[j] == es0[j0]);
                        assert(es0[j0].id < g0.next_id);
                        assert(g0.has_v(es0[j0].from));
                        assert(g0.has_v(es0[j0].to));
                    }
                    // the edge index agrees with the tables again
                    assert forall|k: Seq<char>, val: Seq<char>, o: u64| #[trigger] self
                        .eindex
                        .has_owner(k, val, o) <==> self.e_has_prop(o, k, val) by {
                        if o == id {
                            if self.eindex.has_owner(k, val, o) {
                                assert(ex0.has_owner(k, val, id));
                                assert(g0.e_has_prop(id, k, val));
                                assert(g0.eprops(id, k) == erecg.props.values_of(k));
                                lemma_pair_values_contains(erecg.props.entries_view(), k, val);
                                let m = choose|m: int|
                                    0 <= m < erecg.props.entries_view().len()
                                        && erecg.props.entries_view()[m] == (k, val);
                                assert(pairs_view(ps@)[m] == (k, val));
                                assert(ps@[m].0@ == k && ps@[m].1@ == val);
                                assert(false);
                            }
                            assert(!self.e_has_prop(o, k, val));
                        } else {
                            assert(self.eindex.has_owner(k, val, o) == ex0.has_owner(k, val, o));
                            lemma_e_find_remove(es0, ei as int, o);
                            assert(e_find(es1, o) == e_find(es0, o));
                            assert(self.eprops(o, k) == g0.eprops(o, k));
                            assert(self.has_e(o) == g0.has_e(o));
                        }
                    }
                    assert forall|k: Seq<char>, val: Seq<char>, o: u64| #[trigger] self
                        .vindex
                        .has_owner(k, val, o) <==> self.v_has_prop(o, k, val) by {}
                    assert(self.wf());
                    // the published relations
                    assert forall|e: u64| g0.has_e(e) && e != id implies #[trigger] edge_kept_at(
                        g0,
                        *self,
                        e,
                    ) by {
                        lemma_e_find_remove(es0, ei as int, e);
                        assert(e_find(es1, e) == e_find(es0, e));
                        lemma_seq_remove_contains(e_ids_of(es0), id, e);
                    }
                    assert forall|o: u64, k: Seq<char>| o != id implies (
                    #[trigger] self.eprops(o, k)) == g0.eprops(o, k) by {
                        lemma_e_find_remove(es0, ei as int, o);
                        assert(e_find(es1, o) == e_find(es0, o));
                    }
                }
                Ok(())
            },
        }
    }

    /// Removes vertex `id` and cascades: every edge incident to it is
    /// dropped, with its index records and adjacency entries, before the
    /// vertex's own properties are unindexed and its record removed. The
    /// cascade is complete when the call returns. Fails with
    /// `UnknownVertex`, changing nothing, when the vertex is absent.
    #[verifier::rlimit(100)]
    pub fn drop_vertex(&mut self, id: u64) -> (r: Result<(), GraphError>)
        requires
            old(self).wf(),
        ensures
            final(self).wf(),
            r is Ok <==> old(self).has_v(id),
            !old(self).has_v(id) ==> r == Err::<(), GraphError>(GraphError::UnknownVertex)
                && *final(self) == *old(self),
            final(self).id_bound() == old(self).id_bound(),
            r is Ok ==> final(self).v_ids() == seq_remove_u64(old(self).v_ids(), id),
            forall|v: u64| #[trigger] final(self).has_v(v) <==> (old(self).has_v(v) && v != id),
            forall|e: u64|
                #[trigger] final(self).has_e(e) <==> (old(self).has_e(e) && old(self).e_from(e)
                    != id && old(self).e_to(e) != id),
            forall|e: u64|
                old(self).has_e(e) && old(self).e_from(e) != id && old(self).e_to(e) != id
                    ==> #[trigger] edge_kept_at(*old(self), *final(self), e),
            forall|o: u64, k: Seq<char>|
                o != id ==> (#[trigger] final(self).vprops(o, k)) == old(self).vprops(o, k),
            forall|o: u64, k: Seq<char>|
                old(self).has_e(o) && old(self).e_from(o) != id && old(self).e_to(o) != id ==> (
                #[trigger] final(self).eprops(o, k)) == old(self).eprops(o, k),
    {
        let f0 = self.find_vertex(id);
        match f0 {
            None => {
                proof {
                    if self.has_v(id) {
                        let j = choose|j: int| 0 <= j < self.v_ids().len() && self.v_ids()[j] == id;
                        assert(self.vertices@[j].id == id);
                    }
                    assert forall|v: u64| #[trigger] self.has_v(v) <==> (old(self).has_v(v) && v
                        != id) by {}
                    assert forall|e: u64| old(self).has_e(e) implies old(self).e_from(e) != id
                        && old(self).e_to(e) != id && edge_kept_at(*old(self), *self, e) by {
                        let j = choose|j: int|
                            0 <= j < old(self).e_ids().len() && old(self).e_ids()[j] == e;
                        assert(old(self).edges@[j].id == e);
                        old(self).lemma_ids_distinct();
                        lemma_e_find_at(old(self).edges@, e, j);
                        assert(old(self).e_from(e) == old(self).edges@[j].from);
                        assert(old(self).e_to(e) == old(self).edges@[j].to);
                        assert(old(self).has_v(old(self).edges@[j].from));
                        assert(old(self).has_v(old(self).edges@[j].to));
                    }
                }
                Err(GraphError::UnknownVertex)
            },
            Some(vi) => {
                let ghost g0 = *self;
                proof {
                    assert(g0.has_v(id)) by {
                        assert(v_ids_of(self.vertices@)[vi as int] == id);
                    }
                }
                let mut incident: Vec<u64> = Vec::new();
                let ne = self.edges.len();
                let mut i: usize = 0;
                while i < ne
                    invariant
                        *self == g0,
                        ne == self.edges.len(),
                        i <= ne,
                        incident@ == inc_ids(g0.edges@.take(i as int), id),
                    decreases ne - i,
                {
                    proof {
                        assert(g0.edges@.take(i + 1).drop_last() =~= g0.edges@.take(i as int));
                        assert(g0.edges@.take(i + 1).last() == g0.edges@[i as int]);
                    }
                    let e = &self.edges[i];
                    if e.from == id || e.to == id {
                        incident.push(e.id);
                    }
                    i += 1;
                }
                let ghost incg = incident@;
                proof {
                    assert(g0.edges@.take(ne as int) =~= g0.edges@);
                    assert(incg == inc_ids(g0.edges@, id));
                    lemma_inc_ids_props(g0.edges@, id);
                    assert(incg.take(0) =~= Seq::<u64>::empty());
                }
                let nd = incident.len();
                let mut j: usize = 0;
                while j < nd
                    invariant
                        nd == incident.len(),
                        incident@ == incg,
                        incg == inc_ids(g0.edges@, id),
                        g0.wf(),
                        self.wf(),
                        j <= nd,
                        self.id_bound() == g0.id_bound(),
                        self.v_ids() == g0.v_ids(),
                        forall|e: u64|
                            #[trigger] self.has_e(e) <==> (g0.has_e(e) && !incg.take(
                                j as int,
                            ).contains(e)),
                        forall|e: u64|
                            g0.has_e(e) && !incg.take(j as int).contains(e)
                                ==> #[trigger] edge_kept_at(g0, *self, e),
                        same_vprops(g0, *self),
                        forall|o: u64, k: Seq<char>|
                            g0.has_e(o) && !incg.take(j as int).contains(o) ==> (
                            #[trigger] self.eprops(o, k)) == g0.eprops(o, k),
                    decreases nd - j,
                {
                    let ghost pre = *self;
                    let eid = incident[j];
                    let _r = self.drop_edge(eid);
                    proof {
                        assert(incg.take(j + 1) =~= incg.take(j as int).push(eid));
                        assert forall|e: u64| #[trigger] self.has_e(e) <==> (g0.has_e(e)
                            && !incg.take(j + 1).contains(e)) by {
                            lemma_push_contains(incg.take(j as int), eid, e);
                        }
                        assert forall|e: u64| g0.has_e(e) && !incg.take(j + 1).contains(e) implies
                            #[trigger] edge_kept_at(g0, *self, e) by {
                            lemma_push_contains(incg.take(j as int), eid, e);
                            assert(edge_kept_at(g0, pre, e));
                            assert(pre.has_e(e));
                            assert(edge_kept_at(pre, *self, e));
                        }
                        assert forall|o: u64, k: Seq<char>| g0.has_e(o) && !incg.take(
                            j + 1,
                        ).contains(o) implies (#[trigger] self.eprops(o, k)) == g0.eprops(
                            o,
                            k,
                        ) by {
                            lemma_push_contains(incg.take(j as int), eid, o);
                            assert(self.eprops(o, k) == pre.eprops(o, k));
                        }
                    }
                    j += 1;
                }
                let ghost g2 = *self;
                proof {
                    assert(incg.take(nd as int) =~= incg);
                    assert(v_ids_of(self.vertices@)[vi as int] == id);
                    assert(self.vertices@[vi as int].id == id);
                    assert(self.vertices@.len() == g0.vertices@.len()) by {
                        assert(v_ids_of(self.vertices@).len() == v_ids_of(g0.vertices@).len());
                    }
                }
                let ps = self.vertices[vi].props.pairs();
                let ghost rec2 = self.vertices@[vi as int];
                let ghost vx0 = self.vindex;
                let np = ps.len();
                let mut l: usize = 0;
                while l < np
                    invariant
                        np == ps.len(),
                        self.vindex.wf(),
                        *self == (Graph { vindex: self.vindex, ..g2 }),
                        l <= np,
                        forall|k: Seq<char>, val: Seq<char>, o: u64|
                            o != id ==> (#[trigger] self.vindex.has_owner(k, val, o)
                                <==> vx0.has_owner(k, val, o)),
                        forall|k: Seq<char>, val: Seq<char>|
                            #[trigger] self.vindex.has_owner(k, val, id) ==> vx0.has_owner(
                                k,
                                val,
                                id,
                            ) && (forall|m: int|
                                0 <= m < l ==> !(ps@[m].0@ == k && ps@[m].1@ == val)),
                    decreases np - l,
                {
                    self.vindex.remove(id, &ps[l].0, &ps[l].1);
                    l += 1;
                }
                proof {
                    assert(self.vertices@ == g2.vertices@);
                    assert(self.vertices@.len() == g0.vertices@.len());
                }
                let vrec = self.vertices.remove(vi);
                proof {
                    let vs2 = g2.vertices@;
                    let vs3 = self.vertices@;
                    let es2 = g2.edges@;
                    assert(vs3 == vs2.remove(vi as int));
                    assert(v_ids_of(vs3) =~= v_ids_of(vs2).remove(vi as int));
                    assert(v_ids_of(vs2) == g0.v_ids());
                    assert(vs2[vi as int].id == id);
                    assert(v_ids_of(vs2)[vi as int] == id);
                    lemma_no_dup_remove(v_ids_of(vs2), vi as int);
                    lemma_ascending_remove(v_ids_of(vs2), vi as int);
                    lemma_seq_remove_at(v_ids_of(vs2), vi as int);
                    assert(self.v_ids() == seq_remove_u64(g0.v_ids(), id));
                    assert forall|v: u64| #[trigger] self.has_v(v) <==> (g0.has_v(v) && v
                        != id) by {
                        lemma_seq_remove_contains(v_ids_of(vs2), id, v);
                    }
                    assert(self.edges@ == es2);
                    // every surviving edge avoids the dropped vertex
                    assert forall|jj: int| 0 <= jj < self.edges@.len() implies (
                    #[trigger] self.edges@[jj]).id < self.next_id && self.has_v(
                        self.edges@[jj].from,
                    ) && self.has_v(self.edges@[jj].to) by {
                        let e = es2[jj].id;
                        assert(e_ids_of(es2)[jj] == e);
                        assert(g2.has_e(e));
                        assert(g0.has_e(e) && !incg.contains(e));
                        lemma_e_find_at(es2, e, jj);
                        assert(g2.e_from(e) == es2[jj].from);
                        assert(g2.e_to(e) == es2[jj].to);
                        assert(edge_kept_at(g0, g2, e));
                        assert(g0.e_from(e) == es2[jj].from);
                        assert(g0.e_to(e) == es2[jj].to);
                        assert(es2[jj].from != id && es2[jj].to != id) by {
                            lemma_e_find_contains(g0.edges@, e);
                            assert(e_find(g0.edges@, e) is Some);
                            if es2[jj].from == id || es2[jj].to == id {
                                assert(incg.contains(e));
                            }
                        }
                        assert(g2.has_v(es2[jj].from));
                        assert(g2.has_v(es2[jj].to));
                        assert(es2[jj].id < g2.next_id);
                    }
                    // adjacency and identifier clauses carry over, shifted
                    assert forall|jj: int| 0 <= jj < vs3.len() implies (#[trigger] vs3[jj]).id
                        < self.next_id && vs3[jj].out@ == adj_out(self.edges@, vs3[jj].id)
                        && vs3[jj].inc@ == adj_in(self.edges@, vs3[jj].id) by {
                        let j0: int = if jj < vi as int {
                            jj
                        } else {
                            jj + 1
                        };
                        assert(vs3[jj] == vs2[j0]);
                        assert(vs2[j0].out@ == adj_out(es2, vs2[j0].id));
                        assert(vs2[j0].inc@ == adj_in(es2, vs2[j0].id));
                        assert(vs2[j0].id < g2.next_id);
                    }
                    // vertex properties of the survivors
                    assert forall|o: u64, k: Seq<char>| o != id implies (
                    #[trigger] self.vprops(o, k)) == g0.vprops(o, k) by {
                        lemma_v_find_remove(vs2, vi as int, o);
                        assert(v_find(vs3, o) == v_find(vs2, o));
                        assert(g2.vprops(o, k) == g0.vprops(o, k));
                    }
                    // the vertex index agrees with the tables again
                    assert forall|k: Seq<char>, val: Seq<char>, o: u64| #[trigger] self
                        .vindex
                        .has_owner(k, val, o) <==> self.v_has_prop(o, k, val) by {
                        if o == id {
                            if self.vindex.has_owner(k, val, o) {
                                assert(vx0.has_owner(k, val, id));
                                assert(g2.v_has_prop(id, k, val));
                                assert(g2.vprops(id, k) == rec2.props.values_of(k)) by {
                                    lemma_v_find_at(vs2, id, vi as int);
                                }
                                lemma_pair_values_contains(rec2.props.entries_view(), k, val);
                                let m = choose|m: int|
                                    0 <= m < rec2.props.entries_view().len()
                                        && rec2.props.entries_view()[m] == (k, val);
                                assert(pairs_view(ps@)[m] == (k, val));
                                assert(ps@[m].0@ == k && ps@[m].1@ == val);
                                assert(false);
                            }
                            lemma_v_find_remove(vs2, vi as int, id);
                            assert(!self.has_v(id));
                            assert(!self.v_has_prop(o, k, val));
                        } else {
                            assert(self.vindex.has_owner(k, val, o) == vx0.has_owner(k, val, o));
                            assert(vx0.has_owner(k, val, o) == g2.v_has_prop(o, k, val));
                            lemma_v_find_remove(vs2, vi as int, o);
                            assert(v_find(vs3, o) == v_find(vs2, o));
                        }
                    }
                    // the edge index is untouched and still agrees
                    assert forall|k: Seq<char>, val: Seq<char>, o: u64| #[trigger] self
                        .eindex
                        .has_owner(k, val, o) <==> self.e_has_prop(o, k, val) by {
                        assert(self.eindex == g2.eindex);
                        assert(g2.eindex.has_owner(k, val, o) == g2.e_has_prop(o, k, val));
                        assert(self.eprops(o, k) == g2.eprops(o, k));
                        assert(self.has_e(o) == g2.has_e(o));
                    }
                    assert(self.wf());
                    // the published relations
                    assert forall|e: u64| #[trigger] self.has_e(e) <==> (g0.has_e(e)
                        && g0.e_from(e) != id && g0.e_to(e) != id) by {
                        assert(self.has_e(e) == g2.has_e(e));
                        if g0.has_e(e) {
                            assert(e_find(g0.edges@, e) is Some) by {
                                lemma_e_find_contains(g0.edges@, e);
                            }
                            assert(incg.contains(e) <==> (g0.e_from(e) == id || g0.e_to(e)
                                == id));
                        }
                    }
                    assert forall|e: u64| g0.has_e(e) && g0.e_from(e) != id && g0.e_to(e) != id
                        implies #[trigger] edge_kept_at(g0, *self, e) by {
                        assert(e_find(g0.edges@, e) is Some) by {
                            lemma_e_find_contains(g0.edges@, e);
                        }
                        assert(!incg.contains(e));
                        assert(edge_kept_at(g0, g2, e));
                        assert(self.has_e(e) == g2.has_e(e));
                        assert(self.e_label(e) == g2.e_label(e));
                        assert(self.e_from(e) == g2.e_from(e));
                        assert(self.e_to(e) == g2.e_to(e));
                    }
                    assert forall|o: u64, k: Seq<char>| g0.has_e(o) && g0.e_from(o) != id
                        && g0.e_to(o) != id implies (#[trigger] self.eprops(o, k)) == g0.eprops(
                        o,
                        k,
                    ) by {
                        assert(e_find(g0.edges@, o) is Some) by {
                            lemma_e_find_contains(g0.edges@, o);
                        }
                        assert(!incg.contains(o));
                        assert(self.eprops(o, k) == g2.eprops(o, k));
                        assert(g2.eprops(o, k) == g0.eprops(o, k));
                    }
                }
                Ok(())
            },
        }
    }

    /// The fluent name for `outgoing`.
    #[allow(non_snake_case)]
    pub fn outE(&self, v: u64) -> (r: Result<Vec<EdgeInfo>, GraphError>)
        requires
            self.wf(),
        ensures
            r is Ok <==> self.has_v(v),
            !self.has_v(v) ==> r == Err::<Vec<EdgeInfo>, GraphError>(GraphError::UnknownVertex),
            r is Ok ==> (r->Ok_0)@.len() == self.out_ids(v).len() && forall|j: int|
                0 <= j < self.out_ids(v).len() ==> (#[trigger] (r->Ok_0)@[j]).id == self.out_ids(
                    v,
                )[j] && (r->Ok_0)@[j].label@ == self.e_label(self.out_ids(v)[j]) && (r->Ok_0)@[j]
                .from == v && (r->Ok_0)@[j].to == self.e_to(self.out_ids(v)[j]),
    {
        self.outgoing(v)
    }

    /// The fluent name for `incoming`.
    #[allow(non_snake_case)]
    pub fn inE(&self, v: u64) -> (r: Result<Vec<EdgeInfo>, GraphError>)
        requires
            self.wf(),
        ensures
            r is Ok <==> self.has_v(v),
            !self.has_v(v) ==> r == Err::<Vec<EdgeInfo>, GraphError>(GraphError::UnknownVertex),
            r is Ok ==> (r->Ok_0)@.len() == self.in_ids(v).len() && forall|j: int|
                0 <= j < self.in_ids(v).len() ==> (#[trigger] (r->Ok_0)@[j]).id == self.in_ids(
                    v,
                )[j] && (r->Ok_0)@[j].label@ == self.e_label(self.in_ids(v)[j]) && (r->Ok_0)@[j]
                .to == v && (r->Ok_0)@[j].from == self.e_from(self.in_ids(v)[j]),
    {
        self.incoming(v)
    }
}

/// No edge ever references an absent vertex: after a vertex is gone,
/// every remaining edge joins two present vertices.
pub proof fn lemma_no_dangling(g: Graph, v: u64, e: u64)
    requires
        g.wf(),
        !g.has_v(v),
        g.has_e(e),
    ensures
        g.e_from(e) != v,
        g.e_to(e) != v,
        g.has_v(g.e_from(e)),
        g.has_v(g.e_to(e)),
{
    let j = choose|j: int| 0 <= j < g.e_ids().len() && g.e_ids()[j] == e;
    assert(g.edges@[j].id == e);
    lemma_e_find_at(g.edges@, e, j);
    assert(g.e_from(e) == g.edges@[j].from);
    assert(g.e_to(e) == g.edges@[j].to);
    assert(g.has_v(g.edges@[j].from));
    assert(g.has_v(g.edges@[j].to));
}

/// When a store gains one edge from `v1` to `v2` and neither vertex had
/// an incident edge before, `v1` has exactly that outgoing edge, `v2`
/// exactly that incoming edge, and the reverse directions stay empty.
pub proof fn lemma_first_edge_adjacency(pre: Graph, post: Graph, eid: u64, v1: u64, v2: u64)
    requires
        pre.wf(),
        post.wf(),
        v1 != v2,
        !pre.has_e(eid),
        forall|e: u64| #[trigger] post.has_e(e) <==> (pre.has_e(e) || e == eid),
        post.e_from(eid) == v1,
        post.e_to(eid) == v2,
        edges_kept(pre, post),
        pre.out_ids(v1).len() == 0,
        pre.in_ids(v1).len() == 0,
        pre.out_ids(v2).len() == 0,
        pre.in_ids(v2).len() == 0,
    ensures
        post.out_ids(v1) == seq![eid],
        post.in_ids(v2) == seq![eid],
        post.in_ids(v1).len() == 0,
        post.out_ids(v2).len() == 0,
{
    post.lemma_out_ids(v1);
    post.lemma_out_ids(v2);
    post.lemma_in_ids(v1);
    post.lemma_in_ids(v2);
    pre.lemma_out_ids(v1);
    pre.lemma_out_ids(v2);
    pre.lemma_in_ids(v1);
    pre.lemma_in_ids(v2);
    assert forall|e: u64| #[trigger] post.out_ids(v1).contains(e) <==> e == eid by {
        if post.out_ids(v1).contains(e) && e != eid {
            assert(pre.has_e(e));
            lemma_edges_kept(pre, post, e);
            assert(pre.e_from(e) == v1);
            assert(pre.out_ids(v1).contains(e));
        }
        if e == eid {
            assert(post.has_e(eid));
        }
    }
    crate::seqs::lemma_singleton_members(post.out_ids(v1), eid);
    assert forall|e: u64| #[trigger] post.in_ids(v2).contains(e) <==> e == eid by {
        if post.in_ids(v2).contains(e) && e != eid {
            assert(pre.has_e(e));
            lemma_edges_kept(pre, post, e);
            assert(pre.e_to(e) == v2);
            assert(pre.in_ids(v2).contains(e));
        }
        if e == eid {
            assert(post.has_e(eid));
        }
    }
    crate::seqs::lemma_singleton_members(post.in_ids(v2), eid);
    assert(post.in_ids(v1).len() == 0) by {
        if post.in_ids(v1).len() > 0 {
            let e = post.in_ids(v1)[0];
            assert(post.in_ids(v1).contains(e));
            assert(post.e_to(e) == v1);
            if e == eid {
            } else {
                assert(pre.has_e(e));
                lemma_edges_kept(pre, post, e);
                assert(pre.in_ids(v1).contains(e));
            }
        }
    }
    assert(post.out_ids(v2).len() == 0) by {
        if post.out_ids(v2).len() > 0 {
            let e = post.out_ids(v2)[0];
            assert(post.out_ids(v2).contains(e));
            assert(post.e_from(e) == v2);
            if e == eid {
            } else {
                assert(pre.has_e(e));
                lemma_edges_kept(pre, post, e);
                assert(pre.out_ids(v2).contains(e));
            }
        }
    }
}

/// After a value is set on a vertex, the reverse lookup for that
/// (key, value) pair reaches the vertex: what `set` promises of the
/// table is what `V_has` answers from the index.
pub proof fn lemma_lookup_sees_set(pre: Graph, post: Graph, v: u64, k: Seq<char>, val: Seq<char>)
    requires
        post.has_v(v),
        post.vprops(v, k) == pre.vprops(v, k).push(val),
    ensures
        post.v_has_prop(v, k, val),
{
    lemma_push_contains(pre.vprops(v, k), val, val);
}

/// After a key is removed from a vertex, the reverse lookup for any of
/// its former values no longer reaches the vertex: the index and the
/// property table agree.
pub proof fn lemma_lookup_sees_remove(post: Graph, v: u64, k: Seq<char>, val: Seq<char>)
    requires
        post.vprops(v, k) == Seq::<Seq<char>>::empty(),
    ensures
        !post.v_has_prop(v, k, val),
{
}

/// Listing the store twice without a mutation in between yields the same
/// sequences, in the same order: what `vertices` and `edges` return is a
/// function of the store value alone.
pub proof fn lemma_snapshot_deterministic(a: Graph, b: Graph)
    requires
        a == b,
    ensures
        a.v_ids() == b.v_ids(),
        a.e_ids() == b.e_ids(),
{
}

} // verus!
