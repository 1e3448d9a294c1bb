use vstd::prelude::*;
use crate::graph::Graph;
use crate::seqs::keep_ids;
use crate::seqs::lemma_no_dup_push;
use crate::seqs::lemma_push_contains;

verus! {

/// Whether a traversal currently carries vertices or edges.
#[derive(Clone, Copy, PartialEq, Eq, Structural, Debug)]
pub enum ElemKind {
    Vertices,
    Edges,
}

/// The outgoing edge identifiers of each vertex of `vs`, in vertex order
/// then per-vertex edge order, flattened.
pub open spec fn flat_out(g: Graph, vs: Seq<u64>) -> Seq<u64>
    decreases vs.len(),
{
    if vs.len() == 0 {
        Seq::empty()
    } else {
        flat_out(g, vs.drop_last()) + g.out_ids(vs.last())
    }
}

/// The incoming edge identifiers of each vertex of `vs`, flattened.
pub open spec fn flat_in(g: Graph, vs: Seq<u64>) -> Seq<u64>
    decreases vs.len(),
{
    if vs.len() == 0 {
        Seq::empty()
    } else {
        flat_in(g, vs.drop_last()) + g.in_ids(vs.last())
    }
}

proof fn lemma_concat_contains(a: Seq<u64>, b: Seq<u64>, x: u64)
    ensures
        (a + b).contains(x) <==> a.contains(x) || b.contains(x),
{
    if (a + b).contains(x) {
        let i = choose|i: int| 0 <= i < (a + b).len() && (a + b)[i] == x;
        if i < a.len() {
            assert(a[i] == x);
            assert(a.contains(x));
        } else {
            assert(b[i - a.len()] == x);
            assert(b.contains(x));
        }
    }
    if a.contains(x) {
        let i = choose|i: int| 0 <= i < a.len() && a[i] == x;
        assert((a + b)[i] == x);
        assert((a + b).contains(x));
    }
    if b.contains(x) {
        let i = choose|i: int| 0 <= i < b.len() && b[i] == x;
        assert((a + b)[a.len() + i] == x);
        assert((a + b).contains(x));
    }
}

proof fn lemma_concat_no_dup(a: Seq<u64>, b: Seq<u64>)
    requires
        a.no_duplicates(),
        b.no_duplicates(),
        forall|x: u64| a.contains(x) ==> !(#[trigger] b.contains(x)),
    ensures
        (a + b).no_duplicates(),
{
    assert forall|i: int, j: int|
        0 <= i < (a + b).len() && 0 <= j < (a + b).len() && i != j implies (a + b)[i] != (a
        + b)[j] by {
        if i < a.len() && j < a.len() {
        } else if i >= a.len() && j >= a.len() {
            assert((a + b)[i] == b[i - a.len()]);
            assert((a + b)[j] == b[j - a.len()]);
        } else if i < a.len() {
            assert(a.contains(a[i]));
            if (a + b)[i] == (a + b)[j] {
                assert(b[j - a.len()] == a[i]);
                assert(b.contains(a[i]));
            }
        } else {
            assert(a.contains(a[j]));
            if (a + b)[i] == (a + b)[j] {
                assert(b[i - a.len()] == a[j]);
                assert(b.contains(a[j]));
            }
        }
    }
}

/// What the flattened outgoing step yields: exactly the present edges
/// whose source vertex is in `vs`, each once.
pub proof fn lemma_flat_out_props(g: Graph, vs: Seq<u64>)
    requires
        g.wf(),
        vs.no_duplicates(),
    ensures
        flat_out(g, vs).no_duplicates(),
        forall|e: u64|
            #[trigger] flat_out(g, vs).contains(e) <==> (g.has_e(e) && vs.contains(g.e_from(e))),
    decreases vs.len(),
{
    if vs.len() == 0 {
    } else {
        let pre = vs.drop_last();
        let v = vs.last();
        assert(pre.no_duplicates());
        lemma_flat_out_props(g, pre);
        g.lemma_out_ids(v);
        assert(!pre.contains(v)) by {
            if pre.contains(v) {
                let i = choose|i: int| 0 <= i < pre.len() && pre[i] == v;
                assert(vs[i] == vs[vs.len() - 1]);
            }
        }
        assert forall|x: u64| flat_out(g, pre).contains(x) implies !(#[trigger] g.out_ids(
            v,
        ).contains(x)) by {
            if g.out_ids(v).contains(x) {
                assert(g.e_from(x) == v);
                assert(pre.contains(v));
            }
        }
        lemma_concat_no_dup(flat_out(g, pre), g.out_ids(v));
        assert forall|e: u64| #[trigger] flat_out(g, vs).contains(e) <==> (g.has_e(e)
            && vs.contains(g.e_from(e))) by {
            lemma_concat_contains(flat_out(g, pre), g.out_ids(v), e);
            assert(vs.contains(g.e_from(e)) <==> pre.contains(g.e_from(e)) || g.e_from(e)
                == v) by {
                if vs.contains(g.e_from(e)) {
                    let i = choose|i: int| 0 <= i < vs.len() && vs[i] == g.e_from(e);
                    if i < vs.len() - 1 {
                        assert(pre[i] == g.e_from(e));
                        assert(pre.contains(g.e_from(e)));
                    }
                }
                if pre.contains(g.e_from(e)) {
                    let i = choose|i: int| 0 <= i < pre.len() && pre[i] == g.e_from(e);
                    assert(vs[i] == g.e_from(e));
                    assert(vs.contains(g.e_from(e)));
                }
                if g.e_from(e) == v {
                    assert(vs[vs.len() - 1] == g.e_from(e));
                    assert(vs.contains(g.e_from(e)));
                }
            }
        }
    }
}

/// What the flattened incoming step yields: exactly the present edges
/// whose target vertex is in `vs`, each once.
pub proof fn lemma_flat_in_props(g: Graph, vs: Seq<u64>)
    requires
        g.wf(),
        vs.no_duplicates(),
    ensures
        flat_in(g, vs).no_duplicates(),
        forall|e: u64|
            #[trigger] flat_in(g, vs).contains(e) <==> (g.has_e(e) && vs.contains(g.e_to(e))),
    decreases vs.len(),
{
    if vs.len() == 0 {
    } else {
        let pre = vs.drop_last();
        let v = vs.last();
        assert(pre.no_duplicates());
        lemma_flat_in_props(g, pre);
        g.lemma_in_ids(v);
        assert(!pre.contains(v)) by {
            if pre.contains(v) {
                let i = choose|i: int| 0 <= i < pre.len() && pre[i] == v;
                assert(vs[i] == vs[vs.len() - 1]);
            }
        }
        assert forall|x: u64| flat_in(g, pre).contains(x) implies !(#[trigger] g.in_ids(
            v,
        ).contains(x)) by {
            if g.in_ids(v).contains(x) {
                assert(g.e_to(x) == v);
                assert(pre.contains(v));
            }
        }
        lemma_concat_no_dup(flat_in(g, pre), g.in_ids(v));
        assert forall|e: u64| #[trigger] flat_in(g, vs).contains(e) <==> (g.has_e(e)
            && vs.contains(g.e_to(e))) by {
            lemma_concat_contains(flat_in(g, pre), g.in_ids(v), e);
            assert(vs.contains(g.e_to(e)) <==> pre.contains(g.e_to(e)) || g.e_to(e) == v) by {
                if vs.contains(g.e_to(e)) {
                    let i = choose|i: int| 0 <= i < vs.len() && vs[i] == g.e_to(e);
                    if i < vs.len() - 1 {
                        assert(pre[i] == g.e_to(e));
                        assert(pre.contains(g.e_to(e)));
                    }
                }
                if pre.contains(g.e_to(e)) {
                    let i = choose|i: int| 0 <= i < pre.len() && pre[i] == g.e_to(e);
                    assert(vs[i] == g.e_to(e));
                    assert(vs.contains(g.e_to(e)));
                }
                if g.e_to(e) == v {
                    assert(vs[vs.len() - 1] == g.e_to(e));
                    assert(vs.contains(g.e_to(e)));
                }
            }
        }
    }
}

/// True when one of the strings of `vals` reads `v`.
fn contains_string(vals: &Vec<String>, v: &String) -> (r: bool)
    ensures
        r == vals.deep_view().contains(v@),
{
    let n = vals.len();
    let mut i: usize = 0;
    while i < n
        invariant
            n == vals.len(),
            i <= n,
            forall|j: int| 0 <= j < i ==> vals.deep_view()[j] != v@,
        decreases n - i,
    {
        if vals[i] == *v {
            proof {
                assert(vals.deep_view()[i as int] == v@);
            }
            return true;
        }
        i += 1;
    }
    proof {
        if vals.deep_view().contains(v@) {
            let j = choose|j: int|
                0 <= j < vals.deep_view().len() && vals.deep_view()[j] == v@;
            assert(vals.deep_view()[j] != v@);
        }
    }
    false
}

/// One chained traversal: a borrowed snapshot of the store, the kind of
/// entity currently reached, and the reached identifiers in order. The
/// store stays borrowed for the traversal's lifetime, so a structural
/// mutation while one is alive is rejected at compile time rather than
/// invalidating a running traversal.
pub struct Traversal<'g> {
    g: &'g Graph,
    kind: ElemKind,
    ids: Vec<u64>,
    from_all: bool,
}

impl<'g> Traversal<'g> {
    /// The store this traversal reads.
    pub closed spec fn graph(self) -> Graph {
        *self.g
    }

    /// The identifiers reached so far, in order.
    pub closed spec fn elems(self) -> Seq<u64> {
        self.ids@
    }

    /// The traversal currently carries vertices (else edges).
    pub closed spec fn is_vertices(self) -> bool {
        self.kind is Vertices
    }

    /// The traversal is the whole, unfiltered store listing.
    pub closed spec fn unfiltered(self) -> bool {
        self.from_all
    }

    pub open spec fn wf(self) -> bool {
        &&& self.graph().wf()
        &&& self.elems().no_duplicates()
        &&& (self.is_vertices() ==> forall|i: int|
            0 <= i < self.elems().len() ==> self.graph().has_v(#[trigger] self.elems()[i]))
        &&& (!self.is_vertices() ==> forall|i: int|
            0 <= i < self.elems().len() ==> self.graph().has_e(#[trigger] self.elems()[i]))
        &&& (self.unfiltered() && self.is_vertices() ==> self.elems() == self.graph().v_ids())
        &&& (self.unfiltered() && !self.is_vertices() ==> self.elems() == self.graph().e_ids())
    }

    /// Keeps the entities holding `value` under `key`. On the unfiltered
    /// whole-store traversal the reverse index answers directly; on any
    /// other traversal each reached entity's own table is consulted, in
    /// order.
    pub fn has(self, key: &String, value: &String) -> (t: Traversal<'g>)
        requires
            self.wf(),
        ensures
            t.wf(),
            t.graph() == self.graph(),
            t.is_vertices() == self.is_vertices(),
            forall|o: u64|
                #[trigger] t.elems().contains(o) <==> (self.elems().contains(o) && (
                if self.is_vertices() {
                    self.graph().v_has_prop(o, key@, value@)
                } else {
                    self.graph().e_has_prop(o, key@, value@)
                })),
            t.elems() == (if self.is_vertices() {
                keep_ids(self.elems(), self.graph().v_matcher(key@, value@))
            } else {
                keep_ids(self.elems(), self.graph().e_matcher(key@, value@))
            }),
    {
        if self.from_all {
            let ids = match self.kind {
                ElemKind::Vertices => self.g.V_has(key, value),
                ElemKind::Edges => self.g.E_has(key, value),
            };
            let t = Traversal { g: self.g, kind: self.kind, ids, from_all: false };
            proof {
                assert forall|o: u64| #[trigger] t.elems().contains(o) <==> (self.elems().contains(
                    o,
                ) && (if self.is_vertices() {
                    self.graph().v_has_prop(o, key@, value@)
                } else {
                    self.graph().e_has_prop(o, key@, value@)
                })) by {
                    if self.is_vertices() {
                        if t.elems().contains(o) {
                            assert(self.graph().has_v(o));
                        }
                    } else {
                        if t.elems().contains(o) {
                            assert(self.graph().has_e(o));
                        }
                    }
                }
                assert forall|i: int| 0 <= i < t.elems().len() implies (if t.is_vertices() {
                    t.graph().has_v(#[trigger] t.elems()[i])
                } else {
                    t.graph().has_e(t.elems()[i])
                }) by {
                    assert(t.elems().contains(t.elems()[i]));
                }
            }
            t
        } else {
            let ghost pred = if self.kind is Vertices {
                (*self.g).v_matcher(key@, value@)
            } else {
                (*self.g).e_matcher(key@, value@)
            };
            let n = self.ids.len();
            let mut kept: Vec<u64> = Vec::new();
            let mut i: usize = 0;
            while i < n
                invariant
                    self.wf(),
                    n == self.ids@.len(),
                    i <= n,
                    kept@.no_duplicates(),
                    kept@ == keep_ids(self.ids@.take(i as int), pred),
                    pred == (if self.kind is Vertices {
                        (*self.g).v_matcher(key@, value@)
                    } else {
                        (*self.g).e_matcher(key@, value@)
                    }),
                    forall|o: u64|
                        #[trigger] kept@.contains(o) <==> (self.ids@.take(i as int).contains(o)
                            && (if self.kind is Vertices {
                            (*self.g).v_has_prop(o, key@, value@)
                        } else {
                            (*self.g).e_has_prop(o, key@, value@)
                        })),
                decreases n - i,
            {
                let o = self.ids[i];
                let vals = self.g.get(o, key);
                let hit = contains_string(&vals, value);
                let ghost kept_pre = kept@;
                proof {
                    assert(self.elems()[i as int] == o);
                    if self.kind is Vertices {
                        assert((*self.g).has_v(o));
                        assert(vals.deep_view() == (*self.g).vprops(o, key@));
                    } else {
                        assert((*self.g).has_e(o));
                        (*self.g).lemma_ids_distinct();
                        assert(!(*self.g).has_v(o));
                        assert(vals.deep_view() == (*self.g).eprops(o, key@));
                    }
                }
                if hit {
                    proof {
                        assert(!kept@.contains(o)) by {
                            if kept@.contains(o) {
                                let l = choose|l: int|
                                    0 <= l < self.ids@.take(i as int).len() && self.ids@.take(
                                        i as int,
                                    )[l] == o;
                                assert(self.ids@[l] == self.ids@[i as int]);
                            }
                        }
                        lemma_no_dup_push(kept@, o);
                    }
                    kept.push(o);
                }
                proof {
                    assert(self.ids@.take(i + 1).drop_last() =~= self.ids@.take(i as int));
                    assert(self.ids@.take(i + 1).last() == self.ids@[i as int]);
                    assert(pred(o) == hit);
                    assert(kept@ == keep_ids(self.ids@.take(i + 1), pred));
                    assert forall|o2: u64| #[trigger] kept@.contains(o2) <==> (self.ids@.take(
                        i + 1,
                    ).contains(o2) && (if self.kind is Vertices {
                        (*self.g).v_has_prop(o2, key@, value@)
                    } else {
                        (*self.g).e_has_prop(o2, key@, value@)
                    })) by {
                        lemma_push_contains(self.ids@.take(i as int), self.ids@[i as int], o2);
                        if hit {
                            lemma_push_contains(kept_pre, o, o2);
                        }
                    }
                }
                i += 1;
            }
            proof {
                assert(self.ids@.take(n as int) =~= self.ids@);
            }
            let t = Traversal { g: self.g, kind: self.kind, ids: kept, from_all: false };
            proof {
                assert forall|i2: int| 0 <= i2 < t.elems().len() implies (if t.is_vertices() {
                    t.graph().has_v(#[trigger] t.elems()[i2])
                } else {
                    t.graph().has_e(t.elems()[i2])
                }) by {
                    assert(t.elems().contains(t.elems()[i2]));
                }
            }
            t
        }
    }

    /// For each reached vertex, in order, its outgoing edges, flattened.
    pub fn out_e(self) -> (t: Traversal<'g>)
        requires
            self.wf(),
            self.is_vertices(),
        ensures
            t.wf(),
            t.graph() == self.graph(),
            !t.is_vertices(),
            t.elems() == flat_out(self.graph(), self.elems()),
    {
        let n = self.ids.len();
        let mut out: Vec<u64> = Vec::new();
        let mut i: usize = 0;
        while i < n
            invariant
                self.wf(),
                self.is_vertices(),
                n == self.ids@.len(),
                i <= n,
                out@ == flat_out(*self.g, self.ids@.take(i as int)),
            decreases n - i,
        {
            let v = self.ids[i];
            proof {
                assert(self.elems()[i as int] == v);
                assert((*self.g).has_v(v));
            }
            let infos = match self.g.outgoing(v) {
                Ok(list) => list,
                Err(_) => {
                    proof {
                        assert(false);
                    }
                    Vec::new()
                },
            };
            let ghost out_pre = out@;
            let m = infos.len();
            let mut j: usize = 0;
            while j < m
                invariant
                    m == infos.len(),
                    infos@.len() == (*self.g).out_ids(v).len(),
                    forall|l: int|
                        0 <= l < infos@.len() ==> (#[trigger] infos@[l]).id == (*self.g).out_ids(
                            v,
                        )[l],
                    j <= m,
                    out@ == out_pre + (*self.g).out_ids(v).take(j as int),
                decreases m - j,
            {
                out.push(infos[j].id);
                proof {
                    assert(out@ =~= out_pre + (*self.g).out_ids(v).take(j + 1));
                }
                j += 1;
            }
            proof {
                assert((*self.g).out_ids(v).take(m as int) =~= (*self.g).out_ids(v));
                assert(self.ids@.take(i + 1).drop_last() =~= self.ids@.take(i as int));
                assert(self.ids@.take(i + 1).last() == v);
                assert(out@ == flat_out(*self.g, self.ids@.take(i + 1)));
            }
            i += 1;
        }
        proof {
            assert(self.ids@.take(n as int) =~= self.ids@);
        }
        let t = Traversal { g: self.g, kind: ElemKind::Edges, ids: out, from_all: false };
        proof {
            lemma_flat_out_props(*self.g, self.ids@);
            assert forall|i2: int| 0 <= i2 < t.elems().len() implies t.graph().has_e(
                #[trigger] t.elems()[i2],
            ) by {
                assert(t.elems().contains(t.elems()[i2]));
            }
        }
        t
    }

    /// For each reached vertex, in order, its incoming edges, flattened.
    pub fn in_e(self) -> (t: Traversal<'g>)
        requires
            self.wf(),
            self.is_vertices(),
        ensures
            t.wf(),
            t.graph() == self.graph(),
            !t.is_vertices(),
            t.elems() == flat_in(self.graph(), self.elems()),
    {
        let n = self.ids.len();
        let mut out: Vec<u64> = Vec::new();
        let mut i: usize = 0;
        while i < n
            invariant
                self.wf(),
                self.is_vertices(),
                n == self.ids@.len(),
                i <= n,
                out@ == flat_in(*self.g, self.ids@.take(i as int)),
            decreases n - i,
        {
            let v = self.ids[i];
            proof {
                assert(self.elems()[i as int] == v);
                assert((*self.g).has_v(v));
            }
            let infos = match self.g.incoming(v) {
                Ok(list) => list,
                Err(_) => {
                    proof {
                        assert(false);
                    }
                    Vec::new()
                },
            };
            let ghost out_pre = out@;
            let m = infos.len();
            let mut j: usize = 0;
            while j < m
                invariant
                    m == infos.len(),
                    infos@.len() == (*self.g).in_ids(v).len(),
                    forall|l: int|
                        0 <= l < infos@.len() ==> (#[trigger] infos@[l]).id == (*self.g).in_ids(
                            v,
                        )[l],
                    j <= m,
                    out@ == out_pre + (*self.g).in_ids(v).take(j as int),
                decreases m - j,
            {
                out.push(infos[j].id);
                proof {
                    assert(out@ =~= out_pre + (*self.g).in_ids(v).take(j + 1));
                }
                j += 1;
            }
            proof {
                assert((*self.g).in_ids(v).take(m as int) =~= (*self.g).in_ids(v));
                assert(self.ids@.take(i + 1).drop_last() =~= self.ids@.take(i as int));
                assert(self.ids@.take(i + 1).last() == v);
                assert(out@ == flat_in(*self.g, self.ids@.take(i + 1)));
            }
            i += 1;
        }
        proof {
            assert(self.ids@.take(n as int) =~= self.ids@);
        }
        let t = Traversal { g: self.g, kind: ElemKind::Edges, ids: out, from_all: false };
        proof {
            lemma_flat_in_props(*self.g, self.ids@);
            assert forall|i2: int| 0 <= i2 < t.elems().len() implies t.graph().has_e(
                #[trigger] t.elems()[i2],
            ) by {
                assert(t.elems().contains(t.elems()[i2]));
            }
        }
        t
    }

    /// The terminal step: the reached identifiers, as a concrete list.
    pub fn ids(self) -> (r: Vec<u64>)
        ensures
            r@ == self.elems(),
    {
        self.ids
    }
}

impl Graph {
    /// Starts a traversal at all vertices, in insertion order.
    #[allow(non_snake_case)]
    pub fn V<'g>(&'g self) -> (t: Traversal<'g>)
        requires
            self.wf(),
        ensures
            t.wf(),
            t.graph() == *self,
            t.is_vertices(),
            t.unfiltered(),
            t.elems() == self.v_ids(),
    {
        let ids = self.vertices();
        let t = Traversal { g: self, kind: ElemKind::Vertices, ids, from_all: true };
        proof {
            self.lemma_ids_distinct();
            assert forall|i: int| 0 <= i < t.elems().len() implies self.has_v(
                #[trigger] t.elems()[i],
            ) by {
                assert(t.elems().contains(t.elems()[i]));
            }
        }
        t
    }

    /// Starts a traversal at all edges, in insertion order.
    #[allow(non_snake_case)]
    pub fn E<'g>(&'g self) -> (t: Traversal<'g>)
        requires
            self.wf(),
        ensures
            t.wf(),
            t.graph() == *self,
            !t.is_vertices(),
            t.unfiltered(),
            t.elems() == self.e_ids(),
    {
        let ids = self.edges();
        let t = Traversal { g: self, kind: ElemKind::Edges, ids, from_all: true };
        proof {
            self.lemma_ids_distinct();
            assert forall|i: int| 0 <= i < t.elems().len() implies self.has_e(
                #[trigger] t.elems()[i],
            ) by {
                assert(t.elems().contains(t.elems()[i]));
            }
        }
        t
    }
}

} // verus!
