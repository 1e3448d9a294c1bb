use propgraph::Graph;
use propgraph::GraphError;

fn s(x: &str) -> String {
    x.to_string()
}

fn named(n: &str) -> Vec<(String, String)> {
    vec![(s("name"), s(n))]
}

fn no_props() -> Vec<(String, String)> {
    Vec::new()
}

#[test]
fn fresh_identifiers_are_distinct_and_stable() {
    let mut g = Graph::new();
    let v1 = g.addV(&named("v1"));
    let v2 = g.addV(&named("v2"));
    let v3 = g.addV(&named("v3"));
    assert_ne!(v1, v2);
    assert_ne!(v2, v3);
    assert_ne!(v1, v3);
    // identifiers stay what they were across later operations
    let e = g.addE(&s("edge_1"), v1, v2, &no_props()).unwrap();
    g.set(v3, &s("color"), &s("red")).unwrap();
    g.drop_edge(e).unwrap();
    assert_eq!(g.vertices(), vec![v1, v2, v3]);
}

#[test]
fn add_edge_to_unknown_vertex_fails_and_changes_nothing() {
    let mut g = Graph::new();
    let v1 = g.addV(&named("v1"));
    let bogus = v1 + 100;
    let before_v = g.vertices();
    let before_e = g.edges();
    let r = g.addE(&s("edge_x"), v1, bogus, &no_props());
    assert_eq!(r, Err(GraphError::UnknownVertex));
    let r2 = g.addE(&s("edge_x"), bogus, v1, &no_props());
    assert_eq!(r2, Err(GraphError::UnknownVertex));
    assert_eq!(g.vertices(), before_v);
    assert_eq!(g.edges(), before_e);
}

#[test]
fn adjacency_after_one_edge() {
    let mut g = Graph::new();
    let v1 = g.addV(&named("v1"));
    let v2 = g.addV(&named("v2"));
    let e1 = g.addE(&s("e1"), v1, v2, &no_props()).unwrap();

    let out1 = g.outgoing(v1).unwrap();
    assert_eq!(out1.len(), 1);
    assert_eq!(out1[0].id, e1);
    assert_eq!(out1[0].label, s("e1"));
    assert_eq!(out1[0].from, v1);
    assert_eq!(out1[0].to, v2);

    let in2 = g.incoming(v2).unwrap();
    assert_eq!(in2.len(), 1);
    assert_eq!(in2[0].id, e1);
    assert_eq!(in2[0].label, s("e1"));
    assert_eq!(in2[0].from, v1);

    assert!(g.incoming(v1).unwrap().is_empty());
    assert!(g.outgoing(v2).unwrap().is_empty());
}

#[test]
fn drop_vertex_cascades_to_incident_edges() {
    let mut g = Graph::new();
    let v1 = g.addV(&named("v1"));
    let v2 = g.addV(&named("v2"));
    let v3 = g.addV(&named("v3"));
    let e12 = g.addE(&s("a"), v1, v2, &no_props()).unwrap();
    let e31 = g.addE(&s("b"), v3, v1, &no_props()).unwrap();
    let e23 = g.addE(&s("c"), v2, v3, &no_props()).unwrap();

    g.drop_vertex(v1).unwrap();

    assert_eq!(g.vertices(), vec![v2, v3]);
    assert_eq!(g.edges(), vec![e23]);
    // surviving vertices no longer list the cascaded edges
    let out3 = g.outgoing(v3).unwrap();
    assert!(out3.iter().all(|e| e.id != e31 && e.id != e12));
    let in2 = g.incoming(v2).unwrap();
    assert!(in2.is_empty());
    // the dropped vertex is gone
    assert_eq!(g.outgoing(v1), Err(GraphError::UnknownVertex));
    assert_eq!(g.incoming(v1), Err(GraphError::UnknownVertex));
    assert_eq!(g.drop_vertex(v1), Err(GraphError::UnknownVertex));
}

#[test]
fn index_and_table_agree_after_set_and_remove() {
    let mut g = Graph::new();
    let v = g.addV(&no_props());
    let other = g.addV(&no_props());
    g.set(v, &s("kind"), &s("router")).unwrap();
    let hits = g.V_has(&s("kind"), &s("router"));
    assert_eq!(hits, vec![v]);
    assert!(!hits.contains(&other));
    g.remove(v, &s("kind")).unwrap();
    let hits2 = g.V_has(&s("kind"), &s("router"));
    assert!(hits2.is_empty());
}

#[test]
fn traversal_scenario_over_three_vertices() {
    let mut g = Graph::new();
    let v1 = g.addV(&named("v1"));
    let v2 = g.addV(&named("v2"));
    let v3 = g.addV(&named("v3"));
    let e1 = g.addE(&s("edge_1"), v1, v2, &no_props()).unwrap();
    let e2 = g.addE(&s("edge_2"), v2, v3, &no_props()).unwrap();

    let out = g.V().has(&s("name"), &s("v2")).out_e().ids();
    assert_eq!(out, vec![e2]);
    let info = g.edge_info(out[0]).unwrap();
    assert_eq!(info.label, s("edge_2"));
    assert_eq!(info.to, v3);

    let inn = g.V().has(&s("name"), &s("v2")).in_e().ids();
    assert_eq!(inn, vec![e1]);
    let info1 = g.edge_info(inn[0]).unwrap();
    assert_eq!(info1.label, s("edge_1"));
    assert_eq!(info1.from, v1);
}

#[test]
fn listing_twice_without_mutation_is_identical() {
    let mut g = Graph::new();
    let v1 = g.addV(&named("a"));
    let v2 = g.addV(&named("b"));
    g.addE(&s("x"), v1, v2, &no_props()).unwrap();
    g.addE(&s("y"), v2, v1, &no_props()).unwrap();
    assert_eq!(g.vertices(), g.vertices());
    assert_eq!(g.edges(), g.edges());
    assert_eq!(g.V().ids(), g.V().ids());
    assert_eq!(g.E().ids(), g.E().ids());
}

#[test]
fn properties_are_multivalued_and_ordered() {
    let mut g = Graph::new();
    let v = g.addV(&no_props());
    g.set(v, &s("tag"), &s("one")).unwrap();
    g.set(v, &s("tag"), &s("two")).unwrap();
    g.set(v, &s("tag"), &s("one")).unwrap();
    assert_eq!(g.get(v, &s("tag")), vec![s("one"), s("two"), s("one")]);
    // an absent key reads as empty, not as an error
    assert!(g.get(v, &s("missing")).is_empty());
    // an absent owner reads as empty too
    assert!(g.get(v + 77, &s("tag")).is_empty());
}

#[test]
fn initial_properties_are_stored_and_indexed() {
    let mut g = Graph::new();
    let v = g.addV(&vec![(s("name"), s("n1")), (s("kind"), s("leaf"))]);
    assert_eq!(g.get(v, &s("name")), vec![s("n1")]);
    assert_eq!(g.get(v, &s("kind")), vec![s("leaf")]);
    assert_eq!(g.V_has(&s("kind"), &s("leaf")), vec![v]);
}

#[test]
fn edge_properties_work_like_vertex_properties() {
    let mut g = Graph::new();
    let v1 = g.addV(&no_props());
    let v2 = g.addV(&no_props());
    let e = g
        .addE(&s("link"), v1, v2, &vec![(s("weight"), s("3"))])
        .unwrap();
    assert_eq!(g.get(e, &s("weight")), vec![s("3")]);
    assert_eq!(g.E_has(&s("weight"), &s("3")), vec![e]);
    let hits = g.E().has(&s("weight"), &s("3")).ids();
    assert_eq!(hits, vec![e]);
    g.remove(e, &s("weight")).unwrap();
    assert!(g.E_has(&s("weight"), &s("3")).is_empty());
}

#[test]
fn drop_edge_updates_both_adjacency_sides() {
    let mut g = Graph::new();
    let v1 = g.addV(&no_props());
    let v2 = g.addV(&no_props());
    let e1 = g.addE(&s("a"), v1, v2, &no_props()).unwrap();
    let e2 = g.addE(&s("b"), v1, v2, &no_props()).unwrap();
    g.drop_edge(e1).unwrap();
    assert_eq!(g.edges(), vec![e2]);
    let out = g.outgoing(v1).unwrap();
    assert_eq!(out.len(), 1);
    assert_eq!(out[0].id, e2);
    let inn = g.incoming(v2).unwrap();
    assert_eq!(inn.len(), 1);
    assert_eq!(inn[0].id, e2);
    assert_eq!(g.drop_edge(e1), Err(GraphError::UnknownEdge));
}

#[test]
fn self_loops_appear_on_both_sides() {
    let mut g = Graph::new();
    let v = g.addV(&no_props());
    let e = g.addE(&s("me"), v, v, &no_props()).unwrap();
    let out = g.outgoing(v).unwrap();
    let inn = g.incoming(v).unwrap();
    assert_eq!(out.len(), 1);
    assert_eq!(inn.len(), 1);
    assert_eq!(out[0].id, e);
    assert_eq!(inn[0].id, e);
    g.drop_vertex(v).unwrap();
    assert!(g.vertices().is_empty());
    assert!(g.edges().is_empty());
}

#[test]
fn set_on_unknown_owner_fails() {
    let mut g = Graph::new();
    let v = g.addV(&no_props());
    assert_eq!(
        g.set(v + 5, &s("k"), &s("x")),
        Err(GraphError::UnknownVertex)
    );
    assert_eq!(g.remove(v + 5, &s("k")), Err(GraphError::UnknownVertex));
}

#[test]
fn lookup_on_absent_pair_is_empty() {
    let mut g = Graph::new();
    let v = g.addV(&named("v1"));
    assert!(g.V_has(&s("name"), &s("nobody")).is_empty());
    assert!(g.V_has(&s("nokey"), &s("v1")).is_empty());
    assert!(g.E_has(&s("name"), &s("v1")).is_empty());
    assert_eq!(g.V_has(&s("name"), &s("v1")), vec![v]);
}

#[test]
fn chained_filters_narrow_in_order() {
    let mut g = Graph::new();
    let a = g.addV(&vec![(s("kind"), s("node")), (s("zone"), s("east"))]);
    let _b = g.addV(&vec![(s("kind"), s("node")), (s("zone"), s("west"))]);
    let _c = g.addV(&vec![(s("kind"), s("leaf")), (s("zone"), s("east"))]);
    let hits = g
        .V()
        .has(&s("kind"), &s("node"))
        .has(&s("zone"), &s("east"))
        .ids();
    assert_eq!(hits, vec![a]);
}

#[test]
fn free_function_forms_mirror_the_methods() {
    let mut g = Graph::new();
    let v1 = propgraph::addV(&mut g, &named("v1"));
    let v2 = propgraph::addV(&mut g, &named("v2"));
    let v3 = propgraph::addV(&mut g, &named("v3"));
    let e1 = propgraph::addE(&mut g, &s("edge_1"), v1, v2, &no_props()).unwrap();
    let e2 = propgraph::addE(&mut g, &s("edge_2"), v2, v3, &no_props()).unwrap();

    assert_eq!(propgraph::V(&g).ids(), vec![v1, v2, v3]);
    assert_eq!(propgraph::E(&g).ids(), vec![e1, e2]);
    assert_eq!(propgraph::V_has(&g, &s("name"), &s("v2")), vec![v2]);

    let out = propgraph::outE(&g, v2).unwrap();
    assert_eq!(out.len(), 1);
    assert_eq!(out[0].id, e2);
    let inn = propgraph::inE(&g, v2).unwrap();
    assert_eq!(inn.len(), 1);
    assert_eq!(inn[0].id, e1);
    assert_eq!(propgraph::outE(&g, v3 + 9), Err(GraphError::UnknownVertex));
}

#[test]
fn two_vertices_may_share_all_property_values() {
    let mut g = Graph::new();
    let a = g.addV(&named("twin"));
    let b = g.addV(&named("twin"));
    assert_ne!(a, b);
    let hits = g.V_has(&s("name"), &s("twin"));
    assert_eq!(hits.len(), 2);
    assert!(hits.contains(&a) && hits.contains(&b));
    g.drop_vertex(a).unwrap();
    assert_eq!(g.V_has(&s("name"), &s("twin")), vec![b]);
}

#[test]
fn lookup_order_follows_the_vertex_listing() {
    let mut g = Graph::new();
    let v1 = g.addV(&no_props());
    let v2 = g.addV(&no_props());
    let v3 = g.addV(&no_props());
    // set the shared value out of vertex order
    g.set(v3, &s("k"), &s("x")).unwrap();
    g.set(v1, &s("k"), &s("x")).unwrap();
    g.set(v2, &s("k"), &s("x")).unwrap();
    // the lookup is the order-preserving subsequence of the listing
    assert_eq!(g.V_has(&s("k"), &s("x")), vec![v1, v2, v3]);
    assert_eq!(g.V().has(&s("k"), &s("x")).ids(), vec![v1, v2, v3]);
    g.drop_vertex(v2).unwrap();
    assert_eq!(g.V_has(&s("k"), &s("x")), vec![v1, v3]);
}

#[test]
fn identifiers_are_never_reused() {
    let mut g = Graph::new();
    let v1 = g.addV(&no_props());
    let v2 = g.addV(&no_props());
    g.drop_vertex(v1).unwrap();
    let v3 = g.addV(&no_props());
    assert_ne!(v3, v1);
    assert_ne!(v3, v2);
    g.drop_vertex(v2).unwrap();
    g.drop_vertex(v3).unwrap();
    let v4 = g.addV(&no_props());
    assert!(v4 != v1 && v4 != v2 && v4 != v3);
}
