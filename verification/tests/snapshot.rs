use hprof::load::load_snapshot;
use hprof::nodes::{EdgeName, HeapSnapshotEdge};
use hprof::records::{HprofEdgeJson, HprofNodeJson, HprofRetainedResultJson, HprofSummaryJson, JsonScalar};
use hprof::page::{NodePageOptions, SortDir, SortField};
use hprof::grouping::TypeSummary;
use hprof::snapshot::{resolve_target, search_table, HeapSnapshot, TargetError};
use hprof::summary::merge_by_retained;
use hprof::types::{Error, SnapshotMeta, SnapshotMetaFields};

fn strings(v: &[&str]) -> Vec<String> {
    v.iter().map(|s| s.to_string()).collect()
}

fn tiny_meta() -> SnapshotMeta {
    SnapshotMeta {
        node_count: 3,
        edge_count: 3,
        extra_native_bytes: None,
        meta: SnapshotMetaFields {
            node_fields: strings(&["type", "name", "id", "self_size", "edge_count", "trace_node_id", "detachedness"]),
            node_types: vec![strings(&[
                "hidden", "array", "string", "object", "code", "closure", "regexp", "number", "native",
                "synthetic",
            ])],
            edge_fields: strings(&["type", "name_or_index", "to_node"]),
            edge_types: vec![strings(&["context", "element", "property", "internal", "hidden", "shortcut", "weak"])],
        },
    }
}

// root (synthetic) -> Foo (object, 100 bytes) -> Bar (object, 50 bytes),
// and root -> Bar directly.
const TINY: &str = "{\"snapshot\":{\"meta\":{},\"node_count\":3,\"edge_count\":3},\
\"nodes\":[9,0,1,0,2,0,0,\n3,1,3,100,1,0,0,\n3,2,5,50,0,0,0],\
\"edges\":[2,3,7,2,4,14,2,4,14],\
\"strings\":[\"\",\"Foo\",\"Bar\",\"a\",\"b\"]}";

fn tiny() -> HeapSnapshot {
    match load_snapshot(TINY.as_bytes(), tiny_meta()) {
        Ok(s) => s,
        Err(e) => panic!("load failed: {:?}", e),
    }
}

#[test]
fn loads_nodes_with_names_and_types() {
    let s = tiny();
    let n = s.get_node(1).unwrap();
    assert_eq!(n.name, "Foo");
    assert_eq!(n.type_, "object");
    assert_eq!(n.self_size, 100);
    assert_eq!(n.id, 3);
    assert_eq!(n.edge_count, 1);
    assert_eq!(s.get_node(3).unwrap_err(), Error::NodeNotFound(3));
}

#[test]
fn missing_arrays_fail_to_load() {
    let r = load_snapshot(b"{\"snapshot\":{}}", tiny_meta());
    assert!(matches!(r, Err(Error::HeaderParseFailed)));
}

#[test]
fn missing_node_field_is_unsupported() {
    let mut meta = tiny_meta();
    meta.meta.node_fields = strings(&["type", "name", "self_size"]);
    let r = load_snapshot(TINY.as_bytes(), meta);
    assert!(matches!(r, Err(Error::UnsupportedLayout)));
}

#[test]
fn find_by_id_and_edges() {
    let s = tiny();
    assert_eq!(s.find_by_id(5), Some(2));
    assert_eq!(s.find_by_id(4), None);
    let (node, edges) = s.get_node_edges(0).unwrap();
    assert_eq!(node.edge_count, 2);
    assert_eq!(edges.len(), 2);
    assert_eq!(edges[0].to_node, 1);
    assert_eq!(edges[1].to_node, 2);
}

#[test]
fn summary_groups_by_name_and_type() {
    let mut s = tiny();
    let sum = s.stream_summary(30, None);
    assert_eq!(sum.total_size, 150);
    assert_eq!(sum.total_count, 3);
    // only nodes with a size are grouped
    assert_eq!(sum.by_node_type.len(), 1);
    assert_eq!(sum.by_node_type[0].0, "object");
    assert_eq!(sum.by_node_type[0].1.size, 150);
    assert_eq!(sum.by_node_type[0].1.count, 2);
    assert_eq!(sum.by_node_name.len(), 2);
    assert_eq!(sum.by_node_name[0].0, "Foo");
    assert_eq!(sum.by_node_name[0].1.size, 100);
    assert_eq!(sum.by_node_name[1].0, "Bar");
}

#[test]
fn summary_filter_and_top() {
    let mut s = tiny();
    let sum = s.stream_summary(1, None);
    assert_eq!(sum.by_node_name.len(), 1);
    assert_eq!(sum.by_node_name[0].0, "Foo");
    let sum = s.stream_summary(30, Some("^B"));
    assert_eq!(sum.by_node_name.len(), 1);
    assert_eq!(sum.by_node_name[0].0, "Bar");
}

#[test]
fn retained_sizes_follow_dominators() {
    let mut s = tiny();
    assert!(s.is_fully_reachable());
    // Bar is reachable from the root directly, so Foo does not dominate it
    assert_eq!(s.retained_size_of(1).unwrap(), 100);
    assert_eq!(s.retained_size_of(2).unwrap(), 50);
    assert_eq!(s.retained_size_of(0).unwrap(), 150);
    assert_eq!(s.retained_size_of(7).unwrap_err(), Error::NodeNotFound(7));
}

#[test]
fn retained_entries_ranked() {
    let mut s = tiny();
    let r = s.get_retained_entries(2);
    assert!(!r.approximate);
    assert_eq!(r.retained.len(), 2);
    assert_eq!(r.retained[0].node_index, 0);
    assert_eq!(r.retained[0].retained_size, 150);
    assert_eq!(r.retained[1].node_index, 1);
    assert_eq!(r.retained[1].retained_size, 100);
}

#[test]
fn search_strings_is_case_insensitive() {
    let s = tiny();
    let m = s.search_strings("BA");
    assert_eq!(m.len(), 1);
    assert_eq!(m[0].index, 2);
    assert_eq!(m[0].value, "Bar");
}

#[test]
fn retainers_of_bar() {
    let s = tiny();
    let r = s.get_retainers(2).unwrap();
    assert_eq!(r.len(), 2);
}

#[test]
fn targets_by_index_or_id() {
    let s = tiny();
    assert_eq!(resolve_target(&s, Some(2), Some(3)), Ok(2));
    assert_eq!(resolve_target(&s, None, Some(3)), Ok(1));
    assert_eq!(resolve_target(&s, None, Some(4)), Err(TargetError::NoSuchId(4)));
    assert_eq!(resolve_target(&s, None, None), Err(TargetError::Missing));
}

#[test]
fn records_carry_fields() {
    let mut s = tiny();
    let n = s.get_node(2).unwrap();
    let j = HprofNodeJson::from_node(&n);
    assert_eq!(j.name, "Bar");
    assert_eq!(j.id, 5);
    let sum = s.stream_summary(30, None);
    let js = HprofSummaryJson::from_summary(&sum);
    assert_eq!(js.total_size, 150);
    assert_eq!(js.by_node_name[0].0, "Foo");
    assert_eq!(js.by_node_name[0].1.size, 100);
    let r = s.get_retained_entries(1);
    let jr = HprofRetainedResultJson::from_result(&r);
    assert_eq!(jr.retained.len(), 1);
    assert_eq!(jr.retained[0].retained_size, 150);
}

#[test]
fn header_announcing_more_nodes_is_malformed() {
    let mut meta = tiny_meta();
    meta.node_count = 4;
    assert!(matches!(load_snapshot(TINY.as_bytes(), meta), Err(Error::Malformed)));
}

#[test]
fn node_page_query_filters_numeric_orders() {
    let s = tiny();
    let o = NodePageOptions {
        page: 0,
        page_size: 10,
        type_filter: None,
        query: Some("fO"),
        sort: SortField::SelfSize,
        dir: SortDir::Desc,
    };
    let p = s.get_node_page(o);
    assert_eq!(p.total, 1);
    assert_eq!(p.nodes.len(), 1);
    assert_eq!(p.nodes[0].name, "Foo");
    let o = NodePageOptions { query: Some("a"), sort: SortField::Id, dir: SortDir::Asc, ..o };
    let p = s.get_node_page(o);
    assert_eq!(p.total, 1);
    assert_eq!(p.nodes[0].name, "Bar");
}

#[test]
fn retainer_chain_counts_hops() {
    let mut s = tiny();
    let c = s.retainer_chain(2, 1).unwrap();
    assert_eq!(c.len(), 2);
    assert_eq!(c[0].node_index, 2);
    assert_eq!(c[1].node_index, 0);
    let c = s.retainer_chain(1, 5).unwrap();
    assert_eq!(c.len(), 2);
    assert_eq!(c[0].node_index, 1);
    assert_eq!(c[1].node_index, 0);
    assert!(s.retainer_chain(2, 0).unwrap().is_empty());
}

#[test]
fn string_search_keeps_limit() {
    let t = strings(&["ab", "Ab", "x", "cA"]);
    assert_eq!(search_table(&t, "a", 5).len(), 3);
    let m = search_table(&t, "a", 2);
    assert_eq!(m.len(), 2);
    assert_eq!(m[1].index, 1);
    assert!(search_table(&t, "a", 0).is_empty());
}

#[test]
fn ensure_retained_twice_keeps_results() {
    let mut s = tiny();
    s.ensure_retained();
    assert_eq!(s.retained_size_of(0).unwrap(), 150);
    s.ensure_retained();
    assert_eq!(s.retained_size_of(1).unwrap(), 100);
}

#[test]
fn snapshot_diff_against_itself_is_zero() {
    let mut a = tiny();
    let mut b = tiny();
    let d = a.diff(&mut b).unwrap();
    assert_eq!(d.baseline_total, 150);
    assert_eq!(d.profile_total, 150);
    assert_eq!(d.delta_total, 0);
    assert!(d.by_node_name.iter().all(|e| e.delta == 0 && e.baseline_size == e.profile_size));
    assert_eq!(d.by_node_name.len(), 2);
}

fn ts(size: u64, count: usize) -> TypeSummary {
    TypeSummary { size, count }
}

#[test]
fn self_and_retained_rows_join_by_name() {
    let own = vec![("A".to_string(), ts(10, 1)), ("B".to_string(), ts(5, 2))];
    let ret = vec![("B".to_string(), ts(50, 1)), ("C".to_string(), ts(20, 3))];
    let rows = merge_by_retained(&own, &ret, 10);
    assert_eq!(rows.len(), 3);
    assert_eq!(rows[0].name, "B");
    assert_eq!(rows[0].self_size, 5);
    assert_eq!(rows[0].self_count, 2);
    assert_eq!(rows[0].retained_size, 50);
    assert_eq!(rows[1].name, "C");
    assert_eq!(rows[1].self_size, 0);
    assert_eq!(rows[1].retained_count, 3);
    assert_eq!(rows[2].name, "A");
    assert_eq!(rows[2].retained_size, 0);
    assert_eq!(merge_by_retained(&own, &ret, 1).len(), 1);
}

#[test]
fn edge_records_keep_names_and_indices() {
    let j = HprofEdgeJson::from_edge(HeapSnapshotEdge {
        type_: "property".to_string(),
        name_or_index: EdgeName::String("a".to_string()),
        to_node: 1,
    });
    assert_eq!(j.type_, "property");
    assert!(matches!(j.name_or_index, JsonScalar::Text(ref t) if t == "a"));
    assert_eq!(j.to_node, 1);
    let j = HprofEdgeJson::from_edge(HeapSnapshotEdge { type_: "element".to_string(), name_or_index: EdgeName::Index(3), to_node: 2 });
    assert!(matches!(j.name_or_index, JsonScalar::Number(3)));
}

#[test]
fn shortest_path_is_shortest_and_bounded() {
    let mut s = tiny();
    // Bar is reached from the root directly, not through Foo
    let p = s.shortest_path(2, 64).unwrap();
    assert!(p.found);
    assert_eq!(p.nodes.len(), 2);
    assert_eq!(p.nodes[0].index, 0);
    assert_eq!(p.nodes[1].index, 2);
    assert_eq!(p.edges[0].name, "b");
    // one edge is needed, so a bound of zero finds nothing
    let p = s.shortest_path(2, 0).unwrap();
    assert!(!p.found);
    assert!(p.nodes.is_empty());
    let p = s.shortest_path(0, 0).unwrap();
    assert!(p.found);
    assert_eq!(p.nodes.len(), 1);
    assert_eq!(s.shortest_path(9, 3).unwrap_err(), Error::NodeNotFound(9));
}
