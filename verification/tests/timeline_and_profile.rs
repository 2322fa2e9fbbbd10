use hprof::allocations::{format_stack, HeapTimeline, TimelineStackFrame};
use hprof::profile::{HeapProfile, ProfileNode};
use hprof::listing::list_view;
use hprof::profile_parse::parse_profile;
use hprof::types::{Error, SnapshotMeta, SnapshotMetaFields};

fn strings(v: &[&str]) -> Vec<String> {
    v.iter().map(|s| s.to_string()).collect()
}

fn timeline_meta() -> SnapshotMeta {
    SnapshotMeta {
        node_count: 4,
        edge_count: 0,
        extra_native_bytes: None,
        meta: SnapshotMetaFields {
            node_fields: strings(&["type", "name", "id", "self_size", "edge_count", "trace_node_id"]),
            node_types: vec![strings(&[
                "hidden", "array", "string", "object", "code", "closure", "regexp", "number", "native",
                "synthetic",
            ])],
            edge_fields: strings(&["type", "name_or_index", "to_node"]),
            edge_types: vec![strings(&["context", "element", "property"])],
        },
    }
}

const TIMELINE: &str = "{\"snapshot\":{\"meta\":{},\"node_count\":4,\"edge_count\":0},\
\"nodes\":[9,0,1,0,0,0,3,1,3,100,0,2,3,1,5,50,0,2,2,2,7,20,0,2],\
\"edges\":[],\
\"trace_function_infos\":[0,0,0,0,0,0,1,3,4,1,10,5],\
\"trace_tree\":[1,0,0,0,[2,1,3,170,[]]],\
\"samples\":[1000,5,2000,9],\
\"strings\":[\"\",\"Foo\",\"Bar\",\"main\",\"app.js\"]}";

fn timeline() -> HeapTimeline {
    match HeapTimeline::from_bytes(TIMELINE.as_bytes(), timeline_meta()) {
        Ok(t) => t,
        Err(e) => panic!("parse failed: {:?}", e),
    }
}

#[test]
fn timeline_columns_and_tree() {
    let t = timeline();
    let d = t.data();
    assert_eq!(d.node_count, 4);
    assert_eq!(d.total_allocated, 170);
    assert_eq!(d.sizes, vec![0, 100, 50, 20]);
    assert_eq!(d.trace_nodes.len(), 2);
    assert_eq!(d.trace_nodes[1].size, 170);
    assert_eq!(d.trace_nodes[1].count, 3);
    assert_eq!(d.trace_nodes[1].parent, Some(0));
    assert_eq!(d.trace_infos.len(), 2);
    assert_eq!(d.samples, vec![(1000, 5), (2000, 9)]);
    assert_eq!(d.strings[3], "main");
}

#[test]
fn timeline_missing_field_or_array() {
    let mut meta = timeline_meta();
    meta.meta.node_fields = strings(&["type", "name", "self_size"]);
    assert!(matches!(HeapTimeline::from_bytes(TIMELINE.as_bytes(), meta), Err(Error::UnsupportedLayout)));
    let cut = TIMELINE.replace("\"samples\"", "\"other\"");
    assert!(matches!(HeapTimeline::from_bytes(cut.as_bytes(), timeline_meta()), Err(Error::HeaderParseFailed)));
}

#[test]
fn timeline_type_summary() {
    let t = timeline();
    let s = t.stream_summary(None, None).unwrap();
    assert_eq!(s.total_allocated, 170);
    assert_eq!(s.total_freed, 0);
    assert_eq!(s.by_type.len(), 2);
    assert_eq!(s.by_type[0].0, "object");
    assert_eq!(s.by_type[0].1.allocated, 150);
    assert_eq!(s.by_type[0].1.count, 2);
    assert_eq!(s.by_type[1].0, "string");
    let s = t.stream_summary(Some(30), Some("^str")).unwrap();
    assert_eq!(s.by_type.len(), 1);
    assert_eq!(s.by_type[0].1.allocated, 20);
}

#[test]
fn timeline_top_names_with_split() {
    let t = timeline();
    let r = t.top_names(None, None).unwrap();
    assert_eq!(r.total_size, 170);
    assert_eq!(r.total_count, 4);
    assert_eq!(r.entries.len(), 2);
    assert_eq!(r.entries[0].name, "Foo");
    assert_eq!(r.entries[0].size, 150);
    assert_eq!(r.entries[0].count, 2);
    assert_eq!(r.entries[0].types.len(), 1);
    assert_eq!(r.entries[0].types[0].name, "object");
    assert_eq!(r.entries[0].types[0].size, 150);
    // a top of zero shows no name
    assert_eq!(t.top_names(Some(0), None).unwrap().entries.len(), 0);
}

#[test]
fn timeline_search_and_growth() {
    let t = timeline();
    let m = t.search_strings("fO").unwrap();
    assert_eq!(m.len(), 1);
    assert_eq!(m[0].name, "Foo");
    assert_eq!(m[0].size, 150);
    let g = t.growth();
    assert_eq!(g.span_us, 2000);
    assert_eq!(g.objects_start, 5);
    assert_eq!(g.objects_end, 9);
    assert_eq!(g.samples.len(), 2);
}

#[test]
fn timeline_stacks() {
    let t = timeline();
    let frames = t.stack_frames(1);
    assert_eq!(frames.len(), 2);
    assert_eq!(frames[0].name, "(root)");
    assert_eq!(frames[1].name, "main");
    assert_eq!(frames[1].script, "app.js");
    assert_eq!(frames[1].line, 10);
    assert_eq!(frames[1].column, 5);
    assert_eq!(format_stack(&frames), "main");
    assert_eq!(t.stack_frames(9).len(), 0);
}

#[test]
fn format_stack_joins_named_frames() {
    let f = |n: &str| TimelineStackFrame { name: n.to_string(), script: String::new(), line: 0, column: 0 };
    assert_eq!(format_stack(&[f("(root)"), f("a"), f(""), f("b")]), "b <- a");
    assert_eq!(format_stack(&[f("(root)"), f("main"), f("alloc")]), "alloc <- main");
    assert_eq!(format_stack(&[]), "");
}

fn node(name: &str, url: &str, line: i32, size: u64, parent: Option<usize>) -> ProfileNode {
    ProfileNode {
        function_name: name.to_string(),
        url: url.to_string(),
        line_number: line,
        column_number: 0,
        self_size: size,
        parent,
    }
}

fn profile() -> HeapProfile {
    HeapProfile::from_nodes(vec![
        node("(root)", "", -1, 0, None),
        node("foo", "http://x/app.js", 4, 100, Some(0)),
        node("", "", 0, 50, Some(1)),
        node("foo", "http://x/app.js", 4, 25, Some(0)),
    ])
    .unwrap()
}

#[test]
fn profile_flat_summary() {
    let p = profile();
    let s = p.summarize(None, None);
    assert_eq!(s.total_size, 175);
    assert_eq!(s.by_frame.len(), 2);
    assert_eq!(s.by_frame[0].0, "(anonymous) @ <no-url>:1");
    assert_eq!(s.by_frame[0].1.size, 50);
    assert_eq!(s.by_frame[1].0, "foo @ http://x/app.js:5");
    assert_eq!(s.by_frame[1].1.size, 125);
    assert_eq!(s.by_frame[1].1.count, 2);
    assert_eq!(s.by_url.len(), 2);
    assert_eq!(s.by_function.len(), 2);
}

#[test]
fn profile_slices() {
    let p = profile();
    let s = p.summarize(Some(1), None);
    assert_eq!(s.by_frame.len(), 1);
    assert_eq!(s.by_frame[0].1.size, 125);
    assert_eq!(s.total_size, 175);
    let s = p.summarize(None, Some("anon"));
    assert_eq!(s.by_frame.len(), 1);
    assert_eq!(s.total_size, 50);
    // the filtered total is taken before the cut to top
    let s = p.summarize(Some(1), Some("foo|anon"));
    assert_eq!(s.by_frame.len(), 1);
    assert_eq!(s.total_size, 175);
    // an invalid pattern filters nothing
    let s = p.summarize(None, Some("("));
    assert_eq!(s.by_frame.len(), 2);
    assert_eq!(s.total_size, 175);
}

#[test]
fn profile_flatten_stacks() {
    let p = profile();
    let f = p.flatten();
    assert_eq!(f.len(), 3);
    assert_eq!(f[0].function_name, "foo");
    assert_eq!(f[0].stack, vec!["(root) @ <no-url>:0".to_string(), "foo @ http://x/app.js:5".to_string()]);
    assert_eq!(f[1].function_name, "(anonymous)");
    assert_eq!(f[1].url, "<no-url>");
    assert_eq!(f[1].stack.len(), 3);
    assert_eq!(f[2].self_size, 25);
}

#[test]
fn profile_rejects_bad_parent() {
    let r = HeapProfile::from_nodes(vec![node("a", "", 0, 1, Some(0))]);
    assert!(matches!(r, Err(Error::Malformed)));
}

#[test]
fn profile_cumulative() {
    let p = profile();
    let s = p.summarize_cumulative(None, None, None).unwrap();
    assert_eq!(s.total_size, 175);
    assert_eq!(s.by_frame.len(), 3);
    assert_eq!(s.by_frame[0].0, "(anonymous) @ <no-url>:1");
    assert_eq!(s.by_frame[0].1.self_size, 50);
    assert_eq!(s.by_frame[0].1.cumulative_size, 50);
    assert_eq!(s.by_frame[0].1.count, 1);
    assert_eq!(s.by_frame[1].0, "(root) @ <no-url>:0");
    assert_eq!(s.by_frame[1].1.self_size, 0);
    assert_eq!(s.by_frame[1].1.cumulative_size, 175);
    assert_eq!(s.by_frame[2].0, "foo @ http://x/app.js:5");
    assert_eq!(s.by_frame[2].1.self_size, 125);
    assert_eq!(s.by_frame[2].1.cumulative_size, 175);
    assert_eq!(s.by_frame[2].1.count, 2);
    // by URL and function carry no counts
    assert_eq!(s.by_function.len(), 3);
    assert!(s.by_function.iter().all(|e| e.1.count == 0));
}

#[test]
fn profile_cumulative_top_focus_ignore() {
    let p = profile();
    let s = p.summarize_cumulative(Some(2), None, None).unwrap();
    assert_eq!(s.by_frame.len(), 2);
    assert_eq!(s.by_frame[0].0, "(root) @ <no-url>:0");
    assert_eq!(s.by_frame[1].0, "foo @ http://x/app.js:5");
    let s = p.summarize_cumulative(None, Some("anon"), None).unwrap();
    assert_eq!(s.total_size, 50);
    assert_eq!(s.by_frame.len(), 3);
    assert_eq!(s.by_frame[1].1.cumulative_size, 50);
    let s = p.summarize_cumulative(None, None, Some("^foo$")).unwrap();
    assert_eq!(s.total_size, 175);
    assert_eq!(s.by_frame[2].1.self_size, 0);
    assert_eq!(s.by_frame[2].1.cumulative_size, 175);
    assert_eq!(s.by_frame[0].1.self_size, 50);
}

#[test]
fn timeline_top_stacks() {
    let t = timeline();
    let r = t.top_stacks(None, None).unwrap();
    assert_eq!(r.total_size, 170);
    assert_eq!(r.total_count, 3);
    assert_eq!(r.entries.len(), 1);
    assert_eq!(r.entries[0].size, 170);
    assert_eq!(r.entries[0].count, 3);
    assert_eq!(format_stack(&r.entries[0].stack), "main");
    // a filter that names no frame leaves nothing
    let r = t.top_stacks(None, Some("^nothing$")).unwrap();
    assert_eq!(r.entries.len(), 0);
    assert_eq!(r.total_size, 0);
    let r = t.top_stacks(Some(5), Some("ma")).unwrap();
    assert_eq!(r.entries.len(), 1);
}

#[test]
fn profile_cumulative_counts_recursion_once() {
    let p = HeapProfile::from_nodes(vec![
        node("(root)", "", -1, 0, None),
        node("foo", "http://x/app.js", 4, 10, Some(0)),
        node("foo", "http://x/app.js", 4, 20, Some(1)),
    ])
    .unwrap();
    let s = p.summarize_cumulative(None, None, None).unwrap();
    assert_eq!(s.total_size, 30);
    assert_eq!(s.by_frame.len(), 2);
    assert_eq!(s.by_frame[1].0, "foo @ http://x/app.js:5");
    assert_eq!(s.by_frame[1].1.self_size, 30);
    assert_eq!(s.by_frame[1].1.cumulative_size, 30);
    assert_eq!(s.by_frame[1].1.count, 2);
    for e in s.by_frame.iter().chain(s.by_url.iter()).chain(s.by_function.iter()) {
        assert!(e.1.self_size <= e.1.cumulative_size);
        assert!(e.1.cumulative_size <= s.total_size);
    }
}

#[test]
fn profile_diff_by_change() {
    let cur = profile();
    let base = HeapProfile::from_nodes(vec![
        node("(root)", "", -1, 0, None),
        node("foo", "http://x/app.js", 4, 40, Some(0)),
        node("bar", "http://x/app.js", 9, 30, Some(0)),
    ])
    .unwrap();
    let d = cur.diff(&base).unwrap();
    assert_eq!(d.baseline_total, 70);
    assert_eq!(d.profile_total, 175);
    assert_eq!(d.delta_total, 105);
    assert_eq!(d.by_frame.len(), 3);
    assert_eq!(d.by_frame[0].name, "foo @ http://x/app.js:5");
    assert_eq!(d.by_frame[0].baseline_size, 40);
    assert_eq!(d.by_frame[0].profile_size, 125);
    assert_eq!(d.by_frame[0].delta, 85);
    assert_eq!(d.by_frame[1].name, "(anonymous) @ <no-url>:1");
    assert_eq!(d.by_frame[1].delta, 50);
    assert_eq!(d.by_frame[2].name, "bar @ http://x/app.js:10");
    assert_eq!(d.by_frame[2].profile_size, 0);
    assert_eq!(d.by_frame[2].delta, -30);
    let same = cur.diff(&cur).unwrap();
    assert_eq!(same.delta_total, 0);
    assert!(same.by_frame.iter().all(|e| e.delta == 0));
}

fn span_text(data: &[u8], span: (usize, usize)) -> String {
    String::from_utf8(data[span.0..span.1].to_vec()).unwrap()
}

#[test]
fn parse_profile_reads_tree_in_preorder() {
    let text = r#"{"head":{"callFrame":{"functionName":"(root)","scriptId":"0","url":"","lineNumber":-1,"columnNumber":-1},"selfSize":0,"id":1,"children":[{"callFrame":{"functionName":"foo","scriptId":"3","url":"a.js","lineNumber":10,"columnNumber":5},"selfSize":100,"id":2,"children":[{"callFrame":{"functionName":"bar","scriptId":"3","url":"a.js","lineNumber":20,"columnNumber":1},"selfSize":50,"id":3,"children":[]}]},{"callFrame":{"functionName":"baz","scriptId":"4","url":"b.js","lineNumber":1,"columnNumber":2},"selfSize":25,"id":4,"children":[]}]},"samples":[],"startTime":0,"endTime":10}"#;
    let data = text.as_bytes();
    let p = parse_profile(data).unwrap();
    let names: Vec<&str> = p.nodes.iter().map(|n| n.function_name.as_str()).collect();
    assert_eq!(names, vec!["(root)", "foo", "bar", "baz"]);
    let parents: Vec<Option<usize>> = p.nodes.iter().map(|n| n.parent).collect();
    assert_eq!(parents, vec![None, Some(0), Some(1), Some(0)]);
    let sizes: Vec<u64> = p.nodes.iter().map(|n| n.self_size).collect();
    assert_eq!(sizes, vec![0, 100, 50, 25]);
    assert_eq!(p.nodes[1].url, "a.js");
    assert_eq!(p.nodes[3].url, "b.js");
    assert_eq!(span_text(data, p.lines[0]), "-1");
    assert_eq!(span_text(data, p.lines[1]), "10");
    assert_eq!(span_text(data, p.columns[1]), "5");
    assert_eq!(span_text(data, p.lines[2]), "20");
    assert_eq!(span_text(data, p.columns[3]), "2");
    assert!(HeapProfile::from_nodes(p.nodes).is_ok());
}

#[test]
fn parse_profile_without_head_fails_header() {
    let data = br#"{"nodes":[],"samples":[]}"#;
    assert!(matches!(parse_profile(data), Err(Error::HeaderParseFailed)));
}

#[test]
fn parse_profile_short_unicode_escape_is_malformed() {
    let data = br#"{"head":{"callFrame":{"functionName":"a\u12"},"children":[]}}"#;
    assert!(matches!(parse_profile(data), Err(Error::Malformed)));
}

#[test]
fn parse_profile_truncated_file_keeps_what_was_read() {
    let data = br#"{"head":{"selfSize":4,"callFrame":{"functionName":"abc"#;
    let p = parse_profile(data).unwrap();
    assert_eq!(p.nodes.len(), 1);
    assert_eq!(p.nodes[0].function_name, "abc");
    assert_eq!(p.nodes[0].self_size, 4);
}

#[test]
fn parse_profile_size_over_64_bits_is_malformed() {
    let data = br#"{"head":{"selfSize":99999999999999999999999,"children":[]}}"#;
    assert!(matches!(parse_profile(data), Err(Error::Malformed)));
}

#[test]
fn parse_profile_keys_in_any_order_and_unknown_skipped() {
    let text = r#"{ "head": { "children" : [ { "selfSize" : 7 , "extra" : {"x":[1,2,{"y":"]"}]} , "callFrame" : { "url" : "u.js" , "functionName" : "f\"g" } } ] , "id" : 9 , "callFrame" : { "functionName" : "r" } , "selfSize" : 3 } }"#;
    let data = text.as_bytes();
    let p = parse_profile(data).unwrap();
    assert_eq!(p.nodes.len(), 2);
    assert_eq!(p.nodes[0].function_name, "r");
    assert_eq!(p.nodes[0].self_size, 3);
    assert_eq!(p.nodes[0].parent, None);
    assert_eq!(p.nodes[1].function_name, "f\"g");
    assert_eq!(p.nodes[1].url, "u.js");
    assert_eq!(p.nodes[1].self_size, 7);
    assert_eq!(p.nodes[1].parent, Some(0));
    assert_eq!(p.lines[1], (0, 0));
}

#[test]
fn profile_diff_swapped_is_negated() {
    let cur = profile();
    let base = HeapProfile::from_nodes(vec![
        node("(root)", "", -1, 0, None),
        node("foo", "http://x/app.js", 4, 40, Some(0)),
        node("bar", "http://x/app.js", 9, 30, Some(0)),
    ])
    .unwrap();
    let ab = cur.diff(&base).unwrap();
    let ba = base.diff(&cur).unwrap();
    assert_eq!(ab.delta_total, -ba.delta_total);
    assert_eq!(ab.by_frame.len(), ba.by_frame.len());
    for e in &ab.by_frame {
        let f = ba.by_frame.iter().find(|f| f.name == e.name).unwrap();
        assert_eq!(e.delta, -f.delta);
        assert_eq!(e.baseline_size, f.profile_size);
        assert_eq!(e.profile_size, f.baseline_size);
    }
}

#[test]
fn calltree_inclusive_sizes_and_root_total() {
    let p = profile();
    let t = p.calltree(None, None, None).unwrap();
    assert_eq!(t.inclusive, vec![175, 150, 50, 25]);
    assert_eq!(t.shown, vec![true, true, true, true]);
    assert_eq!(t.hidden, vec![false, false, false, false]);
}

#[test]
fn calltree_focus_keeps_ancestors_of_matches() {
    let p = profile();
    let t = p.calltree(None, Some("anonymous"), None).unwrap();
    assert_eq!(t.shown, vec![true, true, true, false]);
    let u = p.calltree(Some("APP.JS"), None, None).unwrap();
    assert_eq!(u.shown, vec![true, true, false, true]);
}

#[test]
fn calltree_hide_marks_frames() {
    let p = profile();
    let t = p.calltree(None, None, Some("^foo$")).unwrap();
    assert_eq!(t.hidden, vec![false, true, false, true]);
    assert_eq!(t.shown, vec![true, true, true, false]);
}

#[test]
fn list_groups_by_url_then_line() {
    let p = profile();
    let frames = p.flatten();
    let v = list_view(&frames, None, 10).unwrap();
    assert_eq!(v.total_size, 175);
    assert_eq!(v.urls.len(), 2);
    assert_eq!(v.urls[0].url, "http://x/app.js");
    assert_eq!(v.urls[0].size, 125);
    assert_eq!(v.urls[0].lines.len(), 1);
    assert_eq!(v.urls[0].lines[0].line, "5");
    assert_eq!(v.urls[0].lines[0].size, 125);
    assert_eq!(v.urls[0].lines[0].count, 2);
    assert_eq!(v.urls[0].lines[0].functions, vec!["foo".to_string()]);
    assert_eq!(v.urls[1].url, "<no-url>");
    assert_eq!(v.urls[1].size, 50);
    assert_eq!(v.urls[1].lines[0].line, "1");
    assert_eq!(v.urls[1].lines[0].functions, vec!["(anonymous)".to_string()]);
}

#[test]
fn list_filter_and_top() {
    let p = profile();
    let frames = p.flatten();
    let v = list_view(&frames, Some("anonymous"), 10).unwrap();
    assert_eq!(v.total_size, 50);
    assert_eq!(v.urls.len(), 1);
    assert_eq!(v.urls[0].url, "<no-url>");
    let w = list_view(&frames, None, 1).unwrap();
    assert_eq!(w.total_size, 175);
    assert_eq!(w.urls.len(), 1);
    assert_eq!(w.urls[0].url, "http://x/app.js");
    let bad = list_view(&frames, Some("("), 10).unwrap();
    assert_eq!(bad.total_size, 175);
}
