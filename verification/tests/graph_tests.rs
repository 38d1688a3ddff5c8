use depgraph::builder::{build, starts_with};
use depgraph::dot::{generate_dot_content, serialize};
use depgraph::escape::escape;
use depgraph::module_map::ModuleMap;
use depgraph::rankdir::RankDir;
use depgraph::scanner::{extract_record, from_records, is_source_extension, scan_file};

fn refs(values: &[&str]) -> Vec<String> {
    values.iter().map(|v| v.to_string()).collect()
}

fn get_refs(m: &ModuleMap, key: &str) -> Option<Vec<String>> {
    m.get(&key.to_string()).map(|v| v.clone())
}

#[test]
fn termination_on_cycles() {
    let mut map = ModuleMap::new();
    map.insert("A".to_string(), refs(&["B"]));
    map.insert("B".to_string(), refs(&["A"]));
    let tree = build(&map, None, None);
    assert_eq!(tree.len(), 2);
    assert_eq!(get_refs(&tree, "A"), Some(refs(&["B"])));
    assert_eq!(get_refs(&tree, "B"), Some(refs(&["A"])));
}

#[test]
fn depth_bound_honored() {
    let mut map = ModuleMap::new();
    map.insert("A".to_string(), refs(&["B"]));
    map.insert("B".to_string(), refs(&["C"]));
    map.insert("C".to_string(), refs(&["D"]));
    map.insert("D".to_string(), refs(&[]));
    let tree = build(&map, Some("A"), Some(1));
    assert_eq!(tree.len(), 2);
    assert_eq!(get_refs(&tree, "A"), Some(refs(&["B"])));
    assert_eq!(get_refs(&tree, "B"), Some(refs(&["C"])));
    assert_eq!(get_refs(&tree, "C"), None);
    assert_eq!(get_refs(&tree, "D"), None);
}

#[test]
fn root_prefix_filtering() {
    let mut map = ModuleMap::new();
    map.insert("com.a.X".to_string(), refs(&[]));
    map.insert("com.b.Y".to_string(), refs(&[]));
    map.insert("org.c.Z".to_string(), refs(&[]));
    let tree = build(&map, Some("com.a"), None);
    assert_eq!(tree.len(), 1);
    assert_eq!(get_refs(&tree, "com.a.X"), Some(refs(&[])));
    assert_eq!(get_refs(&tree, "org.c.Z"), None);
    assert_eq!(get_refs(&tree, "com.b.Y"), None);
}

#[test]
fn prefix_filtering_keeps_reachable_nodes() {
    let mut map = ModuleMap::new();
    map.insert("com.a.X".to_string(), refs(&["org.c.Z"]));
    map.insert("com.b.Y".to_string(), refs(&[]));
    map.insert("org.c.Z".to_string(), refs(&[]));
    let tree = build(&map, Some("com.a"), None);
    assert_eq!(tree.len(), 2);
    assert_eq!(get_refs(&tree, "com.a.X"), Some(refs(&["org.c.Z"])));
    assert_eq!(get_refs(&tree, "org.c.Z"), Some(refs(&[])));
    assert_eq!(get_refs(&tree, "com.b.Y"), None);
}

#[test]
fn escaping_idempotence() {
    let token = "com/a\"b";
    let escaped = escape(token);
    assert_eq!(escaped, "com_a'b");
    let again = escape(&escaped);
    assert_eq!(again, escaped);

    let mut map = ModuleMap::new();
    map.insert("com/a\"b".to_string(), refs(&["x"]));
    let out = serialize(&map, RankDir::LR);
    let edge = out
        .lines()
        .find(|l| l.contains(" -> "))
        .expect("an edge statement is emitted");
    assert_eq!(edge, "  \"com_a'b\" -> \"x\";");
    let head = edge.trim_start().trim_start_matches('"');
    let recovered = &head[..head.find('"').expect("closing quote")];
    assert_eq!(recovered, escaped);
    assert_eq!(escape(recovered), escaped);
}

#[test]
fn no_duplicate_edges_strict_declaration() {
    let mut map = ModuleMap::new();
    map.insert("A".to_string(), refs(&["B", "B"]));
    let out = serialize(&map, RankDir::LR);
    assert!(out.starts_with("strict digraph G {\n"));
    let statements: Vec<&str> = out.lines().filter(|l| l.contains(" -> ")).collect();
    assert_eq!(statements, vec!["  \"A\" -> \"B\";", "  \"A\" -> \"B\";"]);
}

#[test]
fn scan_determinism_on_key_set() {
    let forward = vec![
        ("a".to_string(), refs(&["x", "y"])),
        ("b".to_string(), refs(&["z"])),
        ("c".to_string(), refs(&[])),
    ];
    let mut backward = forward.clone();
    backward.reverse();
    let m1 = from_records(&forward);
    let m2 = from_records(&backward);
    assert_eq!(m1.len(), m2.len());
    for key in ["a", "b", "c"] {
        assert_eq!(get_refs(&m1, key), get_refs(&m2, key));
        assert!(get_refs(&m1, key).is_some());
    }
}

#[test]
fn end_to_end_scenario() {
    let file_a = "package a;\nimport b;\n";
    let file_b = "package b;\nimport c;\n";
    let file_c = "package c;\n";
    let mut map = ModuleMap::new();
    scan_file(&mut map, file_a);
    scan_file(&mut map, file_b);
    scan_file(&mut map, file_c);
    assert_eq!(map.len(), 3);

    let tree = build(&map, None, None);
    assert_eq!(tree.len(), 3);
    assert_eq!(get_refs(&tree, "a"), Some(refs(&["b"])));
    assert_eq!(get_refs(&tree, "b"), Some(refs(&["c"])));
    assert_eq!(get_refs(&tree, "c"), Some(refs(&[])));

    let out = generate_dot_content(&map, None, None, RankDir::LR);
    let statements: Vec<&str> = out.lines().filter(|l| l.contains(" -> ")).collect();
    assert_eq!(statements.len(), 2);
    assert!(statements.contains(&"  \"a\" -> \"b\";"));
    assert!(statements.contains(&"  \"b\" -> \"c\";"));
}

#[test]
fn serialize_empty_map_exact_text() {
    let map = ModuleMap::new();
    let out = serialize(&map, RankDir::TB);
    let expected = "strict digraph G {\n  rankdir=TB;\n  graph [bgcolor=black];\n  graph [label=\"Orthogonal edges\", splines=ortho, nodesep=0.8];\n  edge [color=white];\n  graph[ratio=fill,center=1];\n  node[style=filled, shape=box];\n}";
    assert_eq!(out, expected);
}

#[test]
fn rank_dir_parsing() {
    assert_eq!(RankDir::from_str("lr"), Ok(RankDir::LR));
    assert_eq!(RankDir::from_str("rl"), Ok(RankDir::RL));
    assert_eq!(RankDir::from_str("tb"), Ok(RankDir::TB));
    assert_eq!(RankDir::from_str("bt"), Ok(RankDir::BT));
    assert_eq!(RankDir::from_str("LR"), Err(()));
    assert_eq!(RankDir::from_str(""), Err(()));
    assert_eq!(RankDir::from_str("down"), Err(()));
}

#[test]
fn extraction_finds_package_and_imports() {
    let text = "package com.example.app;\nimport com.dep.One;\nimport com.dep.Two;\nclass T {}\n";
    let rec = extract_record(text).expect("identity declared");
    assert_eq!(rec.0, "com.example.app");
    assert_eq!(rec.1, refs(&["com.dep.One", "com.dep.Two"]));
}

#[test]
fn extraction_keeps_duplicates_in_order() {
    let text = "package p;\nimport a.B;\nimport a.A;\nimport a.B;\n";
    let rec = extract_record(text).expect("identity declared");
    assert_eq!(rec.1, refs(&["a.B", "a.A", "a.B"]));
}

#[test]
fn extraction_without_declaration_yields_nothing() {
    assert!(extract_record("class Orphan {}\n").is_none());
    let mut map = ModuleMap::new();
    scan_file(&mut map, "class Orphan {}\n");
    assert_eq!(map.len(), 0);
}

#[test]
fn insert_overwrites_duplicate_identity() {
    let mut map = ModuleMap::new();
    map.insert("a".to_string(), refs(&["x"]));
    map.insert("a".to_string(), refs(&["y"]));
    assert_eq!(map.len(), 1);
    assert_eq!(get_refs(&map, "a"), Some(refs(&["y"])));
}

#[test]
fn source_filter_matches_fixed_extension() {
    assert!(is_source_extension("java"));
    assert!(!is_source_extension("kt"));
    assert!(!is_source_extension("jav"));
    assert!(!is_source_extension(""));
}

#[test]
fn prefix_matching() {
    assert!(starts_with("com.a.X", "com.a"));
    assert!(starts_with("com.a", "com.a"));
    assert!(!starts_with("com", "com.a"));
    assert!(!starts_with("org.a.X", "com"));
    assert!(starts_with("anything", ""));
}

#[test]
fn escape_of_empty_and_plain_tokens() {
    assert_eq!(escape(""), "");
    assert_eq!(escape("com.a.X"), "com.a.X");
}

#[test]
fn build_on_empty_map_is_empty() {
    let map = ModuleMap::new();
    let tree = build(&map, None, None);
    assert_eq!(tree.len(), 0);
    let tree2 = build(&map, Some("com"), Some(3));
    assert_eq!(tree2.len(), 0);
}

#[test]
fn rank_directions_are_emitted() {
    let map = ModuleMap::new();
    assert!(serialize(&map, RankDir::LR).contains("  rankdir=LR;\n"));
    assert!(serialize(&map, RankDir::RL).contains("  rankdir=RL;\n"));
    assert!(serialize(&map, RankDir::BT).contains("  rankdir=BT;\n"));
}

#[test]
fn generate_with_prefix_and_depth() {
    let mut map = ModuleMap::new();
    map.insert("com.a.Root".to_string(), refs(&["com.b.Mid"]));
    map.insert("com.b.Mid".to_string(), refs(&["com.c.Deep"]));
    map.insert("com.c.Deep".to_string(), refs(&[]));
    map.insert("org.other".to_string(), refs(&["com.a.Root"]));
    let out = generate_dot_content(&map, Some("com.a"), Some(1), RankDir::TB);
    assert!(out.contains("  \"com.a.Root\" -> \"com.b.Mid\";"));
    assert!(out.contains("  \"com.b.Mid\" -> \"com.c.Deep\";"));
    assert!(!out.contains("\"org.other\""));
    assert!(!out.contains("\"com.c.Deep\" ->"));
}

#[test]
fn dangling_reference_becomes_leaf() {
    let mut map = ModuleMap::new();
    map.insert("a".to_string(), refs(&["ghost.pkg"]));
    let tree = build(&map, None, None);
    assert_eq!(tree.len(), 2);
    assert_eq!(get_refs(&tree, "ghost.pkg"), Some(refs(&[])));
}
