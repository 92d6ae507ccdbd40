use std::collections::HashMap;

use exmodhop::index::{bin_file_path, index_file_path, updated_index, Index};
use exmodhop::parser::{
    collect_path_modules, modules_in_tree, parse_elixir, source_modules, ScanError, SyntaxNode,
    SyntaxTree,
};

const SOURCE: &str = "defmodule Foo do\n  defmodule Bar do\n    def hi, do: :ok\n  end\nend\n\ndefmodule Baz.Qux do\nend\n";

fn node(kind: &str, named: bool, row: usize, start: usize, end: usize, parent: usize) -> SyntaxNode {
    SyntaxNode { kind: kind.to_string(), named, row, start_byte: start, end_byte: end, parent }
}

fn owned(mods: &[(&str, usize)]) -> Vec<(String, usize)> {
    mods.iter().map(|(n, l)| (n.to_string(), *l)).collect()
}

#[test]
fn parse_elixir_gives_a_tree_with_a_root() {
    let tree = parse_elixir(SOURCE);
    assert!(tree.len() > 5);
    assert!(parse_elixir("").len() >= 1);
}

#[test]
fn source_modules_finds_nested_modules() {
    let modules = source_modules(SOURCE, "/p/lib/foo.ex").unwrap();
    assert_eq!(modules, owned(&[("Foo", 1), ("Foo.Bar", 2), ("Baz.Qux", 7)]));
}

#[test]
fn source_modules_of_plain_code_is_empty() {
    assert_eq!(source_modules("x = 1 + 2\nIO.puts(x)\n", "/p/lib/x.ex").unwrap(), Vec::new());
    assert_eq!(source_modules("", "/p/lib/empty.ex").unwrap(), Vec::new());
}

#[test]
fn collect_path_modules_restores_module_parts() {
    let tree = parse_elixir(SOURCE);
    let mut parts = vec!["Outer".to_string()];
    let mut found = vec![("Earlier".to_string(), 99)];
    collect_path_modules(&tree, 0, SOURCE, "/p/lib/foo.ex", &mut parts, &mut found).unwrap();
    assert_eq!(parts, vec!["Outer".to_string()]);
    assert_eq!(found, owned(&[("Earlier", 99), ("Outer.Foo", 1), ("Outer.Foo.Bar", 2), ("Outer.Baz.Qux", 7)]));
}

#[test]
fn modules_in_tree_reads_hand_built_tree() {
    // source_file > call > (identifier "defmodule", alias "Foo")
    let src = "defmodule Foo";
    let nodes = vec![
        node("source", true, 0, 0, 13, 0),
        node("call", true, 4, 0, 13, 0),
        node("identifier", true, 4, 0, 9, 1),
        node("alias", true, 4, 10, 13, 1),
    ];
    let tree = SyntaxTree::from_nodes(nodes);
    assert_eq!(modules_in_tree(&tree, src, "f.ex").unwrap(), owned(&[("Foo", 5)]));
}

#[test]
fn unreadable_node_text_is_an_error() {
    let src = "defmodule Foo";
    let nodes = vec![
        node("source", true, 0, 0, 13, 0),
        node("call", true, 0, 0, 13, 0),
        node("identifier", true, 0, 0, 90, 1),
        node("alias", true, 0, 10, 13, 1),
    ];
    let tree = SyntaxTree::from_nodes(nodes);
    assert_eq!(modules_in_tree(&tree, src, "f.ex"), Err(ScanError::NodeText));
    let src = "d\u{e9}f";
    let nodes = vec![node("call", true, 0, 0, 4, 0), node("identifier", true, 0, 0, 2, 0), node("x", true, 0, 2, 4, 0)];
    let tree = SyntaxTree::from_nodes(nodes);
    assert_eq!(modules_in_tree(&tree, src, "f.ex"), Err(ScanError::NodeText));
}

#[test]
fn line_overflow_is_an_error() {
    let src = "defmodule Foo";
    let nodes = vec![
        node("call", true, usize::MAX, 0, 13, 0),
        node("identifier", true, 0, 0, 9, 0),
        node("alias", true, 0, 10, 13, 0),
    ];
    let tree = SyntaxTree::from_nodes(nodes);
    assert_eq!(modules_in_tree(&tree, src, "f.ex"), Err(ScanError::LineOverflow));
}

#[test]
fn closing_without_opening_drops_an_enclosing_name() {
    // A call whose only child is the identifier `defmodule` opens nothing but closes a module.
    let src = "defmodule";
    let nodes = vec![node("call", true, 0, 0, 9, 0), node("identifier", true, 0, 0, 9, 0)];
    let tree = SyntaxTree::from_nodes(nodes);
    let mut parts = vec!["Outer".to_string()];
    let mut found = Vec::new();
    collect_path_modules(&tree, 0, src, "f.ex", &mut parts, &mut found).unwrap();
    assert!(parts.is_empty());
    assert!(found.is_empty());
}

fn sample_index() -> Index {
    let mut index = Index::new("/cfg", None);
    index.insert("/p/lib/b.ex".to_string(), owned(&[("Zeta", 1), ("Alpha.B", 3)]));
    index.insert("/p/lib/a.ex".to_string(), owned(&[("Alpha", 1)]));
    index
}

#[test]
fn index_paths_are_in_root() {
    let index = Index::new("/cfg", None);
    assert_eq!(index.index_path(), "/cfg/modules.index");
    assert_eq!(index.bin_path(), "/cfg/modules.bin");
    assert_eq!(index_file_path("/cfg/"), "/cfg/modules.index");
    assert_eq!(bin_file_path("/cfg"), "/cfg/modules.bin");
    assert!(index.entries().is_empty());
}

#[test]
fn save_lists_modules_sorted_by_name() {
    let mut index = sample_index();
    let (_bin, text) = index.save();
    assert_eq!(text, "Alpha\t/p/lib/a.ex\t1\nAlpha.B\t/p/lib/b.ex\t3\nZeta\t/p/lib/b.ex\t1\n");
}

#[test]
fn saved_bin_reloads_to_the_same_index() {
    let mut index = sample_index();
    let (bin, text) = index.save();
    let reloaded = Index::new("/cfg", Some(&bin));
    assert_eq!(reloaded.save_index(), text);
    let mut a = index.entries().clone();
    let mut b = reloaded.entries().clone();
    a.sort();
    b.sort();
    assert_eq!(a, b);
    assert_eq!(reloaded.save_bin(), bin);
}

#[test]
fn stored_hash_map_loads() {
    let mut map: HashMap<String, Vec<(String, usize)>> = HashMap::new();
    map.insert("/p/lib/a.ex".to_string(), owned(&[("A", 1), ("A.B", 4)]));
    map.insert("/p/lib/c.ex".to_string(), owned(&[("C", 2)]));
    let bytes = bincode::serialize(&map).unwrap();
    let index = Index::new("/cfg", Some(&bytes));
    assert_eq!(index.save_index(), "A\t/p/lib/a.ex\t1\nA.B\t/p/lib/a.ex\t4\nC\t/p/lib/c.ex\t2\n");
}

#[test]
fn unreadable_bin_gives_an_empty_index() {
    let index = Index::new("/cfg", Some(&[1, 2, 3]));
    assert!(index.entries().is_empty());
    assert_eq!(Index::load_bin(&[0xff; 4]), None);
}

#[test]
fn merge_updates_replaces_entries_of_updated_paths() {
    let mut index = sample_index();
    index.save();
    index.merge_updates(vec![
        ("/p/lib/a.ex".to_string(), owned(&[("Alpha2", 8)])),
        ("/p/lib/new.ex".to_string(), owned(&[("New", 1)])),
        ("/p/lib/new.ex".to_string(), owned(&[("Newer", 2)])),
    ]);
    assert_eq!(
        index.save_index(),
        "Alpha.B\t/p/lib/b.ex\t3\nAlpha2\t/p/lib/a.ex\t8\nNewer\t/p/lib/new.ex\t2\nZeta\t/p/lib/b.ex\t1\n"
    );
    assert_eq!(index.entries().len(), 3);
}

#[test]
fn equal_names_keep_their_order() {
    let mut index = Index::new("/cfg", None);
    index.merge_updates(vec![
        ("/p/x.ex".to_string(), owned(&[("Same", 5), ("Same", 2)])),
        ("/p/y.ex".to_string(), owned(&[("Same", 1)])),
    ]);
    assert_eq!(index.save_index(), "Same\t/p/x.ex\t5\nSame\t/p/x.ex\t2\nSame\t/p/y.ex\t1\n");
}

#[test]
fn insert_replaces_pending_modules_of_a_path() {
    let mut index = Index::new("/cfg", None);
    index.insert("/p/a.ex".to_string(), owned(&[("Old", 1)]));
    index.insert("/p/a.ex".to_string(), owned(&[("New", 2)]));
    assert!(index.entries().is_empty());
    let (_bin, text) = index.save();
    assert_eq!(text, "New\t/p/a.ex\t2\n");
    let (_bin, again) = index.save();
    assert_eq!(again, text);
}

#[test]
fn insert_all_records_each_file() {
    let mut index = Index::new("/cfg", None);
    index.insert_all(vec![
        ("/p/a.ex".to_string(), owned(&[("A", 1)])),
        ("/p/b.ex".to_string(), owned(&[("B", 3)])),
    ]);
    let (_bin, text) = index.save();
    assert_eq!(text, "A\t/p/a.ex\t1\nB\t/p/b.ex\t3\n");
}

#[test]
fn updated_index_overrides_stored_entries() {
    let mut first = Index::new("/cfg", None);
    first.insert("/p/a.ex".to_string(), owned(&[("A", 1)]));
    first.insert("/p/gone.ex".to_string(), owned(&[("Gone", 4)]));
    let (stored, _) = first.save();
    let parsed = vec![("/p/a.ex".to_string(), owned(&[("A2", 2)])), ("/p/c.ex".to_string(), owned(&[("C", 5)]))];
    let (bin, text) = updated_index("/cfg", Some(&stored), parsed.clone());
    assert_eq!(text, "A2\t/p/a.ex\t2\nC\t/p/c.ex\t5\nGone\t/p/gone.ex\t4\n");
    let reloaded = Index::new("/cfg", Some(&bin));
    assert_eq!(reloaded.save_index(), text);
    let (bin_again, text_again) = updated_index("/cfg", Some(&stored), parsed);
    assert_eq!(text_again, text);
    let mut a = Index::new("/cfg", Some(&bin)).entries().clone();
    let mut b = Index::new("/cfg", Some(&bin_again)).entries().clone();
    a.sort();
    b.sort();
    assert_eq!(a, b);
    let (_, fresh) = updated_index("/cfg", None, Vec::new());
    assert_eq!(fresh, "");
}
