use jdtools::collect::{
    collect, extract_markdown_files_non_recursive, extract_markdown_files_recursive, Admission,
    CollectError, Entry, Frame,
};
use jdtools::files::FileMap;
use jdtools::limits::{has_extension_exec, Limits, DEFAULT_MAX_FILE_SIZE, DEFAULT_MAX_TOTAL_SIZE};
use std::collections::HashMap;

fn file(name: &str, content: &str) -> Entry {
    Entry::File {
        name: name.to_string(),
        size: content.len() as u64,
        content: Some(content.to_string()),
    }
}

fn dir(name: &str, entries: Vec<Entry>) -> Entry {
    Entry::Dir { name: name.to_string(), entries }
}

fn large_file(name: &str) -> Entry {
    let n: usize = 15 * 1024 * 1024;
    Entry::File { name: name.to_string(), size: n as u64, content: Some("A".repeat(n)) }
}

fn as_map(m: FileMap) -> HashMap<String, String> {
    m.into_entries().into_iter().collect()
}

fn small_limits(max_file_size: u64, max_total_size: u64) -> Limits {
    Limits { max_file_size, max_total_size, extension: "md".to_string() }
}

fn sample_tree() -> Vec<Entry> {
    vec![
        file("small.md", "Hello, Markdown!"),
        large_file("large.md"),
        dir("dir", vec![file("dir.md", "Hello, Markdown in the directory!")]),
    ]
}

#[test]
fn test_extract_markdown_files() {
    let result = as_map(extract_markdown_files_recursive(&sample_tree()).ok().unwrap());
    assert_eq!(result.len(), 2);
    assert!(result.contains_key("small.md"));
    assert!(result.contains_key("dir.md"));
    assert_eq!(result["small.md"], "Hello, Markdown!");
    assert_eq!(result["dir.md"], "Hello, Markdown in the directory!");
}

#[test]
fn test_extract_markdown_files_non_recursive_error() {
    let result = extract_markdown_files_non_recursive(&sample_tree()).err().unwrap();
    assert_eq!(result.message(), "Error: target is a directory, use recursion");
}

#[test]
fn test_extract_markdown_files_recursive() {
    let tree = vec![file("small.md", "Hello, Markdown!"), large_file("large.md")];
    let result = as_map(extract_markdown_files_recursive(&tree).ok().unwrap());
    assert_eq!(result.len(), 1);
    assert!(result.contains_key("small.md"));
    assert_eq!(result["small.md"], "Hello, Markdown!");
}

#[test]
fn filtering_keeps_exactly_md_files() {
    let tree = vec![
        file("a.md", "a"),
        file("b.txt", "b"),
        file("c", "c"),
        file(".md", "hidden"),
        file("d.MD", "upper"),
        file("e.md.txt", "double"),
        file("f.txt.md", "f"),
        file("g.mdx", "g"),
    ];
    let result = as_map(extract_markdown_files_recursive(&tree).ok().unwrap());
    let mut keys: Vec<&String> = result.keys().collect();
    keys.sort();
    assert_eq!(keys, vec!["a.md", "f.txt.md"]);
    assert_eq!(result["f.txt.md"], "f");
}

#[test]
fn recursion_toggle() {
    let tree = vec![file("top.md", "top"), dir("sub", vec![file("inner.md", "inner")])];
    let both = as_map(collect(&tree, true, &Limits::markdown()).ok().unwrap());
    assert_eq!(both.len(), 2);
    assert_eq!(both["top.md"], "top");
    assert_eq!(both["inner.md"], "inner");
    let err = collect(&tree, false, &Limits::markdown()).err().unwrap();
    assert!(matches!(err, CollectError::NotRecursive));
}

#[test]
fn directory_first_without_recursion_fails() {
    let tree = vec![dir("sub", vec![]), file("top.md", "top")];
    assert!(matches!(
        extract_markdown_files_non_recursive(&tree),
        Err(CollectError::NotRecursive)
    ));
}

#[test]
fn oversized_file_is_skipped_and_walk_goes_on() {
    let tree = vec![
        file("a.md", "aaaa"),
        file("big.md", "0123456789ab"),
        file("b.md", "bb"),
        dir("sub", vec![file("big2.md", "0123456789ab"), file("c.md", "c")]),
    ];
    let result = as_map(collect(&tree, true, &small_limits(10, 100)).ok().unwrap());
    let mut keys: Vec<&String> = result.keys().collect();
    keys.sort();
    assert_eq!(keys, vec!["a.md", "b.md", "c.md"]);
}

#[test]
fn aggregate_ceiling_stops_without_error() {
    let tree = vec![
        file("a.md", "aaaaaa"),
        file("b.md", "bbbbbb"),
        file("c.md", "cc"),
        file("d.md", "d"),
    ];
    let result = as_map(collect(&tree, true, &small_limits(10, 10)).ok().unwrap());
    assert_eq!(result.len(), 1);
    assert_eq!(result["a.md"], "aaaaaa");
    let total: usize = result.values().map(|v| v.len()).sum();
    assert!(total <= 10);
}

#[test]
fn aggregate_ceiling_stops_merge_of_subdirectory() {
    let tree = vec![
        file("a.md", "aaaa"),
        dir("sub", vec![file("b.md", "bbbb"), file("c.md", "cccc")]),
        file("d.md", "d"),
    ];
    let result = as_map(collect(&tree, true, &small_limits(10, 10)).ok().unwrap());
    let mut keys: Vec<&String> = result.keys().collect();
    keys.sort();
    assert_eq!(keys, vec!["a.md", "b.md"]);
}

#[test]
fn each_subdirectory_counts_its_own_total() {
    let tree = vec![
        dir("one", vec![file("a.md", "aaaaaaaa")]),
        dir("two", vec![file("b.md", "bbbbbbbb")]),
    ];
    let result = as_map(collect(&tree, true, &small_limits(10, 10)).ok().unwrap());
    assert_eq!(result.len(), 1);
    assert!(result.contains_key("a.md"));
}

#[test]
fn repeated_collection_is_identical() {
    let tree = sample_tree();
    let first = extract_markdown_files_recursive(&tree).ok().unwrap().into_entries();
    let second = extract_markdown_files_recursive(&tree).ok().unwrap().into_entries();
    assert_eq!(first, second);
}

#[test]
fn no_markdown_gives_empty_collection() {
    let tree = vec![file("a.txt", "a"), file("b.txt", "b")];
    let result = extract_markdown_files_recursive(&tree).ok().unwrap();
    assert_eq!(result.len(), 0);
}

#[test]
fn empty_directory_gives_empty_collection() {
    let result = extract_markdown_files_non_recursive(&vec![]).ok().unwrap();
    assert_eq!(result.len(), 0);
}

#[test]
fn unreadable_file_fails_whole_collection() {
    let tree = vec![
        file("a.md", "a"),
        Entry::File { name: "bad.md".to_string(), size: 3, content: None },
    ];
    let err = extract_markdown_files_recursive(&tree).err().unwrap();
    assert_eq!(err.message(), "bad.md");
}

#[test]
fn unreadable_file_after_stop_is_never_read() {
    let tree = vec![
        file("a.md", "aaaaaaaa"),
        file("b.md", "bbbbbbbb"),
        Entry::File { name: "bad.md".to_string(), size: 1, content: None },
    ];
    let result = as_map(collect(&tree, true, &small_limits(10, 10)).ok().unwrap());
    assert_eq!(result.len(), 1);
}

#[test]
fn same_name_in_subdirectory_overwrites() {
    let tree = vec![file("x.md", "outer"), dir("sub", vec![file("x.md", "inner")])];
    let result = extract_markdown_files_recursive(&tree).ok().unwrap().into_entries();
    assert_eq!(result, vec![("x.md".to_string(), "inner".to_string())]);
}

#[test]
fn merge_counts_bytes_of_utf8() {
    let tree = vec![dir("sub", vec![file("e.md", "ééé")])];
    let result = collect(&tree, true, &small_limits(10, 5)).ok().unwrap();
    assert_eq!(result.len(), 0);
    let result = collect(&tree, true, &small_limits(10, 6)).ok().unwrap();
    assert_eq!(result.len(), 1);
}

#[test]
fn extension_matching() {
    let md = "md".to_string();
    assert!(has_extension_exec(&"a.md".to_string(), &md));
    assert!(has_extension_exec(&"..md".to_string(), &md));
    assert!(!has_extension_exec(&".md".to_string(), &md));
    assert!(!has_extension_exec(&"md".to_string(), &md));
    assert!(!has_extension_exec(&"a.Md".to_string(), &md));
    assert!(!has_extension_exec(&"a.md.bak".to_string(), &md));
    assert!(!has_extension_exec(&"a.md".to_string(), &"a.md".to_string()));
    assert!(has_extension_exec(&"a.".to_string(), &"".to_string()));
}

#[test]
fn markdown_limits_values() {
    let l = Limits::markdown();
    assert_eq!(l.max_file_size, 10_485_760);
    assert_eq!(l.max_total_size, 104_857_600);
    assert_eq!(DEFAULT_MAX_FILE_SIZE, 10 * 1024 * 1024);
    assert_eq!(DEFAULT_MAX_TOTAL_SIZE, 100 * 1024 * 1024);
    assert_eq!(l.extension, "md");
}

#[test]
fn file_map_insert_replaces_in_place() {
    let mut m = FileMap::new();
    m.insert("a".to_string(), "1".to_string());
    m.insert("b".to_string(), "2".to_string());
    m.insert("a".to_string(), "3".to_string());
    assert_eq!(m.len(), 2);
    assert_eq!(
        m.entries().clone(),
        vec![("a".to_string(), "3".to_string()), ("b".to_string(), "2".to_string())]
    );
}

#[test]
fn frame_size_checks() {
    let lim = small_limits(10, 15);
    let mut f = Frame::new();
    assert!(matches!(f.check_size(11, &lim), Admission::Skip));
    assert!(matches!(f.check_size(10, &lim), Admission::Take));
    f.add_file("a.md".to_string(), "0123456789".to_string(), 10, &lim);
    assert_eq!(f.total, 10);
    assert!(matches!(f.check_size(6, &lim), Admission::Stop));
    assert!(matches!(f.check_size(5, &lim), Admission::Take));
}

#[test]
fn frame_merge_stops_at_ceiling() {
    let lim = small_limits(10, 5);
    let mut sub = FileMap::new();
    sub.insert("a.md".to_string(), "aaa".to_string());
    sub.insert("b.md".to_string(), "bbb".to_string());
    let mut f = Frame::new();
    assert!(f.merge(&sub, &lim));
    assert_eq!(f.total, 3);
    assert_eq!(f.files.len(), 1);
}
