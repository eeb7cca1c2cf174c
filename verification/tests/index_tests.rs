use mygit::error::GitError;
use mygit::index::Index;
use mygit::index_text::{parse_index, render_index};
use mygit::stage::{add_file, rm_cache, unstage_path};

fn entries(idx: &Index) -> Vec<(String, String)> {
    idx.entries().clone()
}

#[test]
fn empty_text_is_empty_index() {
    let idx = parse_index("").unwrap();
    assert!(idx.is_empty());
    assert_eq!(render_index(&idx), "");
}

#[test]
fn parse_sorts_and_later_line_wins() {
    let idx = parse_index("b.txt 22\na.txt 11\nb.txt 33\n").unwrap();
    assert_eq!(
        entries(&idx),
        vec![("a.txt".to_string(), "11".to_string()), ("b.txt".to_string(), "33".to_string())]
    );
    assert_eq!(idx.len(), 2);
    assert_eq!(idx.get("b.txt"), Some("33".to_string()));
    assert_eq!(idx.get("c.txt"), None);
}

#[test]
fn parse_accepts_any_white_space_and_crlf() {
    let idx = parse_index("x\t  1\r\ny 2").unwrap();
    assert_eq!(idx.get("x"), Some("1".to_string()));
    assert_eq!(idx.get("y"), Some("2".to_string()));
}

#[test]
fn corrupt_lines_are_refused() {
    assert_eq!(parse_index("a 1\n\nb 2\n").err(), Some(GitError::CorruptIndex));
    assert_eq!(parse_index("a 1 2\n").err(), Some(GitError::CorruptIndex));
    assert_eq!(parse_index("lonely\n").err(), Some(GitError::CorruptIndex));
    assert_eq!(parse_index("a 1\n\n").err(), Some(GitError::CorruptIndex));
}

#[test]
fn render_writes_sorted_lines() {
    let mut idx = Index::new();
    idx.insert("z".to_string(), "3".to_string());
    idx.insert("a/b".to_string(), "1".to_string());
    idx.insert("a".to_string(), "2".to_string());
    assert_eq!(render_index(&idx), "a 2\na/b 1\nz 3\n");
}

#[test]
fn render_then_parse_gives_back_the_index() {
    let mut idx = Index::new();
    idx.insert("src/main.rs".to_string(), "abc".to_string());
    idx.insert("README".to_string(), "def".to_string());
    let back = parse_index(&render_index(&idx)).unwrap();
    assert_eq!(entries(&back), entries(&idx));
}

#[test]
fn insertion_order_does_not_matter() {
    let mut a = Index::new();
    a.insert("x".to_string(), "1".to_string());
    a.insert("y".to_string(), "2".to_string());
    let mut b = Index::new();
    b.insert("y".to_string(), "2".to_string());
    b.insert("x".to_string(), "1".to_string());
    assert_eq!(render_index(&a), render_index(&b));
}

#[test]
fn insert_replaces_and_remove_drops() {
    let mut idx = Index::new();
    idx.insert("k".to_string(), "1".to_string());
    idx.insert("k".to_string(), "2".to_string());
    assert_eq!(idx.len(), 1);
    assert_eq!(idx.get("k"), Some("2".to_string()));
    idx.remove("k");
    idx.remove("absent");
    assert!(idx.is_empty());
}

#[test]
fn add_file_stages_content_id() {
    let mut idx = Index::new();
    add_file(&mut idx, "/w/hello.txt".to_string(), b"hello world");
    assert_eq!(idx.get("/w/hello.txt"), Some("2aae6c35c94fcfb415dbe95f408b9ce91ee846ed".to_string()));
}

#[test]
fn add_then_rm_cache_unstages() {
    let mut idx = Index::new();
    add_file(&mut idx, "/w/a".to_string(), b"x");
    add_file(&mut idx, "/w/b".to_string(), b"y");
    rm_cache(&mut idx, &vec![("/w/a".to_string(), true)], '/');
    assert!(!idx.contains_key("/w/a"));
    assert!(idx.contains_key("/w/b"));
}

#[test]
fn unstaging_a_directory_takes_everything_under_it() {
    let mut idx = parse_index("/w/d/a 1\n/w/d/sub/b 2\n/w/dx 3\n/w/d 4\n").unwrap();
    unstage_path(&mut idx, "/w/d", false, '/');
    assert_eq!(entries(&idx), vec![("/w/dx".to_string(), "3".to_string())]);
    let mut idx = parse_index("/w/d/a 1\n/w/e 2\n").unwrap();
    unstage_path(&mut idx, "/w/d/", false, '/');
    assert_eq!(entries(&idx), vec![("/w/e".to_string(), "2".to_string())]);
}

#[test]
fn unstaging_a_file_keeps_paths_under_its_name() {
    let mut idx = parse_index("/w/d 1\n/w/d/a 2\n").unwrap();
    unstage_path(&mut idx, "/w/d", true, '/');
    assert_eq!(entries(&idx), vec![("/w/d/a".to_string(), "2".to_string())]);
}

#[test]
fn rm_cache_of_nothing_staged_changes_nothing() {
    let mut idx = parse_index("/w/a 1\n").unwrap();
    rm_cache(&mut idx, &vec![("/w/zzz".to_string(), false)], '/');
    assert_eq!(entries(&idx), vec![("/w/a".to_string(), "1".to_string())]);
}

#[test]
fn unstaging_twice_is_unstaging_once() {
    let targets = vec![("/w/d".to_string(), false), ("/w/f".to_string(), true)];
    let mut once = parse_index("/w/d/a 1\n/w/f 2\n/w/g 3\n").unwrap();
    rm_cache(&mut once, &targets, '/');
    let mut twice = parse_index("/w/d/a 1\n/w/f 2\n/w/g 3\n").unwrap();
    rm_cache(&mut twice, &targets, '/');
    rm_cache(&mut twice, &targets, '/');
    assert_eq!(entries(&once), entries(&twice));
    assert_eq!(entries(&once), vec![("/w/g".to_string(), "3".to_string())]);
}

#[test]
fn unstaging_a_joined_list_is_unstaging_its_parts() {
    let a = vec![("/w/d".to_string(), false)];
    let b = vec![("/w/f".to_string(), true)];
    let mut joined = parse_index("/w/d/a 1\n/w/f 2\n/w/g 3\n").unwrap();
    rm_cache(&mut joined, &vec![a[0].clone(), b[0].clone()], '/');
    let mut parts = parse_index("/w/d/a 1\n/w/f 2\n/w/g 3\n").unwrap();
    rm_cache(&mut parts, &a, '/');
    rm_cache(&mut parts, &b, '/');
    assert_eq!(entries(&joined), entries(&parts));
}

#[test]
fn unstaging_uses_the_given_separator() {
    let mut idx = parse_index("C:\\w\\d\\a 1\nC:\\w\\d/b 2\n").unwrap();
    unstage_path(&mut idx, "C:\\w\\d", false, '\\');
    assert_eq!(entries(&idx), vec![("C:\\w\\d/b".to_string(), "2".to_string())]);
}
