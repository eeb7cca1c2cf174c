use mygit::error::GitError;
use mygit::index::Index;
use mygit::index_text::parse_index;
use mygit::merge::{base_step, merge_kind, three_way_merge, BaseStep, MergeKind};
use mygit::status::{stale_paths, staged_changes, worktree_change, ChangeKind};

fn idx(text: &str) -> Index {
    parse_index(text).unwrap()
}

fn entries(i: &Index) -> Vec<(String, String)> {
    i.entries().clone()
}

#[test]
fn three_way_takes_each_sides_changes() {
    let base = idx("a 1\nb 1\nc 1\n");
    let ours = idx("a 2\nb 1\nc 1\nd 4\n");
    let theirs = idx("a 1\nb 3\ne 5\n");
    let m = three_way_merge(&base, &ours, &theirs).unwrap();
    assert_eq!(m.get("a"), Some("2".to_string()));
    assert_eq!(m.get("b"), Some("3".to_string()));
    assert_eq!(m.get("c"), None);
    assert_eq!(m.get("d"), Some("4".to_string()));
    assert_eq!(m.get("e"), Some("5".to_string()));
    assert_eq!(m.len(), 4);
}

#[test]
fn three_way_conflict() {
    let base = idx("a 1\nz 1\n");
    let ours = idx("a 2\nz 2\n");
    let theirs = idx("a 3\nz 3\n");
    assert_eq!(
        three_way_merge(&base, &ours, &theirs).err(),
        Some(GitError::MergeConflict("a".to_string()))
    );
    let ours = idx("a 1\nz 2\n");
    assert_eq!(
        three_way_merge(&base, &ours, &theirs).err(),
        Some(GitError::MergeConflict("z".to_string()))
    );
}

#[test]
fn same_change_on_both_sides_is_no_conflict() {
    let base = idx("a 1\n");
    let both = idx("a 2\nb 9\n");
    let m = three_way_merge(&base, &both, &both).unwrap();
    assert_eq!(entries(&m), entries(&both));
}

#[test]
fn merge_is_symmetric_on_an_example() {
    let base = idx("a 1\nb 1\n");
    let ours = idx("a 2\nb 1\n");
    let theirs = idx("b 3\n");
    let m1 = three_way_merge(&base, &ours, &theirs);
    let m2 = three_way_merge(&base, &theirs, &ours);
    assert_eq!(m1.err(), Some(GitError::MergeConflict("a".to_string())));
    assert_eq!(m2.err(), Some(GitError::MergeConflict("a".to_string())));
}

#[test]
fn merge_kinds() {
    assert_eq!(merge_kind(&None, "c", "m"), Err(GitError::NoCommonAncestor));
    assert_eq!(merge_kind(&Some("c".to_string()), "c", "m"), Ok(MergeKind::FastForward));
    assert_eq!(merge_kind(&Some("m".to_string()), "c", "m"), Ok(MergeKind::UpToDate));
    assert_eq!(merge_kind(&Some("b".to_string()), "c", "m"), Ok(MergeKind::ThreeWay));
    assert_eq!(merge_kind(&Some("c".to_string()), "c", "c"), Ok(MergeKind::FastForward));
}

#[test]
fn base_search_steps() {
    let ancestors = vec!["c3".to_string(), "c2".to_string(), "c1".to_string()];
    assert_eq!(base_step(&ancestors, Some("m1".to_string())), BaseStep::Read("m1".to_string()));
    assert_eq!(base_step(&ancestors, Some("c2".to_string())), BaseStep::Found("c2".to_string()));
    assert_eq!(base_step(&ancestors, None), BaseStep::Exhausted);
}

#[test]
fn staged_changes_against_head() {
    let head = idx("a 1\nb 1\nc 1\n");
    let index = idx("a 1\nb 2\nd 4\n");
    let ch = staged_changes(&head, &index);
    let got: Vec<(ChangeKind, String)> = ch.iter().map(|c| (c.kind, c.path.clone())).collect();
    assert_eq!(
        got,
        vec![
            (ChangeKind::Modified, "b".to_string()),
            (ChangeKind::Deleted, "c".to_string()),
            (ChangeKind::NewFile, "d".to_string()),
        ]
    );
    assert!(staged_changes(&index, &index).is_empty());
}

#[test]
fn worktree_changes() {
    assert_eq!(worktree_change("h", &None), Some(ChangeKind::Deleted));
    assert_eq!(worktree_change("h", &Some("g".to_string())), Some(ChangeKind::Modified));
    assert_eq!(worktree_change("h", &Some("h".to_string())), None);
}

#[test]
fn stale_paths_are_those_the_tree_lacks() {
    let index = idx("a 1\nb 1\nc 1\n");
    let tree = idx("b 2\nd 1\n");
    assert_eq!(stale_paths(&index, &tree), vec!["a".to_string(), "c".to_string()]);
}

#[test]
fn merge_with_one_side_unchanged_takes_the_other() {
    let base = idx("a 1\nb 1\n");
    let changed = idx("a 2\nc 3\n");
    assert_eq!(entries(&three_way_merge(&base, &base, &changed).unwrap()), entries(&changed));
    assert_eq!(entries(&three_way_merge(&base, &changed, &base).unwrap()), entries(&changed));
}

#[test]
fn nothing_staged_right_after_commit() {
    let index = idx("/w/a 1\n/w/b 2\n");
    let tree = parse_index(&mygit::index_text::render_index(&index)).unwrap();
    assert!(staged_changes(&tree, &index).is_empty());
}
