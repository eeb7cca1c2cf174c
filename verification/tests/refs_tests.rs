use mygit::index_text::{parse_index, render_index};
use mygit::error::GitError;
use mygit::order::sort_texts;
use mygit::refs::{
    branch_create, branch_delete, branch_head_text, branch_to_update, checkout_target,
    current_branch, file_name, parse_head, ref_target, ref_text, Head,
};
use mygit::text::trim_str;

#[test]
fn head_on_a_branch() {
    assert_eq!(parse_head("ref: refs/heads/main\n"), Head::Branch("refs/heads/main".to_string()));
    assert_eq!(current_branch("ref: refs/heads/main\n"), Some("main".to_string()));
    assert_eq!(branch_to_update("  ref: refs/heads/dev \n"), Ok("dev".to_string()));
}

#[test]
fn detached_head() {
    assert_eq!(parse_head(" abc123\n"), Head::Detached("abc123".to_string()));
    assert_eq!(parse_head(""), Head::Detached(String::new()));
    assert_eq!(current_branch("abc123\n"), None);
    assert_eq!(branch_to_update("abc123\n"), Err(GitError::Detached("abc123".to_string())));
}

#[test]
fn branch_without_final_component_keeps_head_text() {
    assert_eq!(branch_to_update("ref: refs/heads/..\n"), Ok("ref: refs/heads/..".to_string()));
}

#[test]
fn file_names() {
    assert_eq!(file_name("refs/heads/main"), Some("main".to_string()));
    assert_eq!(file_name("a/b/"), Some("b".to_string()));
    assert_eq!(file_name("a/b/."), Some("b".to_string()));
    assert_eq!(file_name("a//b"), Some("b".to_string()));
    assert_eq!(file_name("main"), Some("main".to_string()));
    assert_eq!(file_name("a/.."), None);
    assert_eq!(file_name("/"), None);
    assert_eq!(file_name("."), None);
    assert_eq!(file_name(""), None);
}

#[test]
fn reference_files() {
    assert_eq!(ref_text("abc"), "abc\n");
    assert_eq!(ref_target("abc\n"), Some("abc".to_string()));
    assert_eq!(ref_target(" \n"), None);
    assert_eq!(ref_target(""), None);
    assert_eq!(branch_head_text("main"), "ref: refs/heads/main\n");
    assert_eq!(current_branch(&branch_head_text("feature")), Some("feature".to_string()));
}

#[test]
fn creating_branches() {
    assert_eq!(branch_create("dev", false, Some("c1".to_string())), Ok("c1".to_string()));
    assert_eq!(branch_create("dev", false, None), Err(GitError::NoCommit));
    assert_eq!(
        branch_create("dev", true, Some("c1".to_string())),
        Err(GitError::BranchExists("dev".to_string()))
    );
}

#[test]
fn deleting_branches() {
    assert_eq!(branch_delete("dev", true, "ref: refs/heads/main\n"), Ok(()));
    assert_eq!(branch_delete("main", true, "ref: refs/heads/main\n"), Err(GitError::CurrentBranch));
    assert_eq!(branch_delete("main", true, "c0ffee\n"), Ok(()));
    assert_eq!(
        branch_delete("gone", false, "ref: refs/heads/main\n"),
        Err(GitError::NoSuchBranch("gone".to_string()))
    );
}

#[test]
fn checkout_targets() {
    assert_eq!(
        checkout_target("dev", true, "c1\n"),
        ("c1".to_string(), "ref: refs/heads/dev\n".to_string())
    );
    assert_eq!(checkout_target("c2", false, ""), ("c2".to_string(), "c2\n".to_string()));
}

#[test]
fn branch_names_sorted() {
    let v = vec![
        "main".to_string(),
        "dev".to_string(),
        "Zeta".to_string(),
        "dev".to_string(),
        "\u{e9}t\u{e9}".to_string(),
        "\u{10348}".to_string(),
        "\u{ffff}".to_string(),
    ];
    let mut expected = v.clone();
    expected.sort();
    assert_eq!(sort_texts(&v), expected);
    assert_eq!(sort_texts(&vec![]), Vec::<String>::new());
}

#[test]
fn trimming_follows_str_trim() {
    let s = "\u{3000}\t a b \u{a0}\r\n";
    assert_eq!(trim_str(s), s.trim());
}

#[test]
fn file_names_follow_std_path_on_unix() {
    for p in ["a/b", "a/b/", "a/./", "./", "/a", "a/../b", "..", "a/b/..", "/.", "x//y//", "."] {
        let want = std::path::Path::new(p).file_name().map(|n| n.to_string_lossy().to_string());
        assert_eq!(file_name(p), want, "file name of {p:?}");
    }
}

#[test]
fn ref_file_as_head_is_detached() {
    assert_eq!(parse_head(&ref_text("c0ffee")), Head::Detached("c0ffee".to_string()));
}

#[test]
fn checking_out_a_branch_again_restores_head_and_index() {
    let head_before = branch_head_text("x");
    let x_tree_text = "/w/a 1\n/w/b 2\n";
    let index_before = render_index(&parse_index(x_tree_text).unwrap());
    let (_, head_y) = checkout_target("y", true, "cy\n");
    assert_ne!(head_y, head_before);
    let (commit, head_x) = checkout_target("x", true, "cx\n");
    assert_eq!(commit, "cx");
    assert_eq!(head_x, head_before);
    assert_eq!(render_index(&parse_index(x_tree_text).unwrap()), index_before);
}
