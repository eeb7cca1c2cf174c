use mygit::commit::{
    commit_parent, commit_text, commit_tree, merge_commit_text, prepare_commit, prepare_merge_commit,
};
use mygit::error::GitError;
use mygit::index::Index;
use mygit::index_text::parse_index;
use mygit::objects::{hex_encode, object_id, text_id};
use sha1::{Digest, Sha1};

#[test]
fn hex_is_lower_case_two_digits_per_byte() {
    assert_eq!(hex_encode(&[0x00, 0x0f, 0xa5, 0xff]), "000fa5ff");
    assert_eq!(hex_encode(&[0xbe, 0xef]), hex::encode([0xbe, 0xef]));
}

#[test]
fn object_id_is_hex_sha1() {
    assert_eq!(object_id(b"hello world"), "2aae6c35c94fcfb415dbe95f408b9ce91ee846ed");
    assert_eq!(object_id(b""), "da39a3ee5e6b4b0d3255bfef95601890afd80709");
    let data = b"some blob";
    assert_eq!(object_id(data), hex::encode(Sha1::digest(data)));
}

#[test]
fn text_id_hashes_the_utf8_bytes() {
    let t = "h\u{e9}llo \u{4e16}\n";
    assert_eq!(text_id(t), hex::encode(Sha1::digest(t.as_bytes())));
}

#[test]
fn commit_text_layout() {
    assert_eq!(
        commit_text("t1", &Some("p1".to_string()), &Some("init".to_string())),
        "tree t1\nparent p1\nmessage init\n"
    );
    assert_eq!(commit_text("t1", &None, &None), "tree t1\n");
    assert_eq!(commit_text("t1", &None, &Some("m".to_string())), "tree t1\nmessage m\n");
}

#[test]
fn merge_commit_text_layout() {
    assert_eq!(
        merge_commit_text("t", "c", "m", "main", "dev"),
        "tree t\nparent c\nparent1 m\nmessage merge main dev\n\n"
    );
}

#[test]
fn commit_reads_back() {
    let t = commit_text("abc", &Some("def".to_string()), &Some("hello there".to_string()));
    assert_eq!(commit_tree(&t), "abc");
    assert_eq!(commit_parent(&t), Some("def".to_string()));
    let t = commit_text("abc", &None, &Some("parentless".to_string()));
    assert_eq!(commit_parent(&t), None);
    let m = merge_commit_text("t", "c", "m", "main", "dev");
    assert_eq!(commit_tree(&m), "t");
    assert_eq!(commit_parent(&m), Some("c".to_string()));
}

#[test]
fn last_tree_line_wins_and_values_are_trimmed() {
    let t = "tree  a \nparent1 x\nparent  p \ntree b\n";
    assert_eq!(commit_tree(t), "b");
    assert_eq!(commit_parent(t), Some("p".to_string()));
    assert_eq!(commit_tree("message hi\n"), "");
}

#[test]
fn nothing_to_commit_on_empty_index() {
    let idx = Index::new();
    assert_eq!(prepare_commit(&idx, &None, &None).err(), Some(GitError::NothingToCommit));
}

#[test]
fn prepare_commit_writes_tree_and_commit() {
    let idx = parse_index("/w/a 111\n").unwrap();
    let c = prepare_commit(&idx, &Some("p0".to_string()), &Some("msg".to_string())).unwrap();
    assert_eq!(c.tree_text, "/w/a 111\n");
    assert_eq!(c.tree_id, text_id("/w/a 111\n"));
    assert_eq!(c.commit_text, format!("tree {}\nparent p0\nmessage msg\n", c.tree_id));
    assert_eq!(c.commit_id, text_id(&c.commit_text));
    assert_eq!(commit_tree(&c.commit_text), c.tree_id);
}

#[test]
fn prepare_merge_commit_writes_both_parents() {
    let idx = parse_index("/w/a 1\n").unwrap();
    let c = prepare_merge_commit(&idx, "cur", "other", "main", "dev");
    assert_eq!(
        c.commit_text,
        format!("tree {}\nparent cur\nparent1 other\nmessage merge main dev\n\n", c.tree_id)
    );
    assert_eq!(commit_parent(&c.commit_text), Some("cur".to_string()));
}
