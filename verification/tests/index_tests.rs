use safesecrets::errors::VaultError;
use safesecrets::index::{line_bytes, load_index, parse_line, Index, IndexEntry};

fn entry(id: u32, app: &str, desc: &str, format: &str) -> IndexEntry {
    IndexEntry {
        id,
        app: app.as_bytes().to_vec(),
        desc: desc.as_bytes().to_vec(),
        format: format.as_bytes().to_vec(),
    }
}

#[test]
fn parse_line_round_trip() {
    let e = parse_line(b"001.github.token.txt").unwrap();
    assert_eq!(e.id, 1);
    assert_eq!(e.app, b"github".to_vec());
    assert_eq!(e.desc, b"token".to_vec());
    assert_eq!(e.format, b".txt".to_vec());
    assert_eq!(line_bytes(&e), b"001.github.token.txt".to_vec());
}

#[test]
fn parse_line_rejects_wrong_field_count() {
    assert_eq!(parse_line(b"001.github.token"), Err(VaultError::IndexCorrupt));
    assert_eq!(parse_line(b"001.git.hub.token.txt"), Err(VaultError::IndexCorrupt));
    assert_eq!(parse_line(b""), Err(VaultError::IndexCorrupt));
}

#[test]
fn parse_line_rejects_bad_id() {
    assert_eq!(parse_line(b"abc.github.token.txt"), Err(VaultError::IndexCorrupt));
    assert_eq!(parse_line(b"000.github.token.txt"), Err(VaultError::IndexCorrupt));
    assert_eq!(parse_line(b"01.github.token.txt"), Err(VaultError::IndexCorrupt));
}

#[test]
fn append_numbers_consecutively() {
    let mut idx = Index::new();
    assert_eq!(idx.append(b"a", b"one", b".txt"), Ok(1));
    assert_eq!(idx.append(b"b", b"two", b".txt"), Ok(2));
    assert_eq!(idx.append(b"c", b"three", b".txt"), Ok(3));
    let text = idx.serialize();
    assert_eq!(text, b"001.a.one.txt\n002.b.two.txt\n003.c.three.txt".to_vec());
}

#[test]
fn append_then_remove_restores_index() {
    let mut idx = Index::new();
    idx.append(b"a", b"one", b".txt").unwrap();
    idx.append(b"b", b"two", b".md").unwrap();
    let before = idx.serialize();
    let id = idx.append(b"c", b"three", b".txt").unwrap();
    idx.remove(id);
    assert_eq!(idx.serialize(), before);
}

#[test]
fn append_fails_when_last_id_is_999() {
    let mut idx = Index { entries: vec![entry(999, "a", "b", ".txt")] };
    assert_eq!(idx.append(b"c", b"d", b".txt"), Err(VaultError::IndexFull));
    assert_eq!(idx.entries.len(), 1);
}

#[test]
fn remove_of_absent_id_changes_nothing() {
    let mut idx = Index::new();
    idx.append(b"a", b"one", b".txt").unwrap();
    let before = idx.serialize();
    idx.remove(57);
    assert_eq!(idx.serialize(), before);
}

#[test]
fn search_filters_serialized_lines_and_reverses() {
    let mut idx = Index::new();
    idx.append(b"github", b"token", b".txt").unwrap();
    idx.append(b"mail", b"password", b".md").unwrap();
    idx.append(b"github", b"backup", b".txt").unwrap();
    let hits = idx.search(b"github");
    assert_eq!(hits.len(), 2);
    assert_eq!(hits[0].id, 3);
    assert_eq!(hits[1].id, 1);
    let by_desc = idx.search(b"password");
    assert_eq!(by_desc.len(), 1);
    assert_eq!(by_desc[0].id, 2);
    let by_id = idx.search(b"002");
    assert_eq!(by_id.len(), 1);
    assert_eq!(by_id[0].app, b"mail".to_vec());
    let all = idx.search(b"");
    assert_eq!(all.len(), 3);
    assert_eq!(all[0].id, 3);
    assert_eq!(all[2].id, 1);
}

#[test]
fn load_index_round_trips_serialization() {
    let mut idx = Index::new();
    idx.append(b"github", b"token", b".txt").unwrap();
    idx.append(b"mail", b"password", b".md").unwrap();
    let text = idx.serialize();
    let loaded = load_index(&text).unwrap();
    assert_eq!(loaded.serialize(), text);
}

#[test]
fn load_index_tolerates_empty_lines() {
    let idx = load_index(b"").unwrap();
    assert_eq!(idx.entries.len(), 0);
    let idx2 = load_index(b"001.a.b.txt\n\n002.c.d.md\n").unwrap();
    assert_eq!(idx2.entries.len(), 2);
    assert_eq!(idx2.entries[0].id, 1);
    assert_eq!(idx2.entries[1].id, 2);
}

#[test]
fn load_index_rejects_corrupt_lines() {
    assert!(matches!(load_index(b"001.a.b.txt\njunk"), Err(VaultError::IndexCorrupt)));
}
