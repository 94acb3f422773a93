use std::collections::HashMap;
use std::hash::Hasher;

use mush::apply::{plan_apply, ApplyMode, FileOp};
use mush::hashing::{hash_bytes, hash_content, path_key, ContentHasher, HASH_CHUNK};
use mush::manifest::{encode_manifest, ManifestAction};
use mush::scan::{bytes_equal, scan, ScanFile};

fn stream_hash(bytes: &[u8]) -> u64 {
    let mut h = seahash::SeaHasher::default();
    h.write(bytes);
    h.finish()
}

#[test]
fn hash_bytes_is_seahash() {
    for data in [b"".as_slice(), b"X".as_slice(), b"hello world".as_slice()] {
        assert_eq!(hash_bytes(data), seahash::hash(data));
    }
    assert_ne!(hash_bytes(b"X"), hash_bytes(b"Y"));
}

#[test]
fn path_key_hashes_the_path_bytes() {
    assert_eq!(path_key("dir/a.txt"), seahash::hash(b"dir/a.txt"));
}

#[test]
fn hash_content_matches_a_streaming_hasher() {
    let big: Vec<u8> = (0..(3 * HASH_CHUNK + 17)).map(|i| (i % 251) as u8).collect();
    for data in [b"".as_slice(), b"X".as_slice(), big.as_slice()] {
        assert_eq!(hash_content(data), stream_hash(data));
    }
}

#[test]
fn content_hasher_ignores_chunk_boundaries() {
    let data: Vec<u8> = (0..5000).map(|i| (i % 7) as u8).collect();
    let whole = hash_content(&data);
    let mut h = ContentHasher::new();
    h.update(&data[..1]);
    h.update(&data[1..100]);
    h.update(&data[100..]);
    assert_eq!(h.finish(), whole);
}

#[test]
fn bytes_equal_compares_contents() {
    assert!(bytes_equal(b"", b""));
    assert!(bytes_equal(b"abc", b"abc"));
    assert!(!bytes_equal(b"abc", b"abd"));
    assert!(!bytes_equal(b"abc", b"ab"));
}

fn file(src: &str, rel: &str, content: &[u8]) -> ScanFile {
    ScanFile {
        source_path: src.to_string(),
        rel_path: rel.to_string(),
        content: content.to_vec(),
    }
}

#[test]
fn duplicate_contents_merge_into_one_add_and_one_skip() {
    let files = vec![
        file("src/a.txt", "a.txt", b"X"),
        file("src/b.txt", "b.txt", b"X"),
    ];
    let (entries, ids) = scan(&files, "/out");
    assert_eq!(entries.len(), 2);
    assert_eq!(entries[0].action, ManifestAction::Add);
    assert_eq!(entries[0].source_path, "src/a.txt");
    assert_eq!(entries[0].destination_path, "/out/a.txt");
    assert_eq!(entries[0].ordinal, 0);
    assert_eq!(entries[1].action, ManifestAction::Skip);
    assert_eq!(entries[1].source_path, "src/b.txt");
    assert_eq!(entries[1].destination_path, "/out/a.txt");
    assert_eq!(entries[1].ordinal, 1);
    assert_eq!(ids.len(), 1);
    assert_eq!(ids[0].source_path, "src/a.txt");
    assert_eq!(ids[0].dup_count, 1);
    assert_eq!(ids[0].coll_count, 0);
}

#[test]
fn distinct_contents_each_get_an_add() {
    let files = vec![
        file("src/a.txt", "a.txt", b"X"),
        file("src/b.txt", "b.txt", b"Y"),
    ];
    let (entries, ids) = scan(&files, "/out");
    assert_eq!(entries.len(), 2);
    assert_eq!(entries[0].action, ManifestAction::Add);
    assert_eq!(entries[1].action, ManifestAction::Add);
    assert_eq!(entries[1].destination_path, "/out/b.txt");
    assert_eq!(ids.len(), 2);
}

#[test]
fn three_duplicates_number_their_ordinals() {
    let files = vec![
        file("s1/a", "a", b"same"),
        file("s2/a", "a", b"same"),
        file("s3/a", "a", b"same"),
    ];
    let (entries, ids) = scan(&files, "/out");
    assert_eq!(entries[1].ordinal, 1);
    assert_eq!(entries[2].ordinal, 2);
    assert_eq!(ids.len(), 1);
    assert_eq!(ids[0].dup_count, 2);
}

#[test]
fn scan_manifest_text_matches_the_format() {
    let files = vec![
        file("src/a.txt", "a.txt", b"X"),
        file("src/b.txt", "b.txt", b"X"),
    ];
    let (entries, _) = scan(&files, "/out");
    let h = stream_hash(b"X");
    let expected = format!(
        "action,hash,src,dst\n[+],{h},src/a.txt,/out/a.txt\n[*],{h}#dup1,src/b.txt,/out/a.txt\n"
    );
    assert_eq!(encode_manifest(&entries), expected);
}

fn run_ops(fs: &mut HashMap<String, Vec<u8>>, ops: &[FileOp]) {
    for op in ops {
        let Some(bytes) = fs.get(&op.src).cloned() else {
            continue;
        };
        fs.insert(op.dst.clone(), bytes);
        if matches!(op.mode, ApplyMode::MoveMode) && op.dst != op.src {
            fs.remove(&op.src);
        }
    }
}

#[test]
fn applying_a_duplicate_scan_copies_exactly_one_file() {
    let files = vec![
        file("src/a.txt", "a.txt", b"X"),
        file("src/b.txt", "b.txt", b"X"),
    ];
    let (entries, _) = scan(&files, "/out");
    let ops = plan_apply(&entries, ApplyMode::CopyMode);
    assert_eq!(ops.len(), 1);
    assert_eq!(ops[0].src, "src/a.txt");
    assert_eq!(ops[0].dst, "/out/a.txt");

    let mut fs: HashMap<String, Vec<u8>> = HashMap::new();
    fs.insert("src/a.txt".to_string(), b"X".to_vec());
    fs.insert("src/b.txt".to_string(), b"X".to_vec());
    run_ops(&mut fs, &ops);
    assert_eq!(fs.get("/out/a.txt").map(Vec::as_slice), Some(b"X".as_slice()));
    assert!(fs.keys().filter(|k| k.starts_with("/out/")).count() == 1);
    assert!(fs.contains_key("src/a.txt"));
}

#[test]
fn copy_keeps_the_source_and_move_removes_it() {
    let entries = {
        let files = vec![file("src/a.txt", "a.txt", b"X")];
        scan(&files, "/out").0
    };
    let mut fs: HashMap<String, Vec<u8>> = HashMap::new();
    fs.insert("src/a.txt".to_string(), b"X".to_vec());

    let copies = plan_apply(&entries, ApplyMode::CopyMode);
    let mut fs_copy = fs.clone();
    run_ops(&mut fs_copy, &copies);
    assert!(fs_copy.contains_key("src/a.txt"));
    assert_eq!(fs_copy.get("/out/a.txt"), fs_copy.get("src/a.txt"));

    let moves = plan_apply(&entries, ApplyMode::MoveMode);
    let mut fs_move = fs.clone();
    run_ops(&mut fs_move, &moves);
    assert!(!fs_move.contains_key("src/a.txt"));
    assert_eq!(fs_move.get("/out/a.txt").map(Vec::as_slice), Some(b"X".as_slice()));
}

#[test]
fn plan_replays_only_add_entries() {
    let files = vec![
        file("src/a.txt", "a.txt", b"X"),
        file("src/b.txt", "b.txt", b"X"),
        file("src/c.txt", "c.txt", b"Z"),
    ];
    let (entries, _) = scan(&files, "/out");
    let ops = plan_apply(&entries, ApplyMode::MoveMode);
    assert_eq!(ops.len(), 2);
    assert_eq!(ops[0].src, "src/a.txt");
    assert_eq!(ops[1].src, "src/c.txt");
}
