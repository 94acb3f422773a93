use mush::manifest::{
    decode_line, decode_manifest, encode_line, encode_manifest, parse_action_tag, action_tag,
    ManifestAction, ManifestEntry,
};
use mush::numtext::{parse_u64, u64_to_string};
use mush::record::{decode_record, encode_record, FileRecord, RecordStore};
use mush::textutil::{join_from, lines_vec, split_str, str_eq};

#[test]
fn decimal_renders_exact_values() {
    assert_eq!(u64_to_string(0), "0");
    assert_eq!(u64_to_string(7), "7");
    assert_eq!(u64_to_string(42), "42");
    assert_eq!(u64_to_string(1024), "1024");
    assert_eq!(u64_to_string(u64::MAX), "18446744073709551615");
}

#[test]
fn decimal_parses_back() {
    assert_eq!(parse_u64("0"), Some(0));
    assert_eq!(parse_u64("42"), Some(42));
    assert_eq!(parse_u64("18446744073709551615"), Some(u64::MAX));
    for n in [0u64, 1, 9, 10, 99, 100, 123456789, u64::MAX] {
        assert_eq!(parse_u64(&u64_to_string(n)), Some(n));
    }
}

#[test]
fn decimal_rejects_bad_text() {
    assert_eq!(parse_u64(""), None);
    assert_eq!(parse_u64("x"), None);
    assert_eq!(parse_u64("1x2"), None);
    assert_eq!(parse_u64("-1"), None);
    assert_eq!(parse_u64("18446744073709551616"), None);
    assert_eq!(parse_u64("99999999999999999999"), None);
}

#[test]
fn split_and_join_are_inverses() {
    let parts = split_str("a,b,,c", ',');
    assert_eq!(parts, vec!["a", "b", "", "c"]);
    assert_eq!(join_from(&parts, 0, ","), "a,b,,c");
    assert_eq!(join_from(&parts, 2, ","), ",c");
    let lone = split_str("", ',');
    assert_eq!(lone, vec![""]);
}

#[test]
fn lines_follow_line_reader_conventions() {
    assert_eq!(lines_vec(""), Vec::<String>::new());
    assert_eq!(lines_vec("a\nb\n"), vec!["a", "b"]);
    assert_eq!(lines_vec("a\n\nb"), vec!["a", "", "b"]);
    assert_eq!(lines_vec("one line"), vec!["one line"]);
}

#[test]
fn str_eq_compares_contents() {
    assert!(str_eq("abc", "abc"));
    assert!(!str_eq("abc", "abd"));
    assert!(!str_eq("abc", "ab"));
}

#[test]
fn record_text_is_field_per_line() {
    let rec = FileRecord {
        file_name: "a.txt".to_string(),
        rel_path: "dir/a.txt".to_string(),
        created: 100,
        modified: 200,
        checksum: 12345,
    };
    assert_eq!(encode_record(&rec), "a.txt\ndir/a.txt\n100\n200\n12345\n");
}

#[test]
fn record_round_trips() {
    let rec = FileRecord {
        file_name: "a.txt".to_string(),
        rel_path: "dir/a.txt".to_string(),
        created: 100,
        modified: 200,
        checksum: u64::MAX,
    };
    let back = decode_record(&encode_record(&rec)).expect("record text must decode");
    assert_eq!(back.file_name, rec.file_name);
    assert_eq!(back.rel_path, rec.rel_path);
    assert_eq!(back.created, rec.created);
    assert_eq!(back.modified, rec.modified);
    assert_eq!(back.checksum, rec.checksum);
}

#[test]
fn malformed_record_text_is_rejected() {
    assert!(decode_record("").is_none());
    assert!(decode_record("a\nb\n1\n2\n").is_none());
    assert!(decode_record("a\nb\n1\n2\nx\n").is_none());
    assert!(decode_record("a\nb\n1\n2\n3\n4\n").is_none());
    assert!(decode_record("a\nb\n1\n2\n18446744073709551616\n").is_none());
}

#[test]
fn record_store_has_map_semantics() {
    let mut store = RecordStore::new();
    assert_eq!(store.num_records(), 0);
    let rec = |name: &str, sum: u64| FileRecord {
        file_name: name.to_string(),
        rel_path: name.to_string(),
        created: 1,
        modified: 2,
        checksum: sum,
    };
    store.put(10, rec("a", 111));
    store.put(20, rec("b", 222));
    assert_eq!(store.num_records(), 2);
    assert_eq!(store.get(10).unwrap().checksum, 111);
    assert_eq!(store.get(20).unwrap().checksum, 222);
    assert!(store.get(30).is_none());

    store.put(10, rec("a", 333));
    assert_eq!(store.num_records(), 2);
    assert_eq!(store.get(10).unwrap().checksum, 333);

    store.remove(10);
    assert!(store.get(10).is_none());
    assert_eq!(store.num_records(), 1);
    store.remove(10);
    assert_eq!(store.num_records(), 1);

    let all = store.list_all();
    assert_eq!(all.len(), 1);
    assert_eq!(all[0].0, 20);
    assert_eq!(all[0].1, "b");
}

#[test]
fn checked_lookup_flags_path_key_collisions() {
    let mut store = RecordStore::new();
    let rec = FileRecord {
        file_name: "a".to_string(),
        rel_path: "dir/a".to_string(),
        created: 1,
        modified: 2,
        checksum: 3,
    };
    store.put(77, rec);
    assert!(matches!(store.get_checked(77, "dir/a"), Ok(Some(_))));
    assert!(matches!(store.get_checked(78, "dir/a"), Ok(None)));
    assert!(store.get_checked(77, "dir/b").is_err());
}

#[test]
fn action_tags_are_a_bijection() {
    let actions = [
        ManifestAction::Add,
        ManifestAction::Remove,
        ManifestAction::Skip,
        ManifestAction::Ignore,
        ManifestAction::Update,
        ManifestAction::Retrieve,
        ManifestAction::Collision,
    ];
    let tags = ["[+]", "[-]", "[*]", "[_]", "[>]", "[<]", "[!]"];
    for (a, t) in actions.iter().zip(tags.iter()) {
        assert_eq!(action_tag(a), *t);
        assert_eq!(parse_action_tag(t), Some(*a));
    }
    assert_eq!(parse_action_tag("[?]"), None);
    assert_eq!(parse_action_tag(""), None);
    assert_eq!(parse_action_tag("[+] "), None);
}

fn entry(
    action: ManifestAction,
    hash: u64,
    ordinal: u64,
    src: &str,
    dst: &str,
) -> ManifestEntry {
    ManifestEntry {
        action,
        content_hash: hash,
        ordinal,
        source_path: src.to_string(),
        destination_path: dst.to_string(),
    }
}

#[test]
fn manifest_lines_are_comma_delimited() {
    let add = entry(ManifestAction::Add, 42, 0, "src/a.txt", "/out/a.txt");
    assert_eq!(encode_line(&add), "[+],42,src/a.txt,/out/a.txt");
    let skip = entry(ManifestAction::Skip, 42, 1, "src/b.txt", "/out/a.txt");
    assert_eq!(encode_line(&skip), "[*],42#dup1,src/b.txt,/out/a.txt");
    let coll = entry(ManifestAction::Collision, 42, 1, "src/c.txt", "/out/a.txt");
    assert_eq!(encode_line(&coll), "[!],42#coll1,src/c.txt,/out/a.txt");
}

#[test]
fn manifest_line_round_trips() {
    let cases = vec![
        entry(ManifestAction::Add, 42, 0, "src/a.txt", "/out/a.txt"),
        entry(ManifestAction::Skip, 7, 3, "s", "/out/with,comma"),
        entry(ManifestAction::Collision, u64::MAX, 12, "x/y", "/z"),
        entry(ManifestAction::Remove, 1, 0, "a", "b"),
        entry(ManifestAction::Update, 2, 0, "a", "b"),
        entry(ManifestAction::Retrieve, 3, 0, "a", "b"),
        entry(ManifestAction::Ignore, 4, 0, "a", "b"),
    ];
    for e in &cases {
        let line = encode_line(e);
        let back = decode_line(&line).expect("line must decode");
        assert_eq!(back.action, e.action);
        assert_eq!(back.content_hash, e.content_hash);
        assert_eq!(back.ordinal, e.ordinal);
        assert_eq!(back.source_path, e.source_path);
        assert_eq!(back.destination_path, e.destination_path);
    }
}

#[test]
fn malformed_manifest_lines_are_rejected() {
    assert!(decode_line("").is_none());
    assert!(decode_line("[+],42,src").is_none());
    assert!(decode_line("[?],42,src,dst").is_none());
    assert!(decode_line("[+],notanumber,src,dst").is_none());
    assert!(decode_line("[*],42,src,dst").is_none());
    assert!(decode_line("[*],42#coll1,src,dst").is_none());
    assert!(decode_line("[!],42#dup1,src,dst").is_none());
    assert!(decode_line("[+],42#dup1,src,dst").is_none());
}

#[test]
fn manifest_text_round_trips() {
    let entries = vec![
        entry(ManifestAction::Add, 42, 0, "src/a.txt", "/out/a.txt"),
        entry(ManifestAction::Skip, 42, 1, "src/b.txt", "/out/a.txt"),
        entry(ManifestAction::Collision, 42, 1, "src/c.txt", "/out/a.txt"),
    ];
    let text = encode_manifest(&entries);
    assert!(text.starts_with("action,hash,src,dst\n"));
    let (back, skipped) = decode_manifest(&text);
    assert_eq!(skipped, 0);
    assert_eq!(back.len(), entries.len());
    for (b, e) in back.iter().zip(entries.iter()) {
        assert_eq!(b.action, e.action);
        assert_eq!(b.content_hash, e.content_hash);
        assert_eq!(b.ordinal, e.ordinal);
        assert_eq!(b.source_path, e.source_path);
        assert_eq!(b.destination_path, e.destination_path);
    }
}

#[test]
fn bad_manifest_lines_are_skipped_not_fatal() {
    let text = "action,hash,src,dst\n[+],42,src/a.txt,/out/a.txt\ngarbage line\n[+],7,s,d\n";
    let (entries, skipped) = decode_manifest(text);
    assert_eq!(entries.len(), 2);
    assert_eq!(skipped, 1);
    assert_eq!(entries[0].content_hash, 42);
    assert_eq!(entries[1].content_hash, 7);
}

#[test]
fn empty_manifest_text_has_no_entries() {
    let (entries, skipped) = decode_manifest("");
    assert!(entries.is_empty());
    assert_eq!(skipped, 0);
    let (entries2, skipped2) = decode_manifest("action,hash,src,dst\n");
    assert!(entries2.is_empty());
    assert_eq!(skipped2, 0);
}
