use mush::config::{
    cfg_exists, cfg_set_dst, get_cfg_dst_dir, get_cfg_src_dir, get_ignore_file,
    get_ignore_patterns, get_mode, Config, ConfigError, CoreConfig,
};
use mush::detect::{
    file_action_tag, get_file_sync_list, partition_sync_list, FileAction, LiveFile,
};
use mush::hashing::path_key;
use mush::paths::{
    get_cfg_dir_str, get_obj_file, get_src_rel_path_hash, get_src_rel_path_str, join_path,
    path_is_under, path_src_to_dst,
};
use mush::record::{FileRecord, RecordStore};

fn cfg() -> Config {
    Config {
        core: CoreConfig {
            ignore_file: Some(".syncignore".to_string()),
            mode: "bidirectional".to_string(),
            src: "/home/me/src".to_string(),
            dst: Some("/mnt/backup".to_string()),
        },
    }
}

#[test]
fn config_getters_read_the_fields() {
    let c = cfg();
    assert_eq!(get_cfg_src_dir(&c), "/home/me/src");
    assert_eq!(get_cfg_dst_dir(&c), "/mnt/backup");
    assert_eq!(get_ignore_file(&c), Some(".syncignore".to_string()));
    assert_eq!(get_mode(&c), "bidirectional");
}

#[test]
fn setting_the_destination_changes_nothing_else() {
    let mut c = cfg();
    cfg_set_dst(&mut c, "/elsewhere".to_string());
    assert_eq!(c.core.dst, Some("/elsewhere".to_string()));
    assert_eq!(c.core.src, "/home/me/src");
    assert_eq!(c.core.mode, "bidirectional");
    assert_eq!(c.core.ignore_file, Some(".syncignore".to_string()));
}

#[test]
fn cfg_exists_reports_a_loaded_config() {
    assert!(cfg_exists(&Ok(cfg())));
    assert!(!cfg_exists(&Err(ConfigError)));
    assert_eq!(ConfigError.message(), "Failed to get config");
}

#[test]
fn ignore_patterns_are_the_files_lines() {
    assert_eq!(get_ignore_patterns(".*\ntarget\n"), vec![".*", "target"]);
    assert_eq!(get_ignore_patterns(""), Vec::<String>::new());
    assert_eq!(get_ignore_patterns("one"), vec!["one"]);
}

#[test]
fn paths_strip_and_join_around_a_root() {
    assert!(path_is_under("/a/b/c.txt", "/a/b"));
    assert!(!path_is_under("/a/bc/c.txt", "/a/b"));
    assert!(!path_is_under("/a/b", "/a/b"));
    assert_eq!(get_src_rel_path_str("/a/b/c.txt", "/a/b"), "c.txt");
    assert_eq!(join_path("/out", "d/e"), "/out/d/e");
    assert_eq!(path_src_to_dst("/a/b/d/e.txt", "/a/b", "/out"), "/out/d/e.txt");
}

#[test]
fn object_files_are_named_by_decimal_key() {
    assert_eq!(get_obj_file(".mush", 42), ".mush/objects/42");
    assert_eq!(get_cfg_dir_str("mush"), ".mush");
    assert_eq!(
        get_src_rel_path_hash("/a/b/c.txt", "/a/b"),
        path_key("c.txt")
    );
}

fn record_for(rel: &str, checksum: u64) -> FileRecord {
    FileRecord {
        file_name: rel.to_string(),
        rel_path: rel.to_string(),
        created: 1,
        modified: 1,
        checksum,
    }
}

fn live(rel: &str, hash: u64) -> LiveFile {
    LiveFile {
        rel_path: rel.to_string(),
        content_hash: hash,
    }
}

#[test]
fn detector_classifies_create_update_unchanged_delete() {
    let mut store = RecordStore::new();
    store.put(path_key("same.txt"), record_for("same.txt", 100));
    store.put(path_key("changed.txt"), record_for("changed.txt", 200));
    store.put(path_key("gone.txt"), record_for("gone.txt", 300));

    let live_files = vec![
        live("same.txt", 100),
        live("changed.txt", 999),
        live("new.txt", 400),
    ];
    let list = get_file_sync_list(&store, &live_files, "/src");
    assert_eq!(list.len(), 4);
    assert_eq!(list[0], ("/src/same.txt".to_string(), FileAction::NONE));
    assert_eq!(list[1], ("/src/changed.txt".to_string(), FileAction::UPDATE));
    assert_eq!(list[2], ("/src/new.txt".to_string(), FileAction::CREATE));
    assert_eq!(list[3], ("/src/gone.txt".to_string(), FileAction::DELETE));
}

#[test]
fn second_run_after_updating_records_is_all_unchanged() {
    let live_files = vec![live("a.txt", 11), live("b.txt", 22)];
    let mut store = RecordStore::new();
    for f in &live_files {
        store.put(path_key(&f.rel_path), record_for(&f.rel_path, f.content_hash));
    }
    let list = get_file_sync_list(&store, &live_files, "/src");
    assert_eq!(list.len(), 2);
    assert!(list.iter().all(|(_, a)| *a == FileAction::NONE));
}

#[test]
fn removing_a_tracked_file_yields_exactly_one_delete() {
    let mut store = RecordStore::new();
    store.put(path_key("kept.txt"), record_for("kept.txt", 1));
    store.put(path_key("removed.txt"), record_for("removed.txt", 2));

    let live_files = vec![live("kept.txt", 1)];
    let list = get_file_sync_list(&store, &live_files, "/src");
    let deletes: Vec<_> = list
        .iter()
        .filter(|(_, a)| *a == FileAction::DELETE)
        .collect();
    assert_eq!(deletes.len(), 1);
    assert_eq!(deletes[0].0, "/src/removed.txt");

    store.remove(path_key("removed.txt"));
    assert!(store.get(path_key("removed.txt")).is_none());
    assert!(store.get(path_key("kept.txt")).is_some());
}

#[test]
fn status_partition_groups_by_action() {
    let list = vec![
        ("/s/new1".to_string(), FileAction::CREATE),
        ("/s/upd".to_string(), FileAction::UPDATE),
        ("/s/same".to_string(), FileAction::NONE),
        ("/s/new2".to_string(), FileAction::CREATE),
        ("/s/gone".to_string(), FileAction::DELETE),
    ];
    let (c, u, d) = partition_sync_list(&list);
    assert_eq!(c, vec!["/s/new1", "/s/new2"]);
    assert_eq!(u, vec!["/s/upd"]);
    assert_eq!(d, vec!["/s/gone"]);
}

#[test]
fn tree_tags_mirror_the_actions() {
    assert_eq!(file_action_tag(&FileAction::CREATE), "[+]");
    assert_eq!(file_action_tag(&FileAction::UPDATE), "[>]");
    assert_eq!(file_action_tag(&FileAction::DELETE), "[-]");
    assert_eq!(file_action_tag(&FileAction::NONE), "[=]");
    assert_eq!(file_action_tag(&FileAction::IGNORE), "");
}
