//! Change detection.
//!
//! A detector run diffs the live files of a source tree against the
//! record store, without the previous tree itself: every live file is
//! keyed by its relative path and compared by content hash against its
//! record, and every record whose file was not seen live marks a
//! deletion. The detector only reads the store; applying the actions
//! and updating records is the caller's affair.

use vstd::prelude::*;
use crate::hashing::path_key;
use crate::hashing::path_key_of;
use crate::paths::join_path;
use crate::record::FileRecordV;
use crate::record::RecordStore;
use crate::record::find_rec;
use crate::record::lemma_find_after_put;
use crate::record::lemma_find_after_put_other;
use crate::record::spec_put;
use crate::record::unique_keys;

verus! {

/// What a sync run would do with one file.
#[allow(non_camel_case_types)]
#[derive(Clone, Copy, PartialEq, Eq, Structural, Debug)]
pub enum FileAction {
    CREATE,
    UPDATE,
    DELETE,
    NONE,
    IGNORE,
}

/// One file observed live under the source root, already hashed.
pub struct LiveFile {
    pub rel_path: String,
    pub content_hash: u64,
}

/// The mathematical value of a live file.
#[verifier::ext_equal]
pub ghost struct LiveFileV {
    pub rel_path: Seq<char>,
    pub content_hash: u64,
}

impl View for LiveFile {
    type V = LiveFileV;

    open spec fn view(&self) -> LiveFileV {
        LiveFileV { rel_path: self.rel_path@, content_hash: self.content_hash }
    }
}

/// The store key of a live file.
pub open spec fn live_key(f: LiveFileV) -> u64 {
    path_key_of(f.rel_path)
}

/// A root and a relative path, joined.
pub open spec fn abs_path(root: Seq<char>, rel: Seq<char>) -> Seq<char> {
    root + seq!['/'] + rel
}

/// The action for one live file: untracked files are created, tracked
/// files are updated exactly when their stored hash disagrees with the
/// live one, and left alone when it agrees.
pub open spec fn action_for(store: Seq<(u64, FileRecordV)>, f: LiveFileV) -> FileAction {
    match find_rec(store, live_key(f)) {
        Some(rec) => if rec.checksum != f.content_hash {
            FileAction::UPDATE
        } else {
            FileAction::NONE
        },
        None => FileAction::CREATE,
    }
}

/// The live half of a detector run: one entry per live file, in walk
/// order.
pub open spec fn live_part(
    store: Seq<(u64, FileRecordV)>,
    live: Seq<LiveFileV>,
    root: Seq<char>,
) -> Seq<(Seq<char>, FileAction)> {
    live.map_values(|f: LiveFileV| (abs_path(root, f.rel_path), action_for(store, f)))
}

/// Whether some live file carries the key.
pub open spec fn seen_live(live: Seq<LiveFileV>, key: u64) -> bool {
    exists|i: int| 0 <= i < live.len() && live_key(#[trigger] live[i]) == key
}

/// The delete half of a detector run: one entry per stored record
/// whose file was not seen live, in store order.
pub open spec fn delete_part(
    store: Seq<(u64, FileRecordV)>,
    live: Seq<LiveFileV>,
    root: Seq<char>,
) -> Seq<(Seq<char>, FileAction)>
    decreases store.len(),
{
    if store.len() == 0 {
        Seq::<(Seq<char>, FileAction)>::empty()
    } else {
        let head = if seen_live(live, store[0].0) {
            Seq::<(Seq<char>, FileAction)>::empty()
        } else {
            seq![(abs_path(root, store[0].1.rel_path), FileAction::DELETE)]
        };
        head + delete_part(store.drop_first(), live, root)
    }
}

/// A whole detector run: the live files in walk order, then the
/// deletions in store order.
pub open spec fn spec_sync_list(
    store: Seq<(u64, FileRecordV)>,
    live: Seq<LiveFileV>,
    root: Seq<char>,
) -> Seq<(Seq<char>, FileAction)> {
    live_part(store, live, root) + delete_part(store, live, root)
}

/// The mathematical value of one output entry.
pub open spec fn pair_view(p: (String, FileAction)) -> (Seq<char>, FileAction) {
    (p.0@, p.1)
}

/// The mathematical value of the output vector.
pub open spec fn out_view(s: Seq<(String, FileAction)>) -> Seq<(Seq<char>, FileAction)> {
    s.map_values(|p: (String, FileAction)| pair_view(p))
}

/// Appending an output entry appends its value.
proof fn lemma_out_view_push(s: Seq<(String, FileAction)>, p: (String, FileAction))
    ensures
        out_view(s.push(p)) =~= out_view(s).push(pair_view(p)),
{
}

/// One more live file appends one more live entry.
proof fn lemma_live_part_snoc(
    store: Seq<(u64, FileRecordV)>,
    live: Seq<LiveFileV>,
    root: Seq<char>,
    i: int,
)
    requires
        0 <= i < live.len(),
    ensures
        live_part(store, live.subrange(0, i + 1), root) =~= live_part(
            store,
            live.subrange(0, i),
            root,
        ).push((abs_path(root, live[i].rel_path), action_for(store, live[i]))),
{
    assert forall|k: int| 0 <= k < i + 1 implies live_part(store, live.subrange(0, i + 1), root)[k]
        == live_part(store, live.subrange(0, i), root).push(
        (abs_path(root, live[i].rel_path), action_for(store, live[i])),
    )[k] by {
        assert(live.subrange(0, i + 1)[k] == live[k]);
        if k < i {
            assert(live.subrange(0, i)[k] == live[k]);
        }
    }
}

/// Whether a vector holds the key.
fn contains_key_u64(v: &Vec<u64>, key: u64) -> (r: bool)
    ensures
        r == v@.contains(key),
{
    let n = v.len();
    let mut i: usize = 0;
    while i < n
        invariant
            n == v@.len(),
            0 <= i <= n,
            forall|k: int| 0 <= k < i ==> v@[k] != key,
        decreases n - i,
    {
        if v[i] == key {
            return true;
        }
        i = i + 1;
    }
    false
}

/// Diff the live tree against the record store: the mapping from
/// absolute path to action that `spec_sync_list` describes.
pub fn get_file_sync_list(store: &RecordStore, live: &Vec<LiveFile>, src_root: &str) -> (r: Vec<
    (String, FileAction),
>)
    ensures
        out_view(r@) == spec_sync_list(store@, live@.map_values(|f: LiveFile| f@), src_root@),
{
    let ghost sv = store@;
    let ghost lv = live@.map_values(|f: LiveFile| f@);
    let ghost root = src_root@;
    let mut out: Vec<(String, FileAction)> = Vec::new();
    let mut keys: Vec<u64> = Vec::new();
    proof {
        assert(out_view(out@) =~= Seq::<(Seq<char>, FileAction)>::empty());
        assert(live_part(sv, lv.subrange(0, 0), root) =~= Seq::<(Seq<char>, FileAction)>::empty());
    }
    let n = live.len();
    let mut i: usize = 0;
    while i < n
        invariant
            n == live@.len(),
            0 <= i <= n,
            sv == store@,
            lv == live@.map_values(|f: LiveFile| f@),
            root == src_root@,
            keys@.len() == i,
            forall|k: int| 0 <= k < i ==> keys@[k] == live_key(#[trigger] lv[k]),
            out_view(out@) == live_part(sv, lv.subrange(0, i as int), root),
        decreases n - i,
    {
        let f = &live[i];
        let key = path_key(f.rel_path.as_str());
        let action = match store.get(key) {
            Some(rec) => {
                if rec.checksum != f.content_hash {
                    FileAction::UPDATE
                } else {
                    FileAction::NONE
                }
            },
            None => FileAction::CREATE,
        };
        let path = join_path(src_root, f.rel_path.as_str());
        let ghost prev = out@;
        let ghost entry = (path, action);
        out.push((path, action));
        keys.push(key);
        proof {
            assert(lv[i as int] == f@);
            assert(action == action_for(sv, lv[i as int]));
            assert(out@ == prev.push(entry));
            lemma_out_view_push(prev, entry);
            lemma_live_part_snoc(sv, lv, root, i as int);
            assert(pair_view(entry) == (abs_path(root, lv[i as int].rel_path), action_for(
                sv,
                lv[i as int],
            )));
        }
        i = i + 1;
    }
    proof {
        assert(lv.subrange(0, lv.len() as int) =~= lv);
        assert(delete_part(sv.subrange(0, 0), lv, root) =~= Seq::<(Seq<char>, FileAction)>::empty());
        assert(out_view(out@) =~= live_part(sv, lv, root) + delete_part(
            sv.subrange(0, 0),
            lv,
            root,
        ));
    }
    let m = store.num_records();
    let mut j: usize = 0;
    while j < m
        invariant
            m == store@.len(),
            0 <= j <= m,
            sv == store@,
            lv == live@.map_values(|f: LiveFile| f@),
            root == src_root@,
            keys@.len() == lv.len(),
            forall|k: int| 0 <= k < lv.len() ==> keys@[k] == live_key(#[trigger] lv[k]),
            out_view(out@) == live_part(sv, lv, root) + delete_part(
                sv.subrange(0, j as int),
                lv,
                root,
            ),
        decreases m - j,
    {
        let e = store.record_at(j);
        let seen = contains_key_u64(&keys, e.0);
        proof {
            if seen {
                let k = choose|k: int| 0 <= k < keys@.len() && keys@[k] == e.0;
                assert(live_key(lv[k]) == e.0);
                assert(seen_live(lv, e.0));
            } else {
                if seen_live(lv, e.0) {
                    let k = choose|k: int| 0 <= k < lv.len() && live_key(#[trigger] lv[k]) == e.0;
                    assert(keys@[k] == e.0);
                    assert(keys@.contains(e.0));
                }
            }
        }
        let ghost prev = out@;
        if !seen {
            let path = join_path(src_root, e.1.rel_path.as_str());
            out.push((path, FileAction::DELETE));
            proof {
                lemma_out_view_push(prev, (path, FileAction::DELETE));
            }
        }
        proof {
            let single = seq![sv[j as int]];
            assert(single.drop_first() =~= Seq::<(u64, FileRecordV)>::empty());
            assert(delete_part(Seq::<(u64, FileRecordV)>::empty(), lv, root) =~~= Seq::<
                (Seq<char>, FileAction),
            >::empty());
            if seen_live(lv, sv[j as int].0) {
                assert(delete_part(single, lv, root) =~~= Seq::<(Seq<char>, FileAction)>::empty());
            } else {
                assert(delete_part(single, lv, root) =~~= seq![
                    (abs_path(root, sv[j as int].1.rel_path), FileAction::DELETE),
                ]);
            }
            lemma_delete_part_concat(sv.subrange(0, j as int), single, lv, root);
            assert(sv.subrange(0, j + 1) =~= sv.subrange(0, j as int) + single);
            assert(out_view(out@) =~= live_part(sv, lv, root) + delete_part(
                sv.subrange(0, j + 1),
                lv,
                root,
            ));
        }
        j = j + 1;
    }
    proof {
        assert(sv.subrange(0, sv.len() as int) =~= sv);
    }
    out
}

/// The paths of a sync list carrying one action, in list order.
pub open spec fn paths_with(list: Seq<(Seq<char>, FileAction)>, a: FileAction) -> Seq<Seq<char>>
    decreases list.len(),
{
    if list.len() == 0 {
        Seq::<Seq<char>>::empty()
    } else {
        let head = if list[0].1 == a {
            seq![list[0].0]
        } else {
            Seq::<Seq<char>>::empty()
        };
        head + paths_with(list.drop_first(), a)
    }
}

/// Selected paths concatenate over a split of the list.
proof fn lemma_paths_with_concat(
    a: Seq<(Seq<char>, FileAction)>,
    b: Seq<(Seq<char>, FileAction)>,
    act: FileAction,
)
    ensures
        paths_with(a + b, act) =~~= paths_with(a, act) + paths_with(b, act),
    decreases a.len(),
{
    if a.len() == 0 {
        assert(a + b =~= b);
    } else {
        assert((a + b)[0] == a[0]);
        assert((a + b).drop_first() =~= a.drop_first() + b);
        lemma_paths_with_concat(a.drop_first(), b, act);
    }
}

/// Sort a sync list into what a status report shows: the paths to
/// create, to update and to delete, each group in list order.
pub fn partition_sync_list(list: &Vec<(String, FileAction)>) -> (r: (
    Vec<String>,
    Vec<String>,
    Vec<String>,
))
    ensures
        r.0@.map_values(|p: String| p@) == paths_with(out_view(list@), FileAction::CREATE),
        r.1@.map_values(|p: String| p@) == paths_with(out_view(list@), FileAction::UPDATE),
        r.2@.map_values(|p: String| p@) == paths_with(out_view(list@), FileAction::DELETE),
{
    let ghost lv = out_view(list@);
    let mut c: Vec<String> = Vec::new();
    let mut u: Vec<String> = Vec::new();
    let mut d: Vec<String> = Vec::new();
    let n = list.len();
    let mut i: usize = 0;
    proof {
        assert(lv.subrange(0, 0) =~= Seq::<(Seq<char>, FileAction)>::empty());
        assert(c@.map_values(|p: String| p@) =~= Seq::<Seq<char>>::empty());
        assert(u@.map_values(|p: String| p@) =~= Seq::<Seq<char>>::empty());
        assert(d@.map_values(|p: String| p@) =~= Seq::<Seq<char>>::empty());
    }
    while i < n
        invariant
            n == list@.len(),
            0 <= i <= n,
            lv == out_view(list@),
            c@.map_values(|p: String| p@) == paths_with(lv.subrange(0, i as int), FileAction::CREATE),
            u@.map_values(|p: String| p@) == paths_with(lv.subrange(0, i as int), FileAction::UPDATE),
            d@.map_values(|p: String| p@) == paths_with(lv.subrange(0, i as int), FileAction::DELETE),
        decreases n - i,
    {
        let entry = &list[i];
        match entry.1 {
            FileAction::CREATE => c.push(entry.0.clone()),
            FileAction::UPDATE => u.push(entry.0.clone()),
            FileAction::DELETE => d.push(entry.0.clone()),
            _ => {},
        }
        proof {
            let single = lv.subrange(i as int, i + 1);
            assert(single[0] == lv[i as int]);
            assert(single.drop_first() =~= Seq::<(Seq<char>, FileAction)>::empty());
            assert(lv.subrange(0, i + 1) =~= lv.subrange(0, i as int) + single);
            lemma_paths_with_concat(lv.subrange(0, i as int), single, FileAction::CREATE);
            lemma_paths_with_concat(lv.subrange(0, i as int), single, FileAction::UPDATE);
            lemma_paths_with_concat(lv.subrange(0, i as int), single, FileAction::DELETE);
            assert(paths_with(Seq::<(Seq<char>, FileAction)>::empty(), FileAction::CREATE) =~= Seq::<
                Seq<char>,
            >::empty());
            assert(paths_with(Seq::<(Seq<char>, FileAction)>::empty(), FileAction::UPDATE) =~= Seq::<
                Seq<char>,
            >::empty());
            assert(paths_with(Seq::<(Seq<char>, FileAction)>::empty(), FileAction::DELETE) =~= Seq::<
                Seq<char>,
            >::empty());
            assert(c@.map_values(|p: String| p@) =~~= paths_with(
                lv.subrange(0, i + 1),
                FileAction::CREATE,
            ));
            assert(u@.map_values(|p: String| p@) =~~= paths_with(
                lv.subrange(0, i + 1),
                FileAction::UPDATE,
            ));
            assert(d@.map_values(|p: String| p@) =~~= paths_with(
                lv.subrange(0, i + 1),
                FileAction::DELETE,
            ));
        }
        i = i + 1;
    }
    proof {
        assert(lv.subrange(0, lv.len() as int) =~= lv);
    }
    (c, u, d)
}

/// The tag a tree report prints beside a path with an action.
pub fn file_action_tag(a: &FileAction) -> (r: &'static str)
    ensures
        a == FileAction::CREATE ==> r@ == "[+]"@,
        a == FileAction::UPDATE ==> r@ == "[>]"@,
        a == FileAction::DELETE ==> r@ == "[-]"@,
        a == FileAction::NONE ==> r@ == "[=]"@,
        a == FileAction::IGNORE ==> r@ == ""@,
{
    match a {
        FileAction::CREATE => "[+]",
        FileAction::UPDATE => "[>]",
        FileAction::DELETE => "[-]",
        FileAction::NONE => "[=]",
        FileAction::IGNORE => "",
    }
}

/// Splitting the store splits its delete entries.
pub proof fn lemma_delete_part_concat(
    a: Seq<(u64, FileRecordV)>,
    b: Seq<(u64, FileRecordV)>,
    live: Seq<LiveFileV>,
    root: Seq<char>,
)
    ensures
        delete_part(a + b, live, root) =~~= delete_part(a, live, root) + delete_part(
            b,
            live,
            root,
        ),
    decreases a.len(),
{
    if a.len() == 0 {
        assert(a + b =~= b);
    } else {
        assert((a + b)[0] == a[0]);
        assert((a + b).drop_first() =~= a.drop_first() + b);
        lemma_delete_part_concat(a.drop_first(), b, live, root);
    }
}

/// A run over a tree whose records are all up to date leaves every
/// live file alone: its action is `NONE`.
pub proof fn lemma_second_run_unchanged(
    store: Seq<(u64, FileRecordV)>,
    live: Seq<LiveFileV>,
    root: Seq<char>,
)
    requires
        forall|i: int|
            0 <= i < live.len() ==> match find_rec(store, live_key(#[trigger] live[i])) {
                Some(rec) => rec.checksum == live[i].content_hash,
                None => false,
            },
    ensures
        forall|i: int|
            0 <= i < live.len() ==> spec_sync_list(store, live, root)[i] == (
                abs_path(root, live[i].rel_path),
                FileAction::NONE,
            ),
{
    assert forall|i: int| 0 <= i < live.len() implies spec_sync_list(store, live, root)[i] == (
        abs_path(root, live[i].rel_path),
        FileAction::NONE,
    ) by {
        assert(live_part(store, live, root)[i] == (
            abs_path(root, live[i].rel_path),
            action_for(store, live[i]),
        ));
        assert(action_for(store, live[i]) == FileAction::NONE);
    }
}

/// The store after the first `n` live files' records were written
/// back, as a sync executor writes them after applying a run.
pub open spec fn store_refreshed(
    store: Seq<(u64, FileRecordV)>,
    live: Seq<LiveFileV>,
    recs: Seq<FileRecordV>,
    n: int,
) -> Seq<(u64, FileRecordV)>
    decreases n,
{
    if n <= 0 {
        store
    } else {
        spec_put(store_refreshed(store, live, recs, n - 1), live_key(live[n - 1]), recs[n - 1])
    }
}

/// After the refresh, each live file's key finds its fresh record.
proof fn lemma_refresh_find(
    store: Seq<(u64, FileRecordV)>,
    live: Seq<LiveFileV>,
    recs: Seq<FileRecordV>,
    m: int,
    i: int,
)
    requires
        0 <= i < m <= live.len(),
        recs.len() == live.len(),
        forall|a: int, b: int|
            0 <= a < b < live.len() ==> live_key(#[trigger] live[a]) != live_key(
                #[trigger] live[b],
            ),
    ensures
        find_rec(store_refreshed(store, live, recs, m), live_key(live[i])) == Some(recs[i]),
    decreases m,
{
    if m == i + 1 {
        lemma_find_after_put(store_refreshed(store, live, recs, m - 1), live_key(live[i]), recs[i]);
    } else {
        lemma_refresh_find(store, live, recs, m - 1, i);
        lemma_find_after_put_other(
            store_refreshed(store, live, recs, m - 1),
            live_key(live[m - 1]),
            recs[m - 1],
            live_key(live[i]),
        );
    }
}

/// Running the detector, applying its actions and writing each file's
/// fresh record back, then running it again with nothing changed on
/// disk, leaves every live file alone: whatever the store held before,
/// after the refresh the second run's action for each live file is
/// `NONE`. The live files must not collide on their path keys, the
/// known open edge of the store.
pub proof fn lemma_detect_idempotent(
    store: Seq<(u64, FileRecordV)>,
    live: Seq<LiveFileV>,
    recs: Seq<FileRecordV>,
    root: Seq<char>,
)
    requires
        recs.len() == live.len(),
        forall|i: int| 0 <= i < live.len() ==> (#[trigger] recs[i]).checksum == live[i].content_hash,
        forall|a: int, b: int|
            0 <= a < b < live.len() ==> live_key(#[trigger] live[a]) != live_key(
                #[trigger] live[b],
            ),
    ensures
        forall|i: int|
            0 <= i < live.len() ==> spec_sync_list(
                store_refreshed(store, live, recs, live.len() as int),
                live,
                root,
            )[i] == (abs_path(root, live[i].rel_path), FileAction::NONE),
{
    let refreshed = store_refreshed(store, live, recs, live.len() as int);
    assert forall|i: int| 0 <= i < live.len() implies match find_rec(
        refreshed,
        live_key(#[trigger] live[i]),
    ) {
        Some(rec) => rec.checksum == live[i].content_hash,
        None => false,
    } by {
        lemma_refresh_find(store, live, recs, live.len() as int, i);
    }
    lemma_second_run_unchanged(refreshed, live, root);
}

/// How often a pair occurs in a run's output.
pub open spec fn count_of(list: Seq<(Seq<char>, FileAction)>, x: (Seq<char>, FileAction)) -> nat
    decreases list.len(),
{
    if list.len() == 0 {
        0
    } else {
        (if list[0] == x {
            1nat
        } else {
            0nat
        }) + count_of(list.drop_first(), x)
    }
}

/// Occurrences add up over a concatenation.
pub proof fn lemma_count_concat(
    a: Seq<(Seq<char>, FileAction)>,
    b: Seq<(Seq<char>, FileAction)>,
    x: (Seq<char>, FileAction),
)
    ensures
        count_of(a + b, x) == count_of(a, x) + count_of(b, x),
    decreases a.len(),
{
    if a.len() == 0 {
        assert(a + b =~= b);
    } else {
        assert((a + b)[0] == a[0]);
        assert((a + b).drop_first() =~= a.drop_first() + b);
        lemma_count_concat(a.drop_first(), b, x);
    }
}

/// A pair that occurs nowhere counts zero.
pub proof fn lemma_count_zero(list: Seq<(Seq<char>, FileAction)>, x: (Seq<char>, FileAction))
    requires
        forall|i: int| 0 <= i < list.len() ==> list[i] != x,
    ensures
        count_of(list, x) == 0,
    decreases list.len(),
{
    if list.len() != 0 {
        assert(forall|i: int|
            0 <= i < list.drop_first().len() ==> list.drop_first()[i] == list[i + 1]);
        lemma_count_zero(list.drop_first(), x);
    }
}

/// Equal joined paths under one root come from equal relative paths.
pub proof fn lemma_abs_path_inj(root: Seq<char>, a: Seq<char>, b: Seq<char>)
    requires
        abs_path(root, a) == abs_path(root, b),
    ensures
        a == b,
{
    let pa = abs_path(root, a);
    let pb = abs_path(root, b);
    assert(a =~= pa.subrange(root.len() as int + 1, pa.len() as int));
    assert(b =~= pb.subrange(root.len() as int + 1, pb.len() as int));
}

/// Removing a tracked file and running the detector yields exactly one
/// `DELETE` for that file's path: one record carries it, no live file
/// shadows it, and no other record shares its relative path.
pub proof fn lemma_delete_detection(
    store: Seq<(u64, FileRecordV)>,
    live: Seq<LiveFileV>,
    root: Seq<char>,
    i: int,
)
    requires
        unique_keys(store),
        0 <= i < store.len(),
        forall|j: int| 0 <= j < live.len() ==> live_key(#[trigger] live[j]) != store[i].0,
        forall|j: int|
            0 <= j < store.len() && j != i ==> (#[trigger] store[j]).1.rel_path
                != store[i].1.rel_path,
    ensures
        count_of(
            spec_sync_list(store, live, root),
            (abs_path(root, store[i].1.rel_path), FileAction::DELETE),
        ) == 1,
{
    let pair = (abs_path(root, store[i].1.rel_path), FileAction::DELETE);
    let lp = live_part(store, live, root);
    assert forall|k: int| 0 <= k < lp.len() implies lp[k] != pair by {
        assert(lp[k].1 == action_for(store, live[k]));
        assert(action_for(store, live[k]) != FileAction::DELETE);
    }
    lemma_count_zero(lp, pair);
    lemma_delete_part_once(store, live, root, i);
    lemma_count_concat(lp, delete_part(store, live, root), pair);
}

/// Within the delete half, the record at `i` yields its pair exactly
/// once, provided no live file carries its key and no other record its
/// relative path.
proof fn lemma_delete_part_once(
    store: Seq<(u64, FileRecordV)>,
    live: Seq<LiveFileV>,
    root: Seq<char>,
    i: int,
)
    requires
        0 <= i < store.len(),
        !seen_live(live, store[i].0),
        forall|j: int|
            0 <= j < store.len() && j != i ==> (#[trigger] store[j]).1.rel_path
                != store[i].1.rel_path,
    ensures
        count_of(
            delete_part(store, live, root),
            (abs_path(root, store[i].1.rel_path), FileAction::DELETE),
        ) == 1,
    decreases store.len(),
{
    let pair = (abs_path(root, store[i].1.rel_path), FileAction::DELETE);
    let rest = store.drop_first();
    assert(forall|k: int| 0 <= k < rest.len() ==> (#[trigger] rest[k]) == store[k + 1]);
    if i == 0 {
        let head = seq![pair];
        assert(delete_part(store, live, root) == head + delete_part(rest, live, root));
        assert(count_of(head + delete_part(rest, live, root), pair) == 1 + count_of(
            delete_part(rest, live, root),
            pair,
        )) by {
            assert((head + delete_part(rest, live, root)).drop_first() =~~= delete_part(
                rest,
                live,
                root,
            ));
        }
        lemma_delete_part_absent(rest, live, root, store[0].1.rel_path);
    } else {
        lemma_delete_part_once(rest, live, root, i - 1);
        let head = if seen_live(live, store[0].0) {
            Seq::<(Seq<char>, FileAction)>::empty()
        } else {
            seq![(abs_path(root, store[0].1.rel_path), FileAction::DELETE)]
        };
        assert forall|k: int| 0 <= k < head.len() implies head[k] != pair by {
            if head[k] == pair {
                lemma_abs_path_inj(root, store[0].1.rel_path, store[i].1.rel_path);
            }
        }
        lemma_count_zero(head, pair);
        lemma_count_concat(head, delete_part(rest, live, root), pair);
    }
}

/// A relative path no record carries yields no delete pair.
proof fn lemma_delete_part_absent(
    store: Seq<(u64, FileRecordV)>,
    live: Seq<LiveFileV>,
    root: Seq<char>,
    rel: Seq<char>,
)
    requires
        forall|j: int| 0 <= j < store.len() ==> (#[trigger] store[j]).1.rel_path != rel,
    ensures
        count_of(delete_part(store, live, root), (abs_path(root, rel), FileAction::DELETE)) == 0,
    decreases store.len(),
{
    let pair = (abs_path(root, rel), FileAction::DELETE);
    if store.len() != 0 {
        let rest = store.drop_first();
        assert(forall|k: int| 0 <= k < rest.len() ==> (#[trigger] rest[k]) == store[k + 1]);
        lemma_delete_part_absent(rest, live, root, rel);
        let head = if seen_live(live, store[0].0) {
            Seq::<(Seq<char>, FileAction)>::empty()
        } else {
            seq![(abs_path(root, store[0].1.rel_path), FileAction::DELETE)]
        };
        assert forall|k: int| 0 <= k < head.len() implies head[k] != pair by {
            if head[k] == pair {
                lemma_abs_path_inj(root, store[0].1.rel_path, rel);
            }
        }
        lemma_count_zero(head, pair);
        lemma_count_concat(head, delete_part(rest, live, root), pair);
    }
}

} // verus!
