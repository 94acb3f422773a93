//! The dedup scanner.
//!
//! A scan walks the given files in order and gives every distinct
//! content its identity: the first file seen with a content hash is
//! authoritative and is added, with its destination under the
//! destination root. A later file with the same hash is compared byte
//! for byte against that first file: identical bytes make a true
//! duplicate, recorded as a `Skip` pointing at the original's
//! destination and never copied; differing bytes make a genuine hash
//! collision, recorded as a `Collision` for manual resolution and kept
//! out of the destination mapping. The scanner is a pure function from
//! the ordered file list to the manifest and the identity map; the
//! caller owns traversal order and persistence.

use vstd::prelude::*;
use crate::detect::abs_path;
use crate::hashing::hash_content;
use crate::hashing::stream_hash_of;
use crate::manifest::ManifestAction;
use crate::manifest::ManifestEntry;
use crate::manifest::ManifestEntryV;
use crate::paths::join_path;

verus! {

/// One file handed to the scanner: where it came from, its path
/// relative to its own source root, and its bytes.
pub struct ScanFile {
    pub source_path: String,
    pub rel_path: String,
    pub content: Vec<u8>,
}

/// The mathematical value of a scanned file.
#[verifier::ext_equal]
pub ghost struct ScanFileV {
    pub source_path: Seq<char>,
    pub rel_path: Seq<char>,
    pub content: Seq<u8>,
}

impl View for ScanFile {
    type V = ScanFileV;

    open spec fn view(&self) -> ScanFileV {
        ScanFileV {
            source_path: self.source_path@,
            rel_path: self.rel_path@,
            content: self.content@,
        }
    }
}

/// One row of the identity map: the authoritative file for a content
/// hash, its destination, and how many duplicates and collisions have
/// since been charged against it. `orig_index` points back at that
/// first file in the scanned list.
pub struct IdentityEntry {
    pub content_hash: u64,
    pub source_path: String,
    pub destination_path: String,
    pub dup_count: u64,
    pub coll_count: u64,
    pub orig_index: usize,
}

/// The mathematical value of an identity row.
#[verifier::ext_equal]
pub ghost struct IdentityEntryV {
    pub content_hash: u64,
    pub source_path: Seq<char>,
    pub destination_path: Seq<char>,
    pub dup_count: u64,
    pub coll_count: u64,
    pub orig_index: usize,
}

impl View for IdentityEntry {
    type V = IdentityEntryV;

    open spec fn view(&self) -> IdentityEntryV {
        IdentityEntryV {
            content_hash: self.content_hash,
            source_path: self.source_path@,
            destination_path: self.destination_path@,
            dup_count: self.dup_count,
            coll_count: self.coll_count,
            orig_index: self.orig_index,
        }
    }
}

/// The first identity row carrying the hash, or `-1`.
pub open spec fn id_index(ids: Seq<IdentityEntryV>, h: u64) -> int
    decreases ids.len(),
{
    if ids.len() == 0 {
        -1
    } else if ids[0].content_hash == h {
        0
    } else {
        let r = id_index(ids.drop_first(), h);
        if r < 0 {
            -1
        } else {
            r + 1
        }
    }
}

/// What one file does to the scan state.
pub open spec fn spec_scan_step(
    files: Seq<ScanFileV>,
    dst_root: Seq<char>,
    i: int,
    entries: Seq<ManifestEntryV>,
    ids: Seq<IdentityEntryV>,
) -> (Seq<ManifestEntryV>, Seq<IdentityEntryV>) {
    let f = files[i];
    let h = stream_hash_of(f.content);
    let j = id_index(ids, h);
    if j < 0 {
        let dst = abs_path(dst_root, f.rel_path);
        (
            entries.push(
                ManifestEntryV {
                    action: ManifestAction::Add,
                    content_hash: h,
                    ordinal: 0,
                    source_path: f.source_path,
                    destination_path: dst,
                },
            ),
            ids.push(
                IdentityEntryV {
                    content_hash: h,
                    source_path: f.source_path,
                    destination_path: dst,
                    dup_count: 0,
                    coll_count: 0,
                    orig_index: i as usize,
                },
            ),
        )
    } else {
        let orig = ids[j];
        if files[orig.orig_index as int].content == f.content {
            (
                entries.push(
                    ManifestEntryV {
                        action: ManifestAction::Skip,
                        content_hash: h,
                        ordinal: (orig.dup_count + 1) as u64,
                        source_path: f.source_path,
                        destination_path: orig.destination_path,
                    },
                ),
                ids.update(j, IdentityEntryV { dup_count: (orig.dup_count + 1) as u64, ..orig }),
            )
        } else {
            (
                entries.push(
                    ManifestEntryV {
                        action: ManifestAction::Collision,
                        content_hash: h,
                        ordinal: (orig.coll_count + 1) as u64,
                        source_path: f.source_path,
                        destination_path: orig.destination_path,
                    },
                ),
                ids.update(j, IdentityEntryV { coll_count: (orig.coll_count + 1) as u64, ..orig }),
            )
        }
    }
}

/// The scan state after the first `n` files.
pub open spec fn spec_scan_upto(files: Seq<ScanFileV>, dst_root: Seq<char>, n: int) -> (
    Seq<ManifestEntryV>,
    Seq<IdentityEntryV>,
)
    decreases n,
{
    if n <= 0 {
        (Seq::<ManifestEntryV>::empty(), Seq::<IdentityEntryV>::empty())
    } else {
        let prior = spec_scan_upto(files, dst_root, n - 1);
        spec_scan_step(files, dst_root, n - 1, prior.0, prior.1)
    }
}

/// The whole scan.
pub open spec fn spec_scan(files: Seq<ScanFileV>, dst_root: Seq<char>) -> (
    Seq<ManifestEntryV>,
    Seq<IdentityEntryV>,
) {
    spec_scan_upto(files, dst_root, files.len() as int)
}

/// What always holds of a scan's state after `n` files: one manifest
/// entry per file; at most one identity row per file, each pointing at
/// an earlier file whose bytes hash to its key, with its counters
/// bounded by the files seen.
pub open spec fn ids_wf(files: Seq<ScanFileV>, ids: Seq<IdentityEntryV>, n: int) -> bool {
    forall|j: int|
        0 <= j < ids.len() ==> {
            let e = #[trigger] ids[j];
            e.orig_index < n && stream_hash_of(files[e.orig_index as int].content)
                == e.content_hash && e.dup_count + e.coll_count < n
        }
}

/// The scan state is well formed after every step.
pub proof fn lemma_scan_wf(files: Seq<ScanFileV>, dst_root: Seq<char>, n: int)
    requires
        0 <= n <= files.len(),
        files.len() <= usize::MAX,
    ensures
        spec_scan_upto(files, dst_root, n).0.len() == n,
        spec_scan_upto(files, dst_root, n).1.len() <= n,
        ids_wf(files, spec_scan_upto(files, dst_root, n).1, n),
    decreases n,
{
    if n > 0 {
        lemma_scan_wf(files, dst_root, n - 1);
        let prior = spec_scan_upto(files, dst_root, n - 1);
        let f = files[n - 1];
        let h = stream_hash_of(f.content);
        let j = id_index(prior.1, h);
        let cur = spec_scan_upto(files, dst_root, n).1;
        if j >= 0 {
            lemma_id_index_props(prior.1, h);
            let orig = prior.1[j];
            assert forall|k: int|
                0 <= k < cur.len() implies {
                let e = #[trigger] cur[k];
                e.orig_index < n && stream_hash_of(files[e.orig_index as int].content)
                    == e.content_hash && e.dup_count + e.coll_count < n
            } by {
                if k != j {
                    assert(cur[k] == prior.1[k]);
                } else {
                    assert(orig.dup_count + orig.coll_count < n - 1);
                    if files[orig.orig_index as int].content == f.content {
                        let v = (orig.dup_count + 1) as u64;
                        if orig.dup_count + 1 <= u64::MAX {
                            assert(v == orig.dup_count + 1);
                        } else {
                            assert(orig.dup_count == u64::MAX);
                            assert(v <= orig.dup_count);
                        }
                        assert(cur[k] == IdentityEntryV { dup_count: v, ..orig });
                    } else {
                        let v = (orig.coll_count + 1) as u64;
                        if orig.coll_count + 1 <= u64::MAX {
                            assert(v == orig.coll_count + 1);
                        } else {
                            assert(orig.coll_count == u64::MAX);
                            assert(v <= orig.coll_count);
                        }
                        assert(cur[k] == IdentityEntryV { coll_count: v, ..orig });
                    }
                }
            }
        } else {
            assert forall|k: int|
                0 <= k < cur.len() implies {
                let e = #[trigger] cur[k];
                e.orig_index < n && stream_hash_of(files[e.orig_index as int].content)
                    == e.content_hash && e.dup_count + e.coll_count < n
            } by {
                if k < prior.1.len() {
                    assert(cur[k] == prior.1[k]);
                } else {
                    assert(n - 1 <= usize::MAX);
                    assert(cur[k].orig_index == n - 1);
                }
            }
        }
    }
}

/// Where `id_index` lands: on the first row with the hash, if any.
pub proof fn lemma_id_index_props(ids: Seq<IdentityEntryV>, h: u64)
    ensures
        id_index(ids, h) >= 0 ==> id_index(ids, h) < ids.len() && ids[id_index(
            ids,
            h,
        )].content_hash == h,
        id_index(ids, h) < 0 ==> forall|k: int|
            0 <= k < ids.len() ==> (#[trigger] ids[k]).content_hash != h,
    decreases ids.len(),
{
    if ids.len() > 0 && ids[0].content_hash != h {
        lemma_id_index_props(ids.drop_first(), h);
        let rest = ids.drop_first();
        let r = id_index(rest, h);
        if r >= 0 {
            assert(rest[r] == ids[r + 1]);
        } else {
            assert forall|k: int| 0 <= k < ids.len() implies (#[trigger] ids[k]).content_hash != h by {
                if k > 0 {
                    assert(rest[k - 1] == ids[k]);
                }
            }
        }
    }
}

/// A first match at `i` is where `id_index` lands.
proof fn lemma_id_index_at(ids: Seq<IdentityEntryV>, h: u64, i: int)
    requires
        0 <= i < ids.len(),
        ids[i].content_hash == h,
        forall|k: int| 0 <= k < i ==> (#[trigger] ids[k]).content_hash != h,
    ensures
        id_index(ids, h) == i,
    decreases i,
{
    if i > 0 {
        assert(forall|k: int|
            0 <= k < ids.drop_first().len() ==> #[trigger] ids.drop_first()[k] == ids[k + 1]);
        lemma_id_index_at(ids.drop_first(), h, i - 1);
    }
}

/// No match anywhere means `id_index` lands nowhere.
proof fn lemma_id_index_none(ids: Seq<IdentityEntryV>, h: u64)
    requires
        forall|k: int| 0 <= k < ids.len() ==> (#[trigger] ids[k]).content_hash != h,
    ensures
        id_index(ids, h) == -1,
    decreases ids.len(),
{
    if ids.len() > 0 {
        assert(forall|k: int|
            0 <= k < ids.drop_first().len() ==> #[trigger] ids.drop_first()[k] == ids[k + 1]);
        lemma_id_index_none(ids.drop_first(), h);
    }
}

/// Whether two byte buffers hold the same bytes, compared directly;
/// a length mismatch or any differing byte is a content mismatch.
pub fn bytes_equal(a: &[u8], b: &[u8]) -> (r: bool)
    ensures
        r == (a@ == b@),
{
    if a.len() != b.len() {
        proof {
            assert(a@.len() != b@.len());
        }
        return false;
    }
    let n = a.len();
    let mut i: usize = 0;
    while i < n
        invariant
            n == a@.len() == b@.len(),
            0 <= i <= n,
            forall|k: int| 0 <= k < i ==> a@[k] == b@[k],
        decreases n - i,
    {
        if a[i] != b[i] {
            return false;
        }
        i = i + 1;
    }
    proof {
        assert(a@ =~= b@);
    }
    true
}

/// The first identity row carrying the hash.
fn find_identity(ids: &Vec<IdentityEntry>, h: u64) -> (r: Option<usize>)
    ensures
        ({
            let iv = ids@.map_values(|e: IdentityEntry| e@);
            match r {
                Some(j) => j < iv.len() && id_index(iv, h) == j as int,
                None => id_index(iv, h) == -1,
            }
        }),
{
    let ghost iv = ids@.map_values(|e: IdentityEntry| e@);
    let n = ids.len();
    let mut i: usize = 0;
    while i < n
        invariant
            n == ids@.len(),
            0 <= i <= n,
            iv == ids@.map_values(|e: IdentityEntry| e@),
            forall|k: int| 0 <= k < i ==> (#[trigger] iv[k]).content_hash != h,
        decreases n - i,
    {
        if ids[i].content_hash == h {
            proof {
                lemma_id_index_at(iv, h, i as int);
            }
            return Some(i);
        }
        i = i + 1;
    }
    proof {
        lemma_id_index_none(iv, h);
    }
    None
}

/// Scan the files in order against the destination root: the manifest
/// and the identity map that `spec_scan` describes.
pub fn scan(files: &Vec<ScanFile>, dst_root: &str) -> (r: (Vec<ManifestEntry>, Vec<IdentityEntry>))
    ensures
        r.0@.map_values(|e: ManifestEntry| e@) == spec_scan(
            files@.map_values(|f: ScanFile| f@),
            dst_root@,
        ).0,
        r.1@.map_values(|e: IdentityEntry| e@) == spec_scan(
            files@.map_values(|f: ScanFile| f@),
            dst_root@,
        ).1,
{
    let ghost fv = files@.map_values(|f: ScanFile| f@);
    let ghost dv = dst_root@;
    let mut entries: Vec<ManifestEntry> = Vec::new();
    let mut ids: Vec<IdentityEntry> = Vec::new();
    let n = files.len();
    let mut i: usize = 0;
    proof {
        assert(entries@.map_values(|e: ManifestEntry| e@) =~= spec_scan_upto(fv, dv, 0).0);
        assert(ids@.map_values(|e: IdentityEntry| e@) =~= spec_scan_upto(fv, dv, 0).1);
    }
    while i < n
        invariant
            n == files@.len(),
            0 <= i <= n,
            fv == files@.map_values(|f: ScanFile| f@),
            dv == dst_root@,
            entries@.map_values(|e: ManifestEntry| e@) == spec_scan_upto(fv, dv, i as int).0,
            ids@.map_values(|e: IdentityEntry| e@) == spec_scan_upto(fv, dv, i as int).1,
        decreases n - i,
    {
        proof {
            lemma_scan_wf(fv, dv, i as int);
        }
        let ghost pe = entries@.map_values(|e: ManifestEntry| e@);
        let ghost pi = ids@.map_values(|e: IdentityEntry| e@);
        let f = &files[i];
        let h = hash_content(f.content.as_slice());
        proof {
            assert(fv[i as int] == f@);
        }
        match find_identity(&ids, h) {
            None => {
                let dst = join_path(dst_root, f.rel_path.as_str());
                let entry = ManifestEntry {
                    action: ManifestAction::Add,
                    content_hash: h,
                    ordinal: 0,
                    source_path: f.source_path.clone(),
                    destination_path: dst.clone(),
                };
                let id = IdentityEntry {
                    content_hash: h,
                    source_path: f.source_path.clone(),
                    destination_path: dst,
                    dup_count: 0,
                    coll_count: 0,
                    orig_index: i,
                };
                entries.push(entry);
                ids.push(id);
                proof {
                    assert(entries@.map_values(|e: ManifestEntry| e@) =~= spec_scan_upto(
                        fv,
                        dv,
                        i + 1,
                    ).0);
                    assert(ids@.map_values(|e: IdentityEntry| e@) =~= spec_scan_upto(
                        fv,
                        dv,
                        i + 1,
                    ).1);
                }
            },
            Some(j) => {
                let ghost orig = pi[j as int];
                let oi = ids[j].orig_index;
                proof {
                    assert(orig == ids@[j as int]@);
                    assert(orig.orig_index < i);
                    assert(fv[oi as int].content == files@[oi as int].content@);
                }
                let equal = bytes_equal(files[oi].content.as_slice(), f.content.as_slice());
                let src = f.source_path.clone();
                let dst = ids[j].destination_path.clone();
                if equal {
                    proof {
                        assert(orig.dup_count + orig.coll_count < i);
                    }
                    let ord = ids[j].dup_count + 1;
                    let entry = ManifestEntry {
                        action: ManifestAction::Skip,
                        content_hash: h,
                        ordinal: ord,
                        source_path: src,
                        destination_path: dst,
                    };
                    entries.push(entry);
                    let updated = IdentityEntry {
                        content_hash: ids[j].content_hash,
                        source_path: ids[j].source_path.clone(),
                        destination_path: ids[j].destination_path.clone(),
                        dup_count: ord,
                        coll_count: ids[j].coll_count,
                        orig_index: ids[j].orig_index,
                    };
                    ids[j] = updated;
                    proof {
                        assert(ids@.map_values(|e: IdentityEntry| e@) =~= pi.update(
                            j as int,
                            IdentityEntryV { dup_count: (orig.dup_count + 1) as u64, ..orig },
                        ));
                        assert(entries@.map_values(|e: ManifestEntry| e@) =~= spec_scan_upto(
                            fv,
                            dv,
                            i + 1,
                        ).0);
                        assert(ids@.map_values(|e: IdentityEntry| e@) =~= spec_scan_upto(
                            fv,
                            dv,
                            i + 1,
                        ).1);
                    }
                } else {
                    proof {
                        assert(orig.dup_count + orig.coll_count < i);
                    }
                    let ord = ids[j].coll_count + 1;
                    let entry = ManifestEntry {
                        action: ManifestAction::Collision,
                        content_hash: h,
                        ordinal: ord,
                        source_path: src,
                        destination_path: dst,
                    };
                    entries.push(entry);
                    let updated = IdentityEntry {
                        content_hash: ids[j].content_hash,
                        source_path: ids[j].source_path.clone(),
                        destination_path: ids[j].destination_path.clone(),
                        dup_count: ids[j].dup_count,
                        coll_count: ord,
                        orig_index: ids[j].orig_index,
                    };
                    ids[j] = updated;
                    proof {
                        assert(ids@.map_values(|e: IdentityEntry| e@) =~= pi.update(
                            j as int,
                            IdentityEntryV { coll_count: (orig.coll_count + 1) as u64, ..orig },
                        ));
                        assert(entries@.map_values(|e: ManifestEntry| e@) =~= spec_scan_upto(
                            fv,
                            dv,
                            i + 1,
                        ).0);
                        assert(ids@.map_values(|e: IdentityEntry| e@) =~= spec_scan_upto(
                            fv,
                            dv,
                            i + 1,
                        ).1);
                    }
                }
            },
        }
        i = i + 1;
    }
    (entries, ids)
}

/// Scanning two byte-identical files yields one `Add` and one `Skip`
/// whose destination is the `Add` entry's destination, numbered as the
/// first duplicate; only the first file enters the identity map.
pub proof fn lemma_duplicate_merge(a: ScanFileV, b: ScanFileV, dst_root: Seq<char>)
    requires
        a.content == b.content,
    ensures
        ({
            let r = spec_scan(seq![a, b], dst_root);
            r.0.len() == 2 && r.0[0].action == ManifestAction::Add && r.0[1].action
                == ManifestAction::Skip && r.0[1].destination_path == r.0[0].destination_path
                && r.0[1].ordinal == 1 && r.1.len() == 1 && r.1[0].source_path == a.source_path
        }),
{
    let files = seq![a, b];
    lemma_two_file_scan(files, dst_root);
}

/// Scanning two files with equal content hash but differing bytes
/// yields `Add` then `Collision`, never a `Skip`; the colliding file
/// enters no destination mapping.
pub proof fn lemma_collision_distinct(a: ScanFileV, b: ScanFileV, dst_root: Seq<char>)
    requires
        stream_hash_of(a.content) == stream_hash_of(b.content),
        a.content != b.content,
    ensures
        ({
            let r = spec_scan(seq![a, b], dst_root);
            r.0.len() == 2 && r.0[0].action == ManifestAction::Add && r.0[1].action
                == ManifestAction::Collision && r.0[1].destination_path
                == r.0[0].destination_path && r.0[1].ordinal == 1 && r.1.len() == 1
                && r.1[0].source_path == a.source_path
        }),
{
    let files = seq![a, b];
    lemma_two_file_scan(files, dst_root);
}

/// The shape of any two-file scan whose files share a content hash.
proof fn lemma_two_file_scan(files: Seq<ScanFileV>, dst_root: Seq<char>)
    requires
        files.len() == 2,
        stream_hash_of(files[0].content) == stream_hash_of(files[1].content),
    ensures
        ({
            let r = spec_scan(files, dst_root);
            let h = stream_hash_of(files[0].content);
            r.0.len() == 2 && r.0[0].action == ManifestAction::Add && r.0[1].action == (
            if files[0].content == files[1].content {
                ManifestAction::Skip
            } else {
                ManifestAction::Collision
            }) && r.0[1].destination_path == r.0[0].destination_path && r.0[1].ordinal == 1
                && r.1.len() == 1 && r.1[0].source_path == files[0].source_path
        }),
{
    let h = stream_hash_of(files[0].content);
    let s0 = spec_scan_upto(files, dst_root, 0);
    assert(s0.0.len() == 0 && s0.1.len() == 0);
    assert(id_index(s0.1, h) == -1);
    let s1 = spec_scan_upto(files, dst_root, 1);
    assert(s1 == spec_scan_step(files, dst_root, 0, s0.0, s0.1));
    let dst = abs_path(dst_root, files[0].rel_path);
    assert(s1.1.len() == 1);
    assert(s1.1[0].content_hash == h);
    assert(s1.1[0].orig_index == 0);
    assert(s1.1[0].destination_path == dst);
    assert(id_index(s1.1, h) == 0);
    let s2 = spec_scan_upto(files, dst_root, 2);
    assert(s2 == spec_scan_step(files, dst_root, 1, s1.0, s1.1));
    assert(s2.0[0] == s1.0[0]);
    assert(s2.0[0].action == ManifestAction::Add);
    assert(s2.0[0].destination_path == dst);
    assert(s2.1.len() == 1);
}

/// A `Skip` entry is never wrong: whenever a scan emits one for a
/// file, some earlier file holds byte-identical content.
pub proof fn lemma_skip_means_duplicate(
    files: Seq<ScanFileV>,
    dst_root: Seq<char>,
    n: int,
    k: int,
)
    requires
        0 <= n <= files.len(),
        files.len() <= usize::MAX,
        0 <= k < n,
        spec_scan_upto(files, dst_root, n).0[k].action == ManifestAction::Skip,
    ensures
        exists|j: int| 0 <= j < k && (#[trigger] files[j]).content == files[k].content,
    decreases n,
{
    lemma_scan_wf(files, dst_root, n - 1);
    let prior = spec_scan_upto(files, dst_root, n - 1);
    if k < n - 1 {
        assert(spec_scan_upto(files, dst_root, n).0[k] == prior.0[k]);
        lemma_skip_means_duplicate(files, dst_root, n - 1, k);
    } else {
        let f = files[n - 1];
        let h = stream_hash_of(f.content);
        let j = id_index(prior.1, h);
        lemma_id_index_props(prior.1, h);
        assert(j >= 0);
        let orig = prior.1[j];
        assert(files[orig.orig_index as int].content == f.content);
        assert(orig.orig_index < n - 1);
        let oi = orig.orig_index as int;
        assert(0 <= oi && oi < k && files[oi].content == files[k].content);
    }
}

/// A `Collision` entry is never wrong either: whenever a scan emits
/// one for a file, some earlier file shares its hash with differing
/// bytes, and the identity map did not grow for it.
pub proof fn lemma_collision_means_mismatch(
    files: Seq<ScanFileV>,
    dst_root: Seq<char>,
    n: int,
    k: int,
)
    requires
        0 <= n <= files.len(),
        files.len() <= usize::MAX,
        0 <= k < n,
        spec_scan_upto(files, dst_root, n).0[k].action == ManifestAction::Collision,
    ensures
        exists|j: int|
            0 <= j < k && stream_hash_of((#[trigger] files[j]).content) == stream_hash_of(
                files[k].content,
            ) && files[j].content != files[k].content,
    decreases n,
{
    lemma_scan_wf(files, dst_root, n - 1);
    let prior = spec_scan_upto(files, dst_root, n - 1);
    if k < n - 1 {
        assert(spec_scan_upto(files, dst_root, n).0[k] == prior.0[k]);
        lemma_collision_means_mismatch(files, dst_root, n - 1, k);
    } else {
        let f = files[n - 1];
        let h = stream_hash_of(f.content);
        let j = id_index(prior.1, h);
        lemma_id_index_props(prior.1, h);
        assert(j >= 0);
        let orig = prior.1[j];
        assert(files[orig.orig_index as int].content != f.content);
        assert(stream_hash_of(files[orig.orig_index as int].content) == h);
        assert(orig.orig_index < n - 1);
        let oi = orig.orig_index as int;
        assert(0 <= oi && oi < k && stream_hash_of(files[oi].content) == stream_hash_of(
            files[k].content,
        ) && files[oi].content != files[k].content);
    }
}

} // verus!
