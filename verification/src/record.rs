//! Per-file records and the record store.
//!
//! One record is kept for every tracked source file, keyed by the path
//! key of its relative path. A record is persisted as field-per-line
//! text; the store holds records in insertion order with at most one
//! record per key. Two distinct relative paths hashing to one key is a
//! known open edge: the store keeps the full relative path inside the
//! record so a caller can compare it on lookup rather than silently
//! conflate two files.

use vstd::prelude::*;
use crate::numtext::dec_digits;
use crate::numtext::dec_val;
use crate::numtext::is_dec_string;
use crate::numtext::lemma_dec_digits_val;
use crate::numtext::parse_u64;
use crate::numtext::u64_to_string;
use crate::textutil::lines_vec;
use crate::textutil::str_eq;
use crate::textutil::lemma_split_prefix;
use crate::textutil::lemma_split_single;
use crate::textutil::split_on;
use crate::textutil::text_lines;

verus! {

/// The metadata kept for one tracked file.
pub struct FileRecord {
    pub file_name: String,
    pub rel_path: String,
    pub created: u64,
    pub modified: u64,
    pub checksum: u64,
}

/// The mathematical value of a record.
#[verifier::ext_equal]
pub ghost struct FileRecordV {
    pub file_name: Seq<char>,
    pub rel_path: Seq<char>,
    pub created: u64,
    pub modified: u64,
    pub checksum: u64,
}

impl View for FileRecord {
    type V = FileRecordV;

    open spec fn view(&self) -> FileRecordV {
        FileRecordV {
            file_name: self.file_name@,
            rel_path: self.rel_path@,
            created: self.created,
            modified: self.modified,
            checksum: self.checksum,
        }
    }
}

impl Clone for FileRecord {
    fn clone(&self) -> (r: Self)
        ensures
            r@ == self@,
    {
        FileRecord {
            file_name: self.file_name.clone(),
            rel_path: self.rel_path.clone(),
            created: self.created,
            modified: self.modified,
            checksum: self.checksum,
        }
    }
}

/// Whether a record can be persisted and read back: its text fields
/// hold no line break.
pub open spec fn record_wf(r: FileRecordV) -> bool {
    !r.file_name.contains('\n') && !r.rel_path.contains('\n')
}

/// The persisted text of a record: one field per line, numbers in
/// decimal, a newline after each field.
pub open spec fn record_text(r: FileRecordV) -> Seq<char> {
    r.file_name + seq!['\n'] + r.rel_path + seq!['\n'] + dec_digits(r.created as nat) + seq!['\n']
        + dec_digits(r.modified as nat) + seq!['\n'] + dec_digits(r.checksum as nat) + seq!['\n']
}

/// What a record text means: five lines, the numeric fields decimal
/// numerals in range.
pub open spec fn spec_decode_record(t: Seq<char>) -> Option<FileRecordV> {
    let ls = text_lines(t);
    if ls.len() == 5 && is_dec_string(ls[2]) && dec_val(ls[2]) <= u64::MAX && is_dec_string(ls[3])
        && dec_val(ls[3]) <= u64::MAX && is_dec_string(ls[4]) && dec_val(ls[4]) <= u64::MAX {
        Some(
            FileRecordV {
                file_name: ls[0],
                rel_path: ls[1],
                created: dec_val(ls[2]) as u64,
                modified: dec_val(ls[3]) as u64,
                checksum: dec_val(ls[4]) as u64,
            },
        )
    } else {
        None
    }
}

/// Render a record as its persisted text.
pub fn encode_record(r: &FileRecord) -> (t: String)
    ensures
        t@ == record_text(r@),
{
    proof {
        reveal_strlit("\n");
        assert("\n"@ =~= seq!['\n']);
    }
    let mut t = r.file_name.clone();
    t.append("\n");
    t.append(r.rel_path.as_str());
    t.append("\n");
    let created = u64_to_string(r.created);
    t.append(created.as_str());
    t.append("\n");
    let modified = u64_to_string(r.modified);
    t.append(modified.as_str());
    t.append("\n");
    let checksum = u64_to_string(r.checksum);
    t.append(checksum.as_str());
    t.append("\n");
    proof {
        assert(t@ =~= record_text(r@));
    }
    t
}

/// Read a record back from its persisted text. The result exists
/// exactly when the text is well formed, and is its meaning.
pub fn decode_record(t: &str) -> (r: Option<FileRecord>)
    ensures
        match r {
            Some(rec) => spec_decode_record(t@) == Some(rec@),
            None => spec_decode_record(t@) is None,
        },
{
    let ls = lines_vec(t);
    if ls.len() != 5 {
        return None;
    }
    let created = match parse_u64(ls[2].as_str()) {
        Some(v) => v,
        None => {
            return None;
        },
    };
    let modified = match parse_u64(ls[3].as_str()) {
        Some(v) => v,
        None => {
            return None;
        },
    };
    let checksum = match parse_u64(ls[4].as_str()) {
        Some(v) => v,
        None => {
            return None;
        },
    };
    let rec = FileRecord {
        file_name: ls[0].clone(),
        rel_path: ls[1].clone(),
        created,
        modified,
        checksum,
    };
    proof {
        assert(spec_decode_record(t@) == Some(rec@));
    }
    Some(rec)
}

/// A well-formed record survives the trip through its text unchanged.
pub proof fn lemma_record_round_trip(r: FileRecordV)
    requires
        record_wf(r),
    ensures
        spec_decode_record(record_text(r)) == Some(r),
{
    let t = record_text(r);
    lemma_dec_digits_val(r.created as nat);
    lemma_dec_digits_val(r.modified as nat);
    lemma_dec_digits_val(r.checksum as nat);
    let dc = dec_digits(r.created as nat);
    let dm = dec_digits(r.modified as nat);
    let dk = dec_digits(r.checksum as nat);
    assert(!dc.contains('\n')) by {
        assert(forall|i: int| 0 <= i < dc.len() ==> dc[i] != '\n');
    }
    assert(!dm.contains('\n')) by {
        assert(forall|i: int| 0 <= i < dm.len() ==> dm[i] != '\n');
    }
    assert(!dk.contains('\n')) by {
        assert(forall|i: int| 0 <= i < dk.len() ==> dk[i] != '\n');
    }
    let after_name = r.rel_path + seq!['\n'] + dc + seq!['\n'] + dm + seq!['\n'] + dk + seq!['\n'];
    let after_rel = dc + seq!['\n'] + dm + seq!['\n'] + dk + seq!['\n'];
    let after_created = dm + seq!['\n'] + dk + seq!['\n'];
    let after_modified = dk + seq!['\n'];
    assert(t =~= r.file_name + seq!['\n'] + after_name);
    lemma_split_prefix(r.file_name, after_name, '\n');
    assert(after_name =~= r.rel_path + seq!['\n'] + after_rel);
    lemma_split_prefix(r.rel_path, after_rel, '\n');
    assert(after_rel =~= dc + seq!['\n'] + after_created);
    lemma_split_prefix(dc, after_created, '\n');
    assert(after_created =~= dm + seq!['\n'] + after_modified);
    lemma_split_prefix(dm, after_modified, '\n');
    assert(after_modified =~= dk + seq!['\n'] + Seq::<char>::empty());
    lemma_split_prefix(dk, Seq::<char>::empty(), '\n');
    lemma_split_single(Seq::<char>::empty(), '\n');
    let ls = split_on(t, '\n');
    assert(ls =~~= seq![r.file_name] + (seq![r.rel_path] + (seq![dc] + (seq![dm] + (seq![dk]
        + seq![Seq::<char>::empty()])))));
    assert(ls.len() == 6);
    assert(t.len() > 0 && t.last() == '\n');
    let lines = text_lines(t);
    assert(lines =~~= ls.drop_last());
    assert(lines.len() == 5);
    assert(lines[0] == r.file_name);
    assert(lines[1] == r.rel_path);
    assert(lines[2] == dc);
    assert(lines[3] == dm);
    assert(lines[4] == dk);
    assert(spec_decode_record(t) == Some(r));
}

/// Whether some entry carries the key.
pub open spec fn has_key(s: Seq<(u64, FileRecordV)>, key: u64) -> bool {
    exists|i: int| 0 <= i < s.len() && (#[trigger] s[i]).0 == key
}

/// The first record stored under the key, if any.
pub open spec fn find_rec(s: Seq<(u64, FileRecordV)>, key: u64) -> Option<FileRecordV>
    decreases s.len(),
{
    if s.len() == 0 {
        None
    } else if s[0].0 == key {
        Some(s[0].1)
    } else {
        find_rec(s.drop_first(), key)
    }
}

/// The store after a write: the first entry under the key is replaced,
/// or a new entry is appended.
pub open spec fn spec_put(s: Seq<(u64, FileRecordV)>, key: u64, v: FileRecordV) -> Seq<
    (u64, FileRecordV),
>
    decreases s.len(),
{
    if s.len() == 0 {
        seq![(key, v)]
    } else if s[0].0 == key {
        seq![(key, v)] + s.drop_first()
    } else {
        seq![s[0]] + spec_put(s.drop_first(), key, v)
    }
}

/// The store after a delete: the first entry under the key is gone.
pub open spec fn remove_key(s: Seq<(u64, FileRecordV)>, key: u64) -> Seq<(u64, FileRecordV)>
    decreases s.len(),
{
    if s.len() == 0 {
        s
    } else if s[0].0 == key {
        s.drop_first()
    } else {
        seq![s[0]] + remove_key(s.drop_first(), key)
    }
}

/// At most one record per key.
pub open spec fn unique_keys(s: Seq<(u64, FileRecordV)>) -> bool {
    forall|i: int, j: int| 0 <= i < j < s.len() ==> (#[trigger] s[i]).0 != (#[trigger] s[j]).0
}

/// A write lands where a read looks: after a put, the key finds the
/// new record.
pub proof fn lemma_find_after_put(s: Seq<(u64, FileRecordV)>, key: u64, v: FileRecordV)
    ensures
        find_rec(spec_put(s, key, v), key) == Some(v),
    decreases s.len(),
{
    if s.len() == 0 {
        let t = spec_put(s, key, v);
        assert(t[0] == (key, v));
    } else if s[0].0 == key {
        let t = spec_put(s, key, v);
        assert(t[0] == (key, v));
    } else {
        lemma_find_after_put(s.drop_first(), key, v);
        let t = spec_put(s, key, v);
        assert(t[0] == s[0]);
        assert(t.drop_first() =~= spec_put(s.drop_first(), key, v));
    }
}

/// A write disturbs no other key: after a put, every other key finds
/// what it found before.
pub proof fn lemma_find_after_put_other(
    s: Seq<(u64, FileRecordV)>,
    key: u64,
    v: FileRecordV,
    other: u64,
)
    requires
        other != key,
    ensures
        find_rec(spec_put(s, key, v), other) == find_rec(s, other),
    decreases s.len(),
{
    let t = spec_put(s, key, v);
    if s.len() == 0 {
        assert(t[0] == (key, v));
        assert(t.drop_first() =~= Seq::<(u64, FileRecordV)>::empty());
        assert(find_rec(t, other) == find_rec(t.drop_first(), other));
    } else if s[0].0 == key {
        assert(t[0] == (key, v));
        assert(t.drop_first() =~= s.drop_first());
        assert(find_rec(t, other) == find_rec(t.drop_first(), other));
        assert(find_rec(s, other) == find_rec(s.drop_first(), other));
    } else {
        lemma_find_after_put_other(s.drop_first(), key, v, other);
        assert(t[0] == s[0]);
        assert(t.drop_first() =~= spec_put(s.drop_first(), key, v));
        if s[0].0 == other {
            assert(find_rec(t, other) == Some(s[0].1));
            assert(find_rec(s, other) == Some(s[0].1));
        } else {
            assert(find_rec(t, other) == find_rec(t.drop_first(), other));
            assert(find_rec(s, other) == find_rec(s.drop_first(), other));
        }
    }
}

/// A delete is final: after a remove under unique keys, the key finds
/// nothing.
pub proof fn lemma_find_after_remove(s: Seq<(u64, FileRecordV)>, key: u64)
    requires
        unique_keys(s),
    ensures
        find_rec(remove_key(s, key), key) is None,
    decreases s.len(),
{
    if s.len() == 0 {
    } else if s[0].0 == key {
        assert(forall|i: int|
            0 <= i < s.drop_first().len() ==> (#[trigger] s.drop_first()[i]) == s[i + 1]);
        lemma_find_none(s.drop_first(), key);
    } else {
        assert(unique_keys(s.drop_first())) by {
            assert(forall|i: int|
                0 <= i < s.drop_first().len() ==> (#[trigger] s.drop_first()[i]) == s[i + 1]);
        }
        lemma_find_after_remove(s.drop_first(), key);
        let t = remove_key(s, key);
        assert(t[0] == s[0]);
        assert(t.drop_first() =~= remove_key(s.drop_first(), key));
    }
}

/// A key that no entry carries finds nothing.
pub proof fn lemma_find_none(s: Seq<(u64, FileRecordV)>, key: u64)
    requires
        !has_key(s, key),
    ensures
        find_rec(s, key) is None,
    decreases s.len(),
{
    if s.len() != 0 {
        assert(s[0].0 != key);
        assert(!has_key(s.drop_first(), key)) by {
            assert(forall|i: int|
                0 <= i < s.drop_first().len() ==> (#[trigger] s.drop_first()[i]) == s[i + 1]);
        }
        lemma_find_none(s.drop_first(), key);
    }
}

/// A key that some entry carries finds a record.
pub proof fn lemma_find_some(s: Seq<(u64, FileRecordV)>, key: u64)
    requires
        has_key(s, key),
    ensures
        find_rec(s, key) is Some,
    decreases s.len(),
{
    if s.len() != 0 && s[0].0 != key {
        let i = choose|i: int| 0 <= i < s.len() && (#[trigger] s[i]).0 == key;
        assert(s.drop_first()[i - 1] == s[i]);
        assert(has_key(s.drop_first(), key));
        lemma_find_some(s.drop_first(), key);
    }
}

/// The error for a lookup that found another path's record under the
/// asked-for key: two distinct relative paths hashing to one key.
pub struct KeyCollision;

/// The store of per-file records: insertion-ordered, one record per
/// key. The view is the entry sequence itself.
pub struct RecordStore {
    entries: Vec<(u64, FileRecord)>,
}

impl View for RecordStore {
    type V = Seq<(u64, FileRecordV)>;

    closed spec fn view(&self) -> Seq<(u64, FileRecordV)> {
        self.entries@.map_values(|e: (u64, FileRecord)| (e.0, e.1@))
    }
}

impl RecordStore {
    /// The store's standing invariant.
    pub open spec fn wf(&self) -> bool {
        unique_keys(self@)
    }

    /// An empty store.
    pub fn new() -> (r: RecordStore)
        ensures
            r@ =~= Seq::<(u64, FileRecordV)>::empty(),
            r.wf(),
    {
        RecordStore { entries: Vec::new() }
    }

    /// How many records are held.
    pub fn num_records(&self) -> (r: usize)
        ensures
            r == self@.len(),
    {
        self.entries.len()
    }

    /// The entry at one position, in insertion order.
    pub fn record_at(&self, i: usize) -> (r: (u64, &FileRecord))
        requires
            i < self@.len(),
        ensures
            r.0 == self@[i as int].0,
            r.1@ == self@[i as int].1,
    {
        let e = &self.entries[i];
        (e.0, &e.1)
    }

    /// Write or overwrite the record under a key.
    pub fn put(&mut self, key: u64, rec: FileRecord)
        requires
            old(self).wf(),
        ensures
            final(self).wf(),
            final(self)@ =~= spec_put(old(self)@, key, rec@),
    {
        let n = self.entries.len();
        let mut i: usize = 0;
        while i < n
            invariant
                n == self.entries@.len(),
                0 <= i <= n,
                self@ == old(self)@,
                unique_keys(self@),
                forall|k: int| 0 <= k < i ==> (#[trigger] old(self)@[k]).0 != key,
            decreases n - i,
        {
            let ghost s = self@;
            if self.entries[i].0 == key {
                proof {
                    lemma_put_at(s, key, rec@, i as int);
                }
                self.entries[i] = (key, rec);
                proof {
                    assert(self@ =~= s.update(i as int, (key, rec@)));
                    assert(self@ =~= spec_put(s, key, rec@));
                    assert(forall|a: int|
                        0 <= a < self@.len() ==> (#[trigger] self@[a]).0 == s[a].0);
                    assert(unique_keys(self@));
                }
                return;
            }
            i = i + 1;
        }
        let ghost s = self@;
        proof {
            lemma_put_append(s, key, rec@);
        }
        self.entries.push((key, rec));
        proof {
            assert(self@ =~= s.push((key, rec@)));
            assert(self@ =~= spec_put(s, key, rec@));
            assert(forall|a: int| 0 <= a < s.len() ==> (#[trigger] self@[a]) == s[a]);
            assert(unique_keys(self@));
        }
    }

    /// The record under a key, if one is held.
    pub fn get(&self, key: u64) -> (r: Option<&FileRecord>)
        ensures
            match r {
                Some(rec) => find_rec(self@, key) == Some(rec@),
                None => find_rec(self@, key) is None,
            },
    {
        let ghost s = self@;
        let n = self.entries.len();
        let mut i: usize = 0;
        proof {
            assert(s.skip(0) =~= s);
        }
        while i < n
            invariant
                n == self.entries@.len(),
                s == self@,
                0 <= i <= n,
                find_rec(s, key) == find_rec(s.skip(i as int), key),
                forall|k: int| 0 <= k < i ==> (#[trigger] s[k]).0 != key,
            decreases n - i,
        {
            proof {
                assert(s.skip(i as int)[0] == s[i as int]);
            }
            if self.entries[i].0 == key {
                return Some(&self.entries[i].1);
            }
            proof {
                assert(s.skip(i as int).drop_first() =~= s.skip(i as int + 1));
            }
            i = i + 1;
        }
        proof {
            assert(s.skip(n as int) =~= Seq::<(u64, FileRecordV)>::empty());
        }
        None
    }

    /// The record under a key, held against the full relative path:
    /// a stored record whose relative path is not the one asked for
    /// is a path-key collision, reported loudly rather than returned
    /// as another file's history.
    pub fn get_checked(&self, key: u64, rel_path: &str) -> (r: Result<
        Option<&FileRecord>,
        KeyCollision,
    >)
        ensures
            match r {
                Ok(Some(rec)) => find_rec(self@, key) == Some(rec@) && rec@.rel_path == rel_path@,
                Ok(None) => find_rec(self@, key) is None,
                Err(_) => find_rec(self@, key) is Some && find_rec(
                    self@,
                    key,
                ).unwrap().rel_path != rel_path@,
            },
    {
        match self.get(key) {
            None => Ok(None),
            Some(rec) => {
                if str_eq(rec.rel_path.as_str(), rel_path) {
                    Ok(Some(rec))
                } else {
                    Err(KeyCollision)
                }
            },
        }
    }

    /// Delete the record under a key; absent keys change nothing.
    pub fn remove(&mut self, key: u64)
        requires
            old(self).wf(),
        ensures
            final(self).wf(),
            final(self)@ =~= remove_key(old(self)@, key),
    {
        let n = self.entries.len();
        let mut i: usize = 0;
        while i < n
            invariant
                n == self.entries@.len(),
                0 <= i <= n,
                self@ == old(self)@,
                unique_keys(self@),
                forall|k: int| 0 <= k < i ==> (#[trigger] old(self)@[k]).0 != key,
            decreases n - i,
        {
            let ghost s = self@;
            if self.entries[i].0 == key {
                proof {
                    lemma_remove_at(s, key, i as int);
                }
                let _ = self.entries.remove(i);
                proof {
                    assert(self@ =~= s.remove(i as int));
                    assert(self@ =~= remove_key(s, key));
                    assert(forall|a: int, b: int|
                        0 <= a < b < self@.len() ==> (#[trigger] self@[a]).0 != (
                        #[trigger] self@[b]).0);
                }
                return;
            }
            i = i + 1;
        }
        proof {
            lemma_remove_missing(self@, key);
        }
    }

    /// Every key and relative path held, in insertion order.
    pub fn list_all(&self) -> (r: Vec<(u64, String)>)
        ensures
            r@.len() == self@.len(),
            forall|i: int|
                0 <= i < r@.len() ==> (#[trigger] r@[i]).0 == self@[i].0 && r@[i].1@
                    == self@[i].1.rel_path,
    {
        let n = self.entries.len();
        let mut out: Vec<(u64, String)> = Vec::new();
        let mut i: usize = 0;
        while i < n
            invariant
                n == self.entries@.len(),
                0 <= i <= n,
                out@.len() == i,
                forall|k: int|
                    0 <= k < i ==> (#[trigger] out@[k]).0 == self@[k].0 && out@[k].1@
                        == self@[k].1.rel_path,
            decreases n - i,
        {
            let e = &self.entries[i];
            out.push((e.0, e.1.rel_path.clone()));
            i = i + 1;
        }
        out
    }
}

/// Replacing the first entry under a key is an update in place.
proof fn lemma_put_at(s: Seq<(u64, FileRecordV)>, key: u64, v: FileRecordV, i: int)
    requires
        0 <= i < s.len(),
        s[i].0 == key,
        forall|k: int| 0 <= k < i ==> (#[trigger] s[k]).0 != key,
    ensures
        spec_put(s, key, v) =~= s.update(i, (key, v)),
    decreases i,
{
    if i == 0 {
        assert(spec_put(s, key, v) == seq![(key, v)] + s.drop_first());
        assert(seq![(key, v)] + s.drop_first() =~= s.update(0, (key, v)));
    } else {
        assert(s[0].0 != key);
        assert(forall|k: int|
            0 <= k < s.drop_first().len() ==> (#[trigger] s.drop_first()[k]) == s[k + 1]);
        lemma_put_at(s.drop_first(), key, v, i - 1);
        assert(seq![s[0]] + s.drop_first().update(i - 1, (key, v)) =~= s.update(i, (key, v)));
    }
}

/// A key no entry carries is appended at the end.
proof fn lemma_put_append(s: Seq<(u64, FileRecordV)>, key: u64, v: FileRecordV)
    requires
        forall|k: int| 0 <= k < s.len() ==> (#[trigger] s[k]).0 != key,
    ensures
        spec_put(s, key, v) =~= s.push((key, v)),
    decreases s.len(),
{
    if s.len() != 0 {
        assert(forall|k: int|
            0 <= k < s.drop_first().len() ==> (#[trigger] s.drop_first()[k]) == s[k + 1]);
        lemma_put_append(s.drop_first(), key, v);
        assert(seq![s[0]] + s.drop_first().push((key, v)) =~= s.push((key, v)));
    }
}

/// Removing the first entry under a key is an excision in place.
proof fn lemma_remove_at(s: Seq<(u64, FileRecordV)>, key: u64, i: int)
    requires
        0 <= i < s.len(),
        s[i].0 == key,
        forall|k: int| 0 <= k < i ==> (#[trigger] s[k]).0 != key,
    ensures
        remove_key(s, key) =~= s.remove(i),
    decreases i,
{
    if i == 0 {
        assert(s.drop_first() =~= s.remove(0));
    } else {
        assert(s[0].0 != key);
        assert(forall|k: int|
            0 <= k < s.drop_first().len() ==> (#[trigger] s.drop_first()[k]) == s[k + 1]);
        lemma_remove_at(s.drop_first(), key, i - 1);
        assert(seq![s[0]] + s.drop_first().remove(i - 1) =~= s.remove(i));
    }
}

/// Removing a key no entry carries changes nothing.
proof fn lemma_remove_missing(s: Seq<(u64, FileRecordV)>, key: u64)
    requires
        forall|k: int| 0 <= k < s.len() ==> (#[trigger] s[k]).0 != key,
    ensures
        remove_key(s, key) =~= s,
    decreases s.len(),
{
    if s.len() != 0 {
        assert(forall|k: int|
            0 <= k < s.drop_first().len() ==> (#[trigger] s.drop_first()[k]) == s[k + 1]);
        lemma_remove_missing(s.drop_first(), key);
        assert(seq![s[0]] + s.drop_first() =~= s);
    }
}

} // verus!
