//! Replaying a manifest.
//!
//! An apply walks the manifest in file order and replays only the
//! `Add` entries, each as one copy or move into the destination tree;
//! every other tag is reported and changes nothing. The planner here
//! turns a manifest into that ordered operation list; carrying the
//! operations out against a real tree is the caller's affair, and a
//! caller that fails on one operation skips it and goes on. What an
//! operation does to a tree is stated over a map from path to bytes:
//! a copy leaves the source in place, a move removes it, and either
//! way the destination holds the source's bytes.

use vstd::prelude::*;
use crate::manifest::ManifestAction;
use crate::manifest::ManifestEntry;
use crate::manifest::ManifestEntryV;

verus! {

/// Whether replay duplicates sources or relocates them.
#[derive(Clone, Copy, PartialEq, Eq, Structural, Debug)]
pub enum ApplyMode {
    CopyMode,
    MoveMode,
}

/// One planned operation against the destination tree.
pub struct FileOp {
    pub mode: ApplyMode,
    pub src: String,
    pub dst: String,
}

/// The mathematical value of an operation.
#[verifier::ext_equal]
pub ghost struct FileOpV {
    pub mode: ApplyMode,
    pub src: Seq<char>,
    pub dst: Seq<char>,
}

impl View for FileOp {
    type V = FileOpV;

    open spec fn view(&self) -> FileOpV {
        FileOpV { mode: self.mode, src: self.src@, dst: self.dst@ }
    }
}

/// The operations a manifest calls for: one per `Add` entry, in
/// manifest order, from the entry's source to its destination; all
/// other tags are no-ops.
pub open spec fn spec_plan(entries: Seq<ManifestEntryV>, mode: ApplyMode) -> Seq<FileOpV>
    decreases entries.len(),
{
    if entries.len() == 0 {
        Seq::<FileOpV>::empty()
    } else {
        let head = if entries[0].action == ManifestAction::Add {
            seq![FileOpV { mode, src: entries[0].source_path, dst: entries[0].destination_path }]
        } else {
            Seq::<FileOpV>::empty()
        };
        head + spec_plan(entries.drop_first(), mode)
    }
}

/// Planned operations concatenate over a split of the entries.
proof fn lemma_plan_concat(a: Seq<ManifestEntryV>, b: Seq<ManifestEntryV>, mode: ApplyMode)
    ensures
        spec_plan(a + b, mode) =~~= spec_plan(a, mode) + spec_plan(b, mode),
    decreases a.len(),
{
    if a.len() == 0 {
        assert(a + b =~= b);
    } else {
        assert((a + b)[0] == a[0]);
        assert((a + b).drop_first() =~= a.drop_first() + b);
        lemma_plan_concat(a.drop_first(), b, mode);
    }
}

/// Plan the replay of a manifest: the operation list that `spec_plan`
/// describes.
pub fn plan_apply(entries: &Vec<ManifestEntry>, mode: ApplyMode) -> (r: Vec<FileOp>)
    ensures
        r@.map_values(|op: FileOp| op@) == spec_plan(
            entries@.map_values(|e: ManifestEntry| e@),
            mode,
        ),
{
    let ghost ev = entries@.map_values(|e: ManifestEntry| e@);
    let mut out: Vec<FileOp> = Vec::new();
    let n = entries.len();
    let mut i: usize = 0;
    proof {
        assert(spec_plan(ev.subrange(0, 0), mode) =~= Seq::<FileOpV>::empty());
        assert(out@.map_values(|op: FileOp| op@) =~= Seq::<FileOpV>::empty());
    }
    while i < n
        invariant
            n == entries@.len(),
            0 <= i <= n,
            ev == entries@.map_values(|e: ManifestEntry| e@),
            out@.map_values(|op: FileOp| op@) == spec_plan(ev.subrange(0, i as int), mode),
        decreases n - i,
    {
        let e = &entries[i];
        if matches!(e.action, ManifestAction::Add) {
            let op = FileOp {
                mode,
                src: e.source_path.clone(),
                dst: e.destination_path.clone(),
            };
            out.push(op);
        }
        proof {
            let single = ev.subrange(i as int, i + 1);
            assert(single[0] == ev[i as int]);
            assert(single.drop_first() =~= Seq::<ManifestEntryV>::empty());
            assert(spec_plan(Seq::<ManifestEntryV>::empty(), mode) =~= Seq::<FileOpV>::empty());
            lemma_plan_concat(ev.subrange(0, i as int), single, mode);
            assert(ev.subrange(0, i + 1) =~= ev.subrange(0, i as int) + single);
            assert(out@.map_values(|op: FileOp| op@) =~= spec_plan(ev.subrange(0, i + 1), mode));
        }
        i = i + 1;
    }
    proof {
        assert(ev.subrange(0, ev.len() as int) =~= ev);
    }
    out
}

/// What one operation does to a tree, modelled as a map from path to
/// bytes: a missing source is a reported skip that changes nothing;
/// otherwise the destination receives the source's bytes, and a move
/// then removes the source.
pub open spec fn apply_op_fs(fs: Map<Seq<char>, Seq<u8>>, op: FileOpV) -> Map<Seq<char>, Seq<u8>> {
    if !fs.contains_key(op.src) {
        fs
    } else {
        let copied = fs.insert(op.dst, fs[op.src]);
        match op.mode {
            ApplyMode::CopyMode => copied,
            ApplyMode::MoveMode => if op.dst == op.src {
                copied
            } else {
                copied.remove(op.src)
            },
        }
    }
}

/// What replaying a whole plan does to a tree, in order.
pub open spec fn apply_ops_fs(fs: Map<Seq<char>, Seq<u8>>, ops: Seq<FileOpV>) -> Map<
    Seq<char>,
    Seq<u8>,
>
    decreases ops.len(),
{
    if ops.len() == 0 {
        fs
    } else {
        apply_ops_fs(apply_op_fs(fs, ops[0]), ops.drop_first())
    }
}

/// A copy leaves the source file present and byte-identical to the
/// destination.
pub proof fn lemma_copy_semantics(fs: Map<Seq<char>, Seq<u8>>, op: FileOpV)
    requires
        op.mode == ApplyMode::CopyMode,
        fs.contains_key(op.src),
        op.src != op.dst,
    ensures
        apply_op_fs(fs, op).contains_key(op.src),
        apply_op_fs(fs, op)[op.src] == fs[op.src],
        apply_op_fs(fs, op).contains_key(op.dst),
        apply_op_fs(fs, op)[op.dst] == fs[op.src],
{
}

/// A move leaves no source file and a byte-identical destination.
pub proof fn lemma_move_semantics(fs: Map<Seq<char>, Seq<u8>>, op: FileOpV)
    requires
        op.mode == ApplyMode::MoveMode,
        fs.contains_key(op.src),
        op.src != op.dst,
    ensures
        !apply_op_fs(fs, op).contains_key(op.src),
        apply_op_fs(fs, op).contains_key(op.dst),
        apply_op_fs(fs, op)[op.dst] == fs[op.src],
{
}

/// Any path no operation names is untouched by a whole replay.
pub proof fn lemma_apply_frame(fs: Map<Seq<char>, Seq<u8>>, ops: Seq<FileOpV>, path: Seq<char>)
    requires
        forall|i: int| 0 <= i < ops.len() ==> (#[trigger] ops[i]).src != path && ops[i].dst != path,
    ensures
        apply_ops_fs(fs, ops).contains_key(path) == fs.contains_key(path),
        apply_ops_fs(fs, ops).contains_key(path) ==> apply_ops_fs(fs, ops)[path] == fs[path],
    decreases ops.len(),
{
    if ops.len() > 0 {
        let fs1 = apply_op_fs(fs, ops[0]);
        assert(fs1.contains_key(path) == fs.contains_key(path));
        assert(fs1.contains_key(path) ==> fs1[path] == fs[path]);
        assert(forall|i: int|
            0 <= i < ops.drop_first().len() ==> #[trigger] ops.drop_first()[i] == ops[i + 1]);
        lemma_apply_frame(fs1, ops.drop_first(), path);
    }
}

} // verus!
