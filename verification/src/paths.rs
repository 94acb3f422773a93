//! Paths as text.
//!
//! Paths are carried as plain strings with `/` between components. A
//! file under a tree root is addressed by its *relative path*, the part
//! after the root and its separator; the record of such a file lives in
//! an object directory under a file named by the decimal path key.

use vstd::prelude::*;
use crate::hashing::path_key;
use crate::hashing::path_key_of;
use crate::numtext::dec_digits;
use crate::numtext::u64_to_string;
use crate::textutil::str_eq;

verus! {

/// Whether `path` lies under `root`: it continues `root` with a
/// separator.
pub open spec fn is_under(path: Seq<char>, root: Seq<char>) -> bool {
    path.len() > root.len() && path.subrange(0, root.len() as int) == root && path[root.len() as int]
        == '/'
}

/// The part of `path` after `root` and its separator.
pub open spec fn rel_under(path: Seq<char>, root: Seq<char>) -> Seq<char> {
    path.subrange(root.len() as int + 1, path.len() as int)
}

/// Whether `path` lies under `root`.
pub fn path_is_under(path: &str, root: &str) -> (r: bool)
    ensures
        r == is_under(path@, root@),
{
    let n = path.unicode_len();
    let m = root.unicode_len();
    if n <= m {
        return false;
    }
    let pre = path.substring_char(0, m);
    if !str_eq(pre, root) {
        return false;
    }
    path.get_char(m) == '/'
}

/// The path of a file relative to the tree root it lies under.
pub fn get_src_rel_path_str(path: &str, root: &str) -> (r: String)
    requires
        is_under(path@, root@),
    ensures
        r@ == rel_under(path@, root@),
{
    let n = path.unicode_len();
    let m = root.unicode_len();
    path.substring_char(m + 1, n).to_owned()
}

/// The record-store key of a file under a tree root: the path key of
/// its relative path.
pub fn get_src_rel_path_hash(path: &str, root: &str) -> (r: u64)
    requires
        is_under(path@, root@),
    ensures
        r == path_key_of(rel_under(path@, root@)),
{
    let rel = get_src_rel_path_str(path, root);
    path_key(rel.as_str())
}

/// A root and a relative path joined with a separator.
pub fn join_path(dir: &str, rel: &str) -> (r: String)
    ensures
        r@ == dir@ + seq!['/'] + rel@,
{
    proof {
        reveal_strlit("/");
        assert("/"@ =~= seq!['/']);
    }
    let mut s = dir.to_owned();
    s.append("/");
    s.append(rel);
    proof {
        assert(s@ =~= dir@ + seq!['/'] + rel@);
    }
    s
}

/// The destination counterpart of a source file: the same relative
/// path, re-rooted under the destination.
pub fn path_src_to_dst(src_file: &str, src_root: &str, dst_root: &str) -> (r: String)
    requires
        is_under(src_file@, src_root@),
    ensures
        r@ == dst_root@ + seq!['/'] + rel_under(src_file@, src_root@),
{
    let rel = get_src_rel_path_str(src_file, src_root);
    join_path(dst_root, rel.as_str())
}

/// The file in which a record is stored: the object directory under the
/// configuration directory, then the decimal path key.
pub fn get_obj_file(cfg_dir: &str, key: u64) -> (r: String)
    ensures
        r@ == cfg_dir@ + "/objects/"@ + dec_digits(key as nat),
{
    let mut s = cfg_dir.to_owned();
    s.append("/objects/");
    let num = u64_to_string(key);
    s.append(num.as_str());
    proof {
        assert(s@ =~= cfg_dir@ + "/objects/"@ + dec_digits(key as nat));
    }
    s
}

/// The configuration directory's name: a dot, then the executable's
/// name.
pub fn get_cfg_dir_str(exe_name: &str) -> (r: String)
    ensures
        r@ == seq!['.'] + exe_name@,
{
    proof {
        reveal_strlit(".");
        assert("."@ =~= seq!['.']);
    }
    let mut s = String::new();
    s.append(".");
    s.append(exe_name);
    proof {
        assert(s@ =~= seq!['.'] + exe_name@);
    }
    s
}

} // verus!
