//! The manifest: an ordered, replayable list of file operations.
//!
//! A scan appends one entry per file; an apply replays the entries in
//! file order. The persisted form is UTF-8 text: one header line, then
//! one comma-delimited line per entry, `tag,key,src,dst`. The key is
//! the decimal content hash; `Skip` and `Collision` entries append a
//! `#dup` or `#coll` ordinal so repeated lines for one hash stay
//! individually addressable. Paths carry no escaping, so a comma in a
//! source path cannot be read back — a known limit of the format; the
//! destination path, read last, may hold commas.

use vstd::prelude::*;
use crate::numtext::dec_digits;
use crate::numtext::dec_val;
use crate::numtext::is_dec_string;
use crate::numtext::is_digit;
use crate::numtext::lemma_dec_digits_val;
use crate::numtext::parse_u64;
use crate::numtext::u64_to_string;
use crate::textutil::join_from;
use crate::textutil::join_with;
use crate::textutil::lemma_join_split;
use crate::textutil::lemma_split_len;
use crate::textutil::lemma_split_prefix;
use crate::textutil::lemma_split_single;
use crate::textutil::lines_vec;
use crate::textutil::split_on;
use crate::textutil::split_str;
use crate::textutil::str_eq;
use crate::textutil::text_lines;

verus! {

/// The operation an entry stands for.
#[derive(Clone, Copy, PartialEq, Eq, Structural, Debug)]
pub enum ManifestAction {
    Add,
    Remove,
    Skip,
    Ignore,
    Update,
    Retrieve,
    Collision,
}

/// One manifest entry. The ordinal is meaningful on `Skip` and
/// `Collision` entries, where it numbers the repeats of one content
/// hash; elsewhere it is zero.
pub struct ManifestEntry {
    pub action: ManifestAction,
    pub content_hash: u64,
    pub ordinal: u64,
    pub source_path: String,
    pub destination_path: String,
}

/// The mathematical value of an entry.
#[verifier::ext_equal]
pub ghost struct ManifestEntryV {
    pub action: ManifestAction,
    pub content_hash: u64,
    pub ordinal: u64,
    pub source_path: Seq<char>,
    pub destination_path: Seq<char>,
}

impl View for ManifestEntry {
    type V = ManifestEntryV;

    open spec fn view(&self) -> ManifestEntryV {
        ManifestEntryV {
            action: self.action,
            content_hash: self.content_hash,
            ordinal: self.ordinal,
            source_path: self.source_path@,
            destination_path: self.destination_path@,
        }
    }
}

impl Clone for ManifestEntry {
    fn clone(&self) -> (r: Self)
        ensures
            r@ == self@,
    {
        ManifestEntry {
            action: self.action,
            content_hash: self.content_hash,
            ordinal: self.ordinal,
            source_path: self.source_path.clone(),
            destination_path: self.destination_path.clone(),
        }
    }
}

/// The distinguishing character of each action's tag.
pub open spec fn tag_char(a: ManifestAction) -> char {
    match a {
        ManifestAction::Add => '+',
        ManifestAction::Remove => '-',
        ManifestAction::Skip => '*',
        ManifestAction::Ignore => '_',
        ManifestAction::Update => '>',
        ManifestAction::Retrieve => '<',
        ManifestAction::Collision => '!',
    }
}

/// The three-character tag of an action.
pub open spec fn action_tag_spec(a: ManifestAction) -> Seq<char> {
    seq!['[', tag_char(a), ']']
}

/// The action of a tag, if the text is one.
pub open spec fn spec_parse_tag(s: Seq<char>) -> Option<ManifestAction> {
    if s == action_tag_spec(ManifestAction::Add) {
        Some(ManifestAction::Add)
    } else if s == action_tag_spec(ManifestAction::Remove) {
        Some(ManifestAction::Remove)
    } else if s == action_tag_spec(ManifestAction::Skip) {
        Some(ManifestAction::Skip)
    } else if s == action_tag_spec(ManifestAction::Ignore) {
        Some(ManifestAction::Ignore)
    } else if s == action_tag_spec(ManifestAction::Update) {
        Some(ManifestAction::Update)
    } else if s == action_tag_spec(ManifestAction::Retrieve) {
        Some(ManifestAction::Retrieve)
    } else if s == action_tag_spec(ManifestAction::Collision) {
        Some(ManifestAction::Collision)
    } else {
        None
    }
}

/// The tag of an action, as text.
pub fn action_tag(a: &ManifestAction) -> (r: &'static str)
    ensures
        r@ == action_tag_spec(*a),
{
    proof {
        reveal_strlit("[+]");
        reveal_strlit("[-]");
        reveal_strlit("[*]");
        reveal_strlit("[_]");
        reveal_strlit("[>]");
        reveal_strlit("[<]");
        reveal_strlit("[!]");
    }
    let r = match a {
        ManifestAction::Add => "[+]",
        ManifestAction::Remove => "[-]",
        ManifestAction::Skip => "[*]",
        ManifestAction::Ignore => "[_]",
        ManifestAction::Update => "[>]",
        ManifestAction::Retrieve => "[<]",
        ManifestAction::Collision => "[!]",
    };
    proof {
        assert(r@ =~= action_tag_spec(*a));
    }
    r
}

/// Read a tag back to its action. The table is a bijection: each
/// action has one tag and no text is the tag of two actions.
pub fn parse_action_tag(s: &str) -> (r: Option<ManifestAction>)
    ensures
        r == spec_parse_tag(s@),
{
    proof {
        reveal_strlit("[+]");
        reveal_strlit("[-]");
        reveal_strlit("[*]");
        reveal_strlit("[_]");
        reveal_strlit("[>]");
        reveal_strlit("[<]");
        reveal_strlit("[!]");
        assert("[+]"@ =~= action_tag_spec(ManifestAction::Add));
        assert("[-]"@ =~= action_tag_spec(ManifestAction::Remove));
        assert("[*]"@ =~= action_tag_spec(ManifestAction::Skip));
        assert("[_]"@ =~= action_tag_spec(ManifestAction::Ignore));
        assert("[>]"@ =~= action_tag_spec(ManifestAction::Update));
        assert("[<]"@ =~= action_tag_spec(ManifestAction::Retrieve));
        assert("[!]"@ =~= action_tag_spec(ManifestAction::Collision));
    }
    if str_eq(s, "[+]") {
        Some(ManifestAction::Add)
    } else if str_eq(s, "[-]") {
        Some(ManifestAction::Remove)
    } else if str_eq(s, "[*]") {
        Some(ManifestAction::Skip)
    } else if str_eq(s, "[_]") {
        Some(ManifestAction::Ignore)
    } else if str_eq(s, "[>]") {
        Some(ManifestAction::Update)
    } else if str_eq(s, "[<]") {
        Some(ManifestAction::Retrieve)
    } else if str_eq(s, "[!]") {
        Some(ManifestAction::Collision)
    } else {
        None
    }
}

/// The marker after the hash on a duplicate's entry.
pub open spec fn dup_mark() -> Seq<char> {
    seq!['d', 'u', 'p']
}

/// The marker after the hash on a collision's entry.
pub open spec fn coll_mark() -> Seq<char> {
    seq!['c', 'o', 'l', 'l']
}

/// The key field of an entry: the decimal content hash, with the
/// ordinal suffix on `Skip` and `Collision` entries.
pub open spec fn key_text(e: ManifestEntryV) -> Seq<char> {
    dec_digits(e.content_hash as nat) + match e.action {
        ManifestAction::Skip => seq!['#'] + dup_mark() + dec_digits(e.ordinal as nat),
        ManifestAction::Collision => seq!['#'] + coll_mark() + dec_digits(e.ordinal as nat),
        _ => Seq::<char>::empty(),
    }
}

/// One manifest line, without its newline.
pub open spec fn entry_line(e: ManifestEntryV) -> Seq<char> {
    action_tag_spec(e.action) + seq![','] + key_text(e) + seq![','] + e.source_path + seq![',']
        + e.destination_path
}

/// Whether an entry can be persisted and read back: its paths hold no
/// line break, its source path no comma, and its ordinal is used only
/// where the format writes one.
pub open spec fn entry_wf(e: ManifestEntryV) -> bool {
    !e.source_path.contains(',') && !e.source_path.contains('\n')
        && !e.destination_path.contains('\n') && match e.action {
        ManifestAction::Skip => true,
        ManifestAction::Collision => true,
        _ => e.ordinal == 0,
    }
}

/// A hash and ordinal read off a suffixed key field.
pub open spec fn spec_parse_suffixed(s: Seq<char>, mark: Seq<char>) -> Option<(u64, u64)> {
    let ps = split_on(s, '#');
    if ps.len() == 2 && is_dec_string(ps[0]) && dec_val(ps[0]) <= u64::MAX && ps[1].len()
        > mark.len() && ps[1].subrange(0, mark.len() as int) == mark && is_dec_string(
        ps[1].skip(mark.len() as int),
    ) && dec_val(ps[1].skip(mark.len() as int)) <= u64::MAX {
        Some((dec_val(ps[0]) as u64, dec_val(ps[1].skip(mark.len() as int)) as u64))
    } else {
        None
    }
}

/// A hash and ordinal read off a key field, under a known action.
pub open spec fn spec_parse_key(s: Seq<char>, a: ManifestAction) -> Option<(u64, u64)> {
    match a {
        ManifestAction::Skip => spec_parse_suffixed(s, dup_mark()),
        ManifestAction::Collision => spec_parse_suffixed(s, coll_mark()),
        _ => if is_dec_string(s) && dec_val(s) <= u64::MAX {
            Some((dec_val(s) as u64, 0))
        } else {
            None
        },
    }
}

/// What one manifest line means, if anything: at least four fields,
/// a known tag, a well-formed key; the destination, read last, is the
/// remaining fields rejoined.
pub open spec fn spec_decode_line(line: Seq<char>) -> Option<ManifestEntryV> {
    let parts = split_on(line, ',');
    if parts.len() < 4 {
        None
    } else {
        match spec_parse_tag(parts[0]) {
            None => None,
            Some(action) => match spec_parse_key(parts[1], action) {
                None => None,
                Some((hash, ordinal)) => Some(
                    ManifestEntryV {
                        action,
                        content_hash: hash,
                        ordinal,
                        source_path: parts[2],
                        destination_path: join_with(parts.skip(3), ','),
                    },
                ),
            },
        }
    }
}

/// Render one entry as its manifest line.
pub fn encode_line(e: &ManifestEntry) -> (r: String)
    ensures
        r@ == entry_line(e@),
{
    proof {
        reveal_strlit(",");
        reveal_strlit("#dup");
        reveal_strlit("#coll");
        assert(","@ =~= seq![',']);
        assert("#dup"@ =~= seq!['#'] + dup_mark());
        assert("#coll"@ =~= seq!['#'] + coll_mark());
    }
    let tag = action_tag(&e.action);
    let mut r = tag.to_owned();
    r.append(",");
    let hash = u64_to_string(e.content_hash);
    r.append(hash.as_str());
    match e.action {
        ManifestAction::Skip => {
            r.append("#dup");
            let ord = u64_to_string(e.ordinal);
            r.append(ord.as_str());
        },
        ManifestAction::Collision => {
            r.append("#coll");
            let ord = u64_to_string(e.ordinal);
            r.append(ord.as_str());
        },
        _ => {},
    }
    r.append(",");
    r.append(e.source_path.as_str());
    r.append(",");
    r.append(e.destination_path.as_str());
    proof {
        assert(r@ =~= entry_line(e@));
    }
    r
}

/// Read a suffixed key field back.
fn parse_suffixed(s: &str, mark: &str) -> (r: Option<(u64, u64)>)
    ensures
        r == spec_parse_suffixed(s@, mark@),
{
    let ps = split_str(s, '#');
    if ps.len() != 2 {
        return None;
    }
    let hash = match parse_u64(ps[0].as_str()) {
        Some(v) => v,
        None => {
            return None;
        },
    };
    let tail = &ps[1];
    let tn = tail.as_str().unicode_len();
    let mn = mark.unicode_len();
    if tn <= mn {
        return None;
    }
    let pre = tail.as_str().substring_char(0, mn);
    if !str_eq(pre, mark) {
        return None;
    }
    let digits = tail.as_str().substring_char(mn, tn);
    proof {
        assert(digits@ =~= tail@.skip(mn as int));
    }
    let ord = match parse_u64(digits) {
        Some(v) => v,
        None => {
            return None;
        },
    };
    Some((hash, ord))
}

/// Read one manifest line back. The result exists exactly when the
/// line is well formed, and is its meaning.
pub fn decode_line(line: &str) -> (r: Option<ManifestEntry>)
    ensures
        match r {
            Some(e) => spec_decode_line(line@) == Some(e@),
            None => spec_decode_line(line@) is None,
        },
{
    proof {
        reveal_strlit("dup");
        reveal_strlit("coll");
        assert("dup"@ =~= dup_mark());
        assert("coll"@ =~= coll_mark());
    }
    let parts = split_str(line, ',');
    if parts.len() < 4 {
        return None;
    }
    let action = match parse_action_tag(parts[0].as_str()) {
        Some(a) => a,
        None => {
            return None;
        },
    };
    let key = match action {
        ManifestAction::Skip => parse_suffixed(parts[1].as_str(), "dup"),
        ManifestAction::Collision => parse_suffixed(parts[1].as_str(), "coll"),
        _ => match parse_u64(parts[1].as_str()) {
            Some(v) => Some((v, 0u64)),
            None => None,
        },
    };
    let (hash, ordinal) = match key {
        Some(p) => p,
        None => {
            return None;
        },
    };
    proof {
        reveal_strlit(",");
        assert(","@ =~= seq![',']);
    }
    let dst = join_from(&parts, 3, ",");
    proof {
        assert(parts@.map_values(|p: String| p@).skip(3) =~~= split_on(line@, ',').skip(3));
    }
    let e = ManifestEntry {
        action,
        content_hash: hash,
        ordinal,
        source_path: parts[2].clone(),
        destination_path: dst,
    };
    proof {
        assert(spec_decode_line(line@) == Some(e@));
    }
    Some(e)
}

/// Digit sequences hold neither comma, newline nor hash mark.
proof fn lemma_digits_plain(n: nat)
    ensures
        is_dec_string(dec_digits(n)),
        !dec_digits(n).contains(','),
        !dec_digits(n).contains('\n'),
        !dec_digits(n).contains('#'),
{
    lemma_dec_digits_val(n);
    let d = dec_digits(n);
    assert(forall|i: int| 0 <= i < d.len() ==> is_digit(#[trigger] d[i]));
    assert(forall|i: int| 0 <= i < d.len() ==> #[trigger] d[i] != ',' && d[i] != '\n' && d[i]
        != '#');
}

/// A key field holds neither comma nor newline.
proof fn lemma_key_text_plain(e: ManifestEntryV)
    ensures
        !key_text(e).contains(','),
        !key_text(e).contains('\n'),
{
    lemma_digits_plain(e.content_hash as nat);
    lemma_digits_plain(e.ordinal as nat);
    let k = key_text(e);
    assert(forall|i: int| 0 <= i < k.len() ==> #[trigger] k[i] != ',' && k[i] != '\n') by {
        let dh = dec_digits(e.content_hash as nat);
        let dn = dec_digits(e.ordinal as nat);
        assert(forall|i: int| 0 <= i < dh.len() ==> is_digit(#[trigger] dh[i]));
        assert(forall|i: int| 0 <= i < dn.len() ==> is_digit(#[trigger] dn[i]));
    }
}

/// A tag holds neither comma nor newline.
proof fn lemma_tag_plain(a: ManifestAction)
    ensures
        !action_tag_spec(a).contains(','),
        !action_tag_spec(a).contains('\n'),
{
    let t = action_tag_spec(a);
    assert(forall|i: int| 0 <= i < t.len() ==> #[trigger] t[i] != ',' && t[i] != '\n');
}

/// A well-formed entry survives the trip through its line unchanged.
pub proof fn lemma_line_round_trip(e: ManifestEntryV)
    requires
        entry_wf(e),
    ensures
        spec_decode_line(entry_line(e)) == Some(e),
{
    let line = entry_line(e);
    let tag = action_tag_spec(e.action);
    let key = key_text(e);
    let after_tag = key + seq![','] + e.source_path + seq![','] + e.destination_path;
    let after_key = e.source_path + seq![','] + e.destination_path;
    lemma_tag_plain(e.action);
    lemma_key_text_plain(e);
    assert(line =~= tag + seq![','] + after_tag);
    lemma_split_prefix(tag, after_tag, ',');
    assert(after_tag =~= key + seq![','] + after_key);
    lemma_split_prefix(key, after_key, ',');
    assert(after_key =~= e.source_path + seq![','] + e.destination_path);
    lemma_split_prefix(e.source_path, e.destination_path, ',');
    lemma_split_len(e.destination_path, ',');
    let dparts = split_on(e.destination_path, ',');
    let parts = split_on(line, ',');
    assert(parts =~~= seq![tag] + (seq![key] + (seq![e.source_path] + dparts)));
    assert(parts.len() >= 4);
    assert(parts[0] == tag);
    assert(parts[1] == key);
    assert(parts[2] == e.source_path);
    assert(parts.skip(3) =~~= dparts);
    lemma_join_split(e.destination_path, ',');
    assert(spec_parse_tag(tag) == Some(e.action)) by {
        assert(tag[1] == tag_char(e.action));
    }
    lemma_parse_key_round_trip(e);
    assert(spec_decode_line(line) == Some(e));
}

/// The key field of a well-formed entry reads back to its hash and
/// ordinal.
proof fn lemma_parse_key_round_trip(e: ManifestEntryV)
    requires
        entry_wf(e),
    ensures
        spec_parse_key(key_text(e), e.action) == Some((e.content_hash, e.ordinal)),
{
    lemma_dec_digits_val(e.content_hash as nat);
    lemma_dec_digits_val(e.ordinal as nat);
    lemma_digits_plain(e.content_hash as nat);
    lemma_digits_plain(e.ordinal as nat);
    let dh = dec_digits(e.content_hash as nat);
    let dn = dec_digits(e.ordinal as nat);
    match e.action {
        ManifestAction::Skip => {
            lemma_suffixed_round_trip(dh, dup_mark(), dn);
            assert(key_text(e) =~= dh + seq!['#'] + (dup_mark() + dn));
        },
        ManifestAction::Collision => {
            lemma_suffixed_round_trip(dh, coll_mark(), dn);
            assert(key_text(e) =~= dh + seq!['#'] + (coll_mark() + dn));
        },
        _ => {
            assert(key_text(e) =~= dh);
        },
    }
}

/// The header line of a manifest.
pub open spec fn manifest_header() -> Seq<char> {
    "action,hash,src,dst"@
}

/// The entry lines of a manifest, each ended by a newline.
pub open spec fn lines_text(entries: Seq<ManifestEntryV>) -> Seq<char>
    decreases entries.len(),
{
    if entries.len() == 0 {
        Seq::<char>::empty()
    } else {
        entry_line(entries[0]) + seq!['\n'] + lines_text(entries.drop_first())
    }
}

/// A whole persisted manifest: the header line, then one line per
/// entry, in order.
pub open spec fn manifest_text(entries: Seq<ManifestEntryV>) -> Seq<char> {
    manifest_header() + seq!['\n'] + lines_text(entries)
}

/// What reading a sequence of entry lines yields: the entries of the
/// lines that decode, in order, and the count of lines that do not.
/// A malformed line is skipped, never fatal.
pub open spec fn decode_lines(ls: Seq<Seq<char>>) -> (Seq<ManifestEntryV>, nat)
    decreases ls.len(),
{
    if ls.len() == 0 {
        (Seq::<ManifestEntryV>::empty(), 0nat)
    } else {
        let rest = decode_lines(ls.drop_first());
        match spec_decode_line(ls[0]) {
            Some(e) => (seq![e] + rest.0, rest.1),
            None => (rest.0, rest.1 + 1),
        }
    }
}

/// What a persisted manifest means: its lines after the header, read
/// in order.
pub open spec fn spec_decode_manifest(text: Seq<char>) -> (Seq<ManifestEntryV>, nat) {
    let ls = text_lines(text);
    if ls.len() == 0 {
        (Seq::<ManifestEntryV>::empty(), 0nat)
    } else {
        decode_lines(ls.drop_first())
    }
}

/// Render a manifest: the header, then every entry on its own line.
pub fn encode_manifest(entries: &Vec<ManifestEntry>) -> (t: String)
    ensures
        t@ == manifest_text(entries@.map_values(|e: ManifestEntry| e@)),
{
    proof {
        reveal_strlit("\n");
        assert("\n"@ =~= seq!['\n']);
    }
    let ghost ev = entries@.map_values(|e: ManifestEntry| e@);
    let mut t = "action,hash,src,dst".to_owned();
    t.append("\n");
    let n = entries.len();
    let mut i: usize = 0;
    proof {
        assert(lines_text(ev.subrange(0, 0)) =~= Seq::<char>::empty());
        assert(t@ =~= manifest_header() + seq!['\n'] + lines_text(ev.subrange(0, 0)));
    }
    while i < n
        invariant
            n == entries@.len(),
            0 <= i <= n,
            ev == entries@.map_values(|e: ManifestEntry| e@),
            "\n"@ =~= seq!['\n'],
            t@ == manifest_header() + seq!['\n'] + lines_text(ev.subrange(0, i as int)),
        decreases n - i,
    {
        let line = encode_line(&entries[i]);
        t.append(line.as_str());
        t.append("\n");
        proof {
            lemma_lines_text_concat(ev.subrange(0, i as int), ev.subrange(i as int, i + 1));
            assert(ev.subrange(0, i + 1) =~= ev.subrange(0, i as int) + ev.subrange(
                i as int,
                i + 1,
            ));
            let single = ev.subrange(i as int, i + 1);
            assert(single[0] == ev[i as int]);
            assert(single.drop_first() =~= Seq::<ManifestEntryV>::empty());
            assert(lines_text(Seq::<ManifestEntryV>::empty()) =~= Seq::<char>::empty());
            assert(lines_text(single) == entry_line(single[0]) + seq!['\n'] + lines_text(
                single.drop_first(),
            ));
            assert(lines_text(single) =~= entry_line(ev[i as int]) + seq!['\n']);
            assert(t@ =~= manifest_header() + seq!['\n'] + lines_text(ev.subrange(0, i + 1)));
        }
        i = i + 1;
    }
    proof {
        assert(ev.subrange(0, ev.len() as int) =~= ev);
    }
    t
}

/// Entry lines concatenate over a split of the entries.
proof fn lemma_lines_text_concat(a: Seq<ManifestEntryV>, b: Seq<ManifestEntryV>)
    ensures
        lines_text(a + b) =~= lines_text(a) + lines_text(b),
    decreases a.len(),
{
    if a.len() == 0 {
        assert(a + b =~= b);
    } else {
        assert((a + b)[0] == a[0]);
        assert((a + b).drop_first() =~= a.drop_first() + b);
        lemma_lines_text_concat(a.drop_first(), b);
    }
}

/// Read a persisted manifest back: the entries of every line after
/// the header that decodes, and how many lines were skipped.
pub fn decode_manifest(text: &str) -> (r: (Vec<ManifestEntry>, usize))
    ensures
        ({
            let d = spec_decode_manifest(text@);
            r.0@.map_values(|e: ManifestEntry| e@) == d.0 && r.1 as nat == d.1
        }),
{
    let lines = lines_vec(text);
    let ghost lv = lines@.map_values(|p: String| p@);
    let n = lines.len();
    let mut out: Vec<ManifestEntry> = Vec::new();
    let mut skipped: usize = 0;
    if n == 0 {
        proof {
            assert(out@.map_values(|e: ManifestEntry| e@) =~= Seq::<ManifestEntryV>::empty());
        }
        return (out, skipped);
    }
    let mut i: usize = 1;
    proof {
        assert(lv.subrange(1, 1) =~= Seq::<Seq<char>>::empty());
        assert(out@.map_values(|e: ManifestEntry| e@) =~= decode_lines(lv.subrange(1, 1)).0);
    }
    while i < n
        invariant
            n == lines@.len(),
            1 <= i <= n,
            lv == lines@.map_values(|p: String| p@),
            skipped < i,
            out@.map_values(|e: ManifestEntry| e@) == decode_lines(lv.subrange(1, i as int)).0,
            skipped as nat == decode_lines(lv.subrange(1, i as int)).1,
        decreases n - i,
    {
        let ghost prev = out@;
        match decode_line(lines[i].as_str()) {
            Some(e) => {
                out.push(e);
            },
            None => {
                skipped = skipped + 1;
            },
        }
        proof {
            lemma_decode_lines_concat(lv.subrange(1, i as int), lv.subrange(i as int, i + 1));
            assert(lv.subrange(1, i + 1) =~= lv.subrange(1, i as int) + lv.subrange(
                i as int,
                i + 1,
            ));
            let single = lv.subrange(i as int, i + 1);
            assert(single[0] == lv[i as int]);
            assert(single.drop_first() =~= Seq::<Seq<char>>::empty());
            assert(decode_lines(Seq::<Seq<char>>::empty()) == (Seq::<ManifestEntryV>::empty(), 0nat));
            assert(decode_lines(single) == match spec_decode_line(lv[i as int]) {
                Some(e) => (seq![e] + Seq::<ManifestEntryV>::empty(), 0nat),
                None => (Seq::<ManifestEntryV>::empty(), 1nat),
            });
            assert(out@.map_values(|e: ManifestEntry| e@) =~= decode_lines(
                lv.subrange(1, i + 1),
            ).0);
            assert(skipped as nat == decode_lines(lv.subrange(1, i + 1)).1);
        }
        i = i + 1;
    }
    proof {
        assert(lv.subrange(1, lv.len() as int) =~= lv.drop_first());
    }
    (out, skipped)
}

/// Decoded lines concatenate over a split of the lines.
proof fn lemma_decode_lines_concat(a: Seq<Seq<char>>, b: Seq<Seq<char>>)
    ensures
        decode_lines(a + b).0 =~= decode_lines(a).0 + decode_lines(b).0,
        decode_lines(a + b).1 == decode_lines(a).1 + decode_lines(b).1,
    decreases a.len(),
{
    if a.len() == 0 {
        assert(a + b =~= b);
        assert(decode_lines(a).0 =~= Seq::<ManifestEntryV>::empty());
    } else {
        assert((a + b)[0] == a[0]);
        assert((a + b).drop_first() =~= a.drop_first() + b);
        lemma_decode_lines_concat(a.drop_first(), b);
    }
}

/// A well-formed entry's line holds no line break.
proof fn lemma_entry_line_plain(e: ManifestEntryV)
    requires
        entry_wf(e),
    ensures
        !entry_line(e).contains('\n'),
{
    lemma_tag_plain(e.action);
    lemma_key_text_plain(e);
    let line = entry_line(e);
    assert(forall|i: int| 0 <= i < line.len() ==> #[trigger] line[i] != '\n') by {
        let tag = action_tag_spec(e.action);
        let key = key_text(e);
        assert(forall|i: int| 0 <= i < tag.len() ==> #[trigger] tag[i] != '\n');
        assert(forall|i: int| 0 <= i < key.len() ==> #[trigger] key[i] != '\n');
        assert(forall|i: int|
            0 <= i < e.source_path.len() ==> #[trigger] e.source_path[i] != '\n');
        assert(forall|i: int|
            0 <= i < e.destination_path.len() ==> #[trigger] e.destination_path[i] != '\n');
    }
}

/// The header line holds no line break.
proof fn lemma_header_plain()
    ensures
        !manifest_header().contains('\n'),
        manifest_header().len() == 19,
{
    reveal_strlit("action,hash,src,dst");
    assert(forall|i: int| 0 <= i < 19 ==> #[trigger] manifest_header()[i] != '\n');
}

/// The lines of well-formed entries end in a newline.
proof fn lemma_lines_text_last(entries: Seq<ManifestEntryV>)
    requires
        entries.len() > 0,
    ensures
        lines_text(entries).len() > 0,
        lines_text(entries).last() == '\n',
    decreases entries.len(),
{
    if entries.len() > 1 {
        lemma_lines_text_last(entries.drop_first());
        assert(lines_text(entries).last() == lines_text(entries.drop_first()).last());
    } else {
        assert(lines_text(entries.drop_first()) =~= Seq::<char>::empty());
        assert(lines_text(entries) =~= entry_line(entries[0]) + seq!['\n']);
    }
}

/// Splitting the lines of well-formed entries yields exactly those
/// lines, then one empty part.
proof fn lemma_lines_text_split(entries: Seq<ManifestEntryV>)
    requires
        forall|i: int| 0 <= i < entries.len() ==> entry_wf(#[trigger] entries[i]),
    ensures
        split_on(lines_text(entries), '\n') =~~= entries.map_values(|e: ManifestEntryV| entry_line(e))
            + seq![Seq::<char>::empty()],
    decreases entries.len(),
{
    if entries.len() == 0 {
        assert(entries.map_values(|e: ManifestEntryV| entry_line(e)) =~= Seq::<Seq<char>>::empty());
    } else {
        lemma_entry_line_plain(entries[0]);
        assert(forall|i: int|
            0 <= i < entries.drop_first().len() ==> #[trigger] entries.drop_first()[i] == entries[
                i + 1
            ]);
        lemma_lines_text_split(entries.drop_first());
        assert(lines_text(entries) =~= entry_line(entries[0]) + seq!['\n'] + lines_text(
            entries.drop_first(),
        ));
        lemma_split_prefix(entry_line(entries[0]), lines_text(entries.drop_first()), '\n');
    }
}

/// Decoding the lines of well-formed entries yields the entries and
/// skips nothing.
proof fn lemma_decode_good_lines(entries: Seq<ManifestEntryV>)
    requires
        forall|i: int| 0 <= i < entries.len() ==> entry_wf(#[trigger] entries[i]),
    ensures
        decode_lines(entries.map_values(|e: ManifestEntryV| entry_line(e))) == (entries, 0nat),
    decreases entries.len(),
{
    let ls = entries.map_values(|e: ManifestEntryV| entry_line(e));
    if entries.len() == 0 {
        assert(ls.len() == 0);
        assert(decode_lines(ls).0 =~= entries);
    } else {
        assert(forall|i: int|
            0 <= i < entries.drop_first().len() ==> #[trigger] entries.drop_first()[i] == entries[
                i + 1
            ]);
        lemma_decode_good_lines(entries.drop_first());
        lemma_line_round_trip(entries[0]);
        assert(ls[0] == entry_line(entries[0]));
        assert(ls.drop_first() =~~= entries.drop_first().map_values(
            |e: ManifestEntryV| entry_line(e),
        ));
        assert(decode_lines(ls).0 =~= entries);
    }
}

/// A manifest of well-formed entries survives the trip through its
/// text unchanged, with no line skipped: the persisted form and the
/// in-memory form carry the same information.
pub proof fn lemma_manifest_round_trip(entries: Seq<ManifestEntryV>)
    requires
        forall|i: int| 0 <= i < entries.len() ==> entry_wf(#[trigger] entries[i]),
    ensures
        spec_decode_manifest(manifest_text(entries)).0 == entries,
        spec_decode_manifest(manifest_text(entries)).1 == 0,
{
    let t = manifest_text(entries);
    lemma_header_plain();
    lemma_lines_text_split(entries);
    lemma_split_prefix(manifest_header(), lines_text(entries), '\n');
    assert(t =~= manifest_header() + seq!['\n'] + lines_text(entries));
    let parts = split_on(t, '\n');
    assert(parts =~~= seq![manifest_header()] + (entries.map_values(
        |e: ManifestEntryV| entry_line(e),
    ) + seq![Seq::<char>::empty()]));
    if entries.len() == 0 {
        assert(t.last() == '\n');
    } else {
        lemma_lines_text_last(entries);
        assert(t.last() == lines_text(entries).last());
    }
    let ls = text_lines(t);
    assert(ls =~~= parts.drop_last());
    assert(ls =~~= seq![manifest_header()] + entries.map_values(
        |e: ManifestEntryV| entry_line(e),
    ));
    assert(ls.len() > 0);
    assert(ls.drop_first() =~~= entries.map_values(|e: ManifestEntryV| entry_line(e)));
    lemma_decode_good_lines(entries);
}

/// A suffixed key splits cleanly on its hash mark.
proof fn lemma_suffixed_round_trip(dh: Seq<char>, mark: Seq<char>, dn: Seq<char>)
    requires
        is_dec_string(dh),
        is_dec_string(dn),
        !dh.contains('#'),
        !mark.contains('#'),
        !dn.contains('#'),
        dec_val(dh) <= u64::MAX,
        dec_val(dn) <= u64::MAX,
    ensures
        spec_parse_suffixed(dh + seq!['#'] + (mark + dn), mark) == Some(
            (dec_val(dh) as u64, dec_val(dn) as u64),
        ),
{
    let tail = mark + dn;
    assert(!tail.contains('#')) by {
        assert(forall|i: int| 0 <= i < tail.len() ==> #[trigger] tail[i] != '#');
    }
    lemma_split_prefix(dh, tail, '#');
    lemma_split_single(tail, '#');
    let ps = split_on(dh + seq!['#'] + tail, '#');
    assert(ps =~~= seq![dh] + seq![tail]);
    assert(ps.len() == 2);
    assert(ps[0] == dh);
    assert(ps[1] == tail);
    assert(tail.len() > mark.len());
    assert(tail.subrange(0, mark.len() as int) =~= mark);
    assert(tail.skip(mark.len() as int) =~= dn);
}

} // verus!
