//! Splitting and joining text.
//!
//! Manifests are line-oriented and their lines are comma-delimited;
//! ignore files are line-delimited pattern lists. This module gives the
//! split and join operations those formats rest on, together with the
//! laws that make encode and decode inverses: joining what a split
//! produced restores the text, and splitting around a separator-free
//! prefix peels off exactly that prefix.

use vstd::prelude::*;

verus! {

/// Split a sequence on every occurrence of `c`. The result always has
/// one more part than there are separators; parts may be empty.
pub open spec fn split_on(s: Seq<char>, c: char) -> Seq<Seq<char>>
    decreases s.len(),
{
    if s.len() == 0 {
        seq![Seq::<char>::empty()]
    } else if s[0] == c {
        seq![Seq::<char>::empty()] + split_on(s.drop_first(), c)
    } else {
        let rest = split_on(s.drop_first(), c);
        seq![seq![s[0]] + rest[0]] + rest.drop_first()
    }
}

/// Join parts with `c` between neighbours.
pub open spec fn join_with(parts: Seq<Seq<char>>, c: char) -> Seq<char>
    decreases parts.len(),
{
    if parts.len() == 0 {
        Seq::<char>::empty()
    } else if parts.len() == 1 {
        parts[0]
    } else {
        parts[0] + seq![c] + join_with(parts.drop_first(), c)
    }
}

/// The lines of a text, as a line reader yields them: a trailing
/// newline ends the last line rather than opening an empty one, and an
/// empty text has no lines.
pub open spec fn text_lines(s: Seq<char>) -> Seq<Seq<char>> {
    if s.len() == 0 {
        Seq::<Seq<char>>::empty()
    } else if s.last() == '\n' {
        split_on(s, '\n').drop_last()
    } else {
        split_on(s, '\n')
    }
}

/// A split never comes back empty.
pub proof fn lemma_split_len(s: Seq<char>, c: char)
    ensures
        split_on(s, c).len() >= 1,
    decreases s.len(),
{
    if s.len() != 0 {
        lemma_split_len(s.drop_first(), c);
    }
}

/// Splitting a separator-free sequence yields that sequence alone.
pub proof fn lemma_split_single(s: Seq<char>, c: char)
    requires
        !s.contains(c),
    ensures
        split_on(s, c) =~~= seq![s],
    decreases s.len(),
{
    if s.len() != 0 {
        assert(s[0] != c);
        assert(!s.drop_first().contains(c)) by {
            assert(forall|i: int|
                0 <= i < s.drop_first().len() ==> s.drop_first()[i] == s[i + 1]);
        }
        lemma_split_single(s.drop_first(), c);
        assert(seq![s[0]] + s.drop_first() =~= s);
    }
}

/// Splitting text that opens with a separator-free prefix and one
/// separator peels off exactly that prefix.
pub proof fn lemma_split_prefix(p: Seq<char>, tail: Seq<char>, c: char)
    requires
        !p.contains(c),
    ensures
        split_on(p + seq![c] + tail, c) =~~= seq![p] + split_on(tail, c),
    decreases p.len(),
{
    let s = p + seq![c] + tail;
    if p.len() == 0 {
        assert(s[0] == c);
        assert(s.drop_first() =~= tail);
    } else {
        assert(s[0] == p[0]);
        assert(s[0] != c);
        assert(!p.drop_first().contains(c)) by {
            assert(forall|i: int|
                0 <= i < p.drop_first().len() ==> p.drop_first()[i] == p[i + 1]);
        }
        lemma_split_prefix(p.drop_first(), tail, c);
        assert(s.drop_first() =~= p.drop_first() + seq![c] + tail);
        let rest = split_on(s.drop_first(), c);
        assert(rest =~~= seq![p.drop_first()] + split_on(tail, c));
        lemma_split_len(tail, c);
        assert(rest[0] == p.drop_first());
        assert(seq![s[0]] + rest[0] =~= p);
        assert(rest.drop_first() =~~= split_on(tail, c));
    }
}

/// Joining the parts of a split restores the text, whatever it held.
pub proof fn lemma_join_split(s: Seq<char>, c: char)
    ensures
        join_with(split_on(s, c), c) =~= s,
    decreases s.len(),
{
    if s.len() == 0 {
    } else if s[0] == c {
        lemma_join_split(s.drop_first(), c);
        lemma_split_len(s.drop_first(), c);
        let rest = split_on(s.drop_first(), c);
        let whole = seq![Seq::<char>::empty()] + rest;
        assert(whole.len() > 1);
        assert(whole.drop_first() =~~= rest);
        assert(join_with(whole, c) == whole[0] + seq![c] + join_with(rest, c));
        assert(whole[0] + seq![c] + join_with(rest, c) =~= seq![c] + s.drop_first());
        assert(seq![c] + s.drop_first() =~= s);
    } else {
        lemma_join_split(s.drop_first(), c);
        let rest = split_on(s.drop_first(), c);
        lemma_split_len(s.drop_first(), c);
        let whole = seq![seq![s[0]] + rest[0]] + rest.drop_first();
        if rest.len() == 1 {
            assert(whole.len() == 1);
            assert(join_with(whole, c) == seq![s[0]] + rest[0]);
            assert(join_with(rest, c) == rest[0]);
            assert(seq![s[0]] + rest[0] =~= seq![s[0]] + s.drop_first());
            assert(seq![s[0]] + s.drop_first() =~= s);
        } else {
            assert(whole.len() > 1);
            assert(whole[0] == seq![s[0]] + rest[0]);
            assert(whole.drop_first() =~~= rest.drop_first());
            assert(join_with(whole, c) == seq![s[0]] + rest[0] + seq![c] + join_with(
                rest.drop_first(),
                c,
            ));
            assert(join_with(rest, c) == rest[0] + seq![c] + join_with(rest.drop_first(), c));
            assert(seq![s[0]] + rest[0] + seq![c] + join_with(rest.drop_first(), c) =~= seq![s[0]]
                + join_with(rest, c));
            assert(seq![s[0]] + s.drop_first() =~= s);
        }
    }
}

/// Whether two string slices hold the same characters.
pub fn str_eq(a: &str, b: &str) -> (r: bool)
    ensures
        r == (a@ == b@),
{
    a.to_owned() == b.to_owned()
}

/// Split a string on every occurrence of `c`.
pub fn split_str(s: &str, c: char) -> (r: Vec<String>)
    ensures
        r@.map_values(|p: String| p@) =~~= split_on(s@, c),
{
    let n = s.unicode_len();
    let mut parts: Vec<String> = Vec::new();
    let mut start: usize = 0;
    let mut i: usize = 0;
    proof {
        assert(s@.subrange(0, n as int) =~= s@);
        assert(parts@.map_values(|p: String| p@) =~= Seq::<Seq<char>>::empty());
    }
    while i < n
        invariant
            n == s@.len(),
            0 <= start <= i <= n,
            split_on(s@, c) =~~= parts@.map_values(|p: String| p@) + split_on(
                s@.subrange(start as int, n as int),
                c,
            ),
            forall|k: int| start <= k < i ==> s@[k] != c,
        decreases n - i,
    {
        if s.get_char(i) == c {
            let part = s.substring_char(start, i).to_owned();
            proof {
                let clean = s@.subrange(start as int, i as int);
                let tail = s@.subrange(i + 1, n as int);
                assert(!clean.contains(c));
                assert(s@.subrange(start as int, n as int) =~= clean + seq![c] + tail);
                lemma_split_prefix(clean, tail, c);
            }
            let ghost prev = parts@;
            parts.push(part);
            proof {
                assert(parts@.map_values(|p: String| p@) =~= prev.map_values(|p: String| p@)
                    + seq![s@.subrange(start as int, i as int)]);
            }
            start = i + 1;
        }
        i = i + 1;
    }
    let last = s.substring_char(start, n).to_owned();
    proof {
        let clean = s@.subrange(start as int, n as int);
        assert(!clean.contains(c));
        lemma_split_single(clean, c);
    }
    let ghost prev = parts@;
    parts.push(last);
    proof {
        assert(parts@.map_values(|p: String| p@) =~= prev.map_values(|p: String| p@) + seq![
            s@.subrange(start as int, n as int),
        ]);
    }
    parts
}

/// Join parts with `sep` between neighbours, starting at `from`.
pub fn join_from(parts: &Vec<String>, from: usize, sep: &str) -> (r: String)
    requires
        from <= parts@.len(),
        sep@.len() == 1,
    ensures
        r@ == join_with(parts@.map_values(|p: String| p@).skip(from as int), sep@[0]),
    decreases parts@.len() - from,
{
    let n = parts.len();
    if from == n {
        String::new()
    } else if from == n - 1 {
        let r = parts[from].clone();
        proof {
            assert(parts@.map_values(|p: String| p@).skip(from as int) =~= seq![parts@[from as int]@]);
        }
        r
    } else {
        let mut r = parts[from].clone();
        r.append(sep);
        let rest = join_from(parts, from + 1, sep);
        r.append(rest.as_str());
        proof {
            let views = parts@.map_values(|p: String| p@);
            assert(views.skip(from as int).drop_first() =~= views.skip(from + 1));
            assert(views.skip(from as int)[0] == parts@[from as int]@);
            assert(r@ =~= join_with(views.skip(from as int), sep@[0]));
        }
        r
    }
}

/// The lines of a text, as `text_lines` describes them.
pub fn lines_vec(s: &str) -> (r: Vec<String>)
    ensures
        r@.map_values(|p: String| p@) =~~= text_lines(s@),
{
    let n = s.unicode_len();
    if n == 0 {
        return Vec::new();
    }
    let mut parts = split_str(s, '\n');
    if s.get_char(n - 1) == '\n' {
        proof {
            lemma_split_len(s@, '\n');
            lemma_last_empty(s@);
        }
        let ghost prev = parts@;
        let _ = parts.pop();
        proof {
            assert(parts@ =~= prev.drop_last());
            assert(parts@.map_values(|p: String| p@) =~~= prev.map_values(
                |p: String| p@,
            ).drop_last());
        }
    }
    parts
}

/// A text that ends in a separator splits into parts whose last part is
/// empty.
proof fn lemma_last_empty(s: Seq<char>)
    requires
        s.len() > 0,
        s.last() == '\n',
    ensures
        split_on(s, '\n').last() =~= Seq::<char>::empty(),
        split_on(s, '\n').len() > 1,
    decreases s.len(),
{
    lemma_split_len(s.drop_first(), '\n');
    if s.len() == 1 {
        assert(s[0] == '\n');
        assert(split_on(s.drop_first(), '\n') =~~= seq![Seq::<char>::empty()]);
    } else {
        assert(s.drop_first().last() == s.last());
        lemma_last_empty(s.drop_first());
        let rest = split_on(s.drop_first(), '\n');
        if s[0] == '\n' {
            assert(split_on(s, '\n').last() == rest.last());
        } else {
            assert(rest.len() > 1);
            let whole = seq![seq![s[0]] + rest[0]] + rest.drop_first();
            assert(whole.last() == rest.last());
        }
    }
}

} // verus!
