//! The text file of bicliques: one biclique per line, its `from` side and its `to`
//! side separated by `-`, each side a list of 1-based node ids separated by spaces.

use vstd::prelude::*;
use vstd::string::StringSliceAdditionalSpecFns;
use crate::biclique::Bicliques;
use crate::cecilia::lists_view;
use crate::text::{
    decimal, find_byte, find_from, lemma_decimal_field, lemma_find_from, lemma_lines_unfold, lemma_parse_prefix,
    lemma_split_at, lemma_split_bounds, lemma_split_prefix, lemma_split_two, lemma_split_unfold,
    lemma_lines_count, lemma_trim_prefix, line_ranges, lines, newlines_from, parse_bounded, parse_decimal, split_ranges, trim_range,
    trimmed,
};

verus! {

/// Why a biclique file cannot be read.
#[derive(Debug, Clone, Copy, PartialEq, Eq, Structural)]
pub enum CliqueError {
    /// A token is not an unsigned 32-bit number.
    InvalidNumber,
    /// A node id is 0; ids are 1-based.
    ZeroNode,
    /// A line does not hold exactly one `-`.
    MalformedLine,
}

/// One token of a space-separated list, added to the 0-based ids read so far.
pub open spec fn spacelist_step(s: Seq<u8>, acc: Result<Seq<u32>, CliqueError>, tok: (int, int)) -> Result<Seq<u32>, CliqueError> {
    match acc {
        Err(e) => Err(e),
        Ok(ids) => {
            let (p, q) = trimmed(s, tok.0, tok.1);
            if p == q {
                Ok(ids)
            } else {
                match parse_bounded(s, p, q, u32::MAX as nat) {
                    None => Err(CliqueError::InvalidNumber),
                    Some(x) => if x == 0 { Err(CliqueError::ZeroNode) } else { Ok(ids.push((x - 1) as u32)) },
                }
            }
        },
    }
}

/// The ids of a sequence of tokens, or the first error.
pub open spec fn spacelist_fold(s: Seq<u8>, toks: Seq<(int, int)>) -> Result<Seq<u32>, CliqueError>
    decreases toks.len(),
{
    if toks.len() == 0 {
        Ok(Seq::empty())
    } else {
        spacelist_step(s, spacelist_fold(s, toks.drop_last()), toks.last())
    }
}

/// The 0-based ids of the list `s[lo..hi]`: its fields between single spaces, without
/// white space around them; empty fields are skipped, every other one must be a 1-based id.
pub open spec fn spacelist_spec(s: Seq<u8>, lo: int, hi: int) -> Result<Seq<u32>, CliqueError> {
    spacelist_fold(s, split_ranges(s, 32, lo, hi))
}

proof fn lemma_spacelist_error(s: Seq<u8>, a: Seq<(int, int)>, b: Seq<(int, int)>)
    requires
        spacelist_fold(s, a) is Err,
    ensures
        spacelist_fold(s, a + b) == spacelist_fold(s, a),
    decreases b.len(),
{
    if b.len() == 0 {
        assert(a + b =~= a);
    } else {
        assert((a + b).drop_last() =~= a + b.drop_last());
        lemma_spacelist_error(s, a, b.drop_last());
    }
}

/// The 0-based ids of the space-separated list `s[lo..hi]`.
pub fn spacelist_range(s: &[u8], lo: usize, hi: usize) -> (res: Result<Vec<u32>, CliqueError>)
    requires
        lo <= hi <= s@.len(),
    ensures
        match (res, spacelist_spec(s@, lo as int, hi as int)) {
            (Ok(v), Ok(w)) => v@ == w,
            (Err(e), Err(f)) => e == f,
            _ => false,
        },
{
    let ghost all = split_ranges(s@, 32, lo as int, hi as int);
    let ghost mut done: Seq<(int, int)> = Seq::empty();
    let mut ids: Vec<u32> = Vec::new();
    let mut i = lo;
    loop
        invariant
            lo <= i <= hi,
            hi <= s@.len(),
            all == split_ranges(s@, 32, lo as int, hi as int),
            all == done + split_ranges(s@, 32, i as int, hi as int),
            spacelist_fold(s@, done) == Ok::<Seq<u32>, CliqueError>(ids@),
        decreases hi - i,
    {
        let j = find_byte(s, 32, i, hi);
        proof { lemma_split_unfold(s@, 32, i as int, hi as int); }
        let ghost tok = (i as int, j as int);
        let ghost next = done.push(tok);
        assert(next.drop_last() =~= done);
        let (p, q) = trim_range(s, i, j);
        if p < q {
            match parse_decimal(s, p, q, u32::MAX as u64) {
                None => {
                    proof { lemma_spacelist_error(s@, next, all.subrange(next.len() as int, all.len() as int)); }
                    assert(all =~= next + all.subrange(next.len() as int, all.len() as int));
                    return Err(CliqueError::InvalidNumber);
                },
                Some(x) => {
                    if x == 0 {
                        proof { lemma_spacelist_error(s@, next, all.subrange(next.len() as int, all.len() as int)); }
                        assert(all =~= next + all.subrange(next.len() as int, all.len() as int));
                        return Err(CliqueError::ZeroNode);
                    }
                    ids.push((x - 1) as u32);
                },
            }
        }
        proof { done = next; }
        if j >= hi {
            assert(all =~= done);
            return Ok(ids);
        }
        assert(all =~= done + split_ranges(s@, 32, j + 1, hi as int));
        i = j + 1;
    }
}

/// The 0-based ids of a space-separated list of 1-based node ids. Every non-empty
/// field must be a 1-based id; `spacelist_range` tells whether the line is such a list.
pub fn spacelist2intarray(line: &str) -> (ids: Vec<u32>)
    requires
        spacelist_spec(line.spec_bytes(), 0, line.spec_bytes().len() as int) is Ok,
    ensures
        ids@ == spacelist_spec(line.spec_bytes(), 0, line.spec_bytes().len() as int)->Ok_0,
{
    let bytes = line.as_bytes();
    spacelist_range(bytes, 0, bytes.len()).unwrap()
}


/// The ids of two lists, one after the other, or the first error.
pub open spec fn spacelist_join(a: Result<Seq<u32>, CliqueError>, b: Result<Seq<u32>, CliqueError>) -> Result<Seq<u32>, CliqueError> {
    match a {
        Err(e) => Err(e),
        Ok(x) => match b {
            Err(e) => Err(e),
            Ok(y) => Ok(x + y),
        },
    }
}

proof fn lemma_spacelist_fold_concat(s: Seq<u8>, a: Seq<(int, int)>, b: Seq<(int, int)>)
    ensures
        spacelist_fold(s, a + b) == spacelist_join(spacelist_fold(s, a), spacelist_fold(s, b)),
    decreases b.len(),
{
    if b.len() == 0 {
        assert(a + b =~= a);
        if let Ok(x) = spacelist_fold(s, a) {
            assert(x + Seq::<u32>::empty() =~= x);
        }
    } else {
        assert((a + b).drop_last() =~= a + b.drop_last());
        assert((a + b).last() == b.last());
        lemma_spacelist_fold_concat(s, a, b.drop_last());
        if let (Ok(x), Ok(y)) = (spacelist_fold(s, a), spacelist_fold(s, b.drop_last())) {
            if let Ok(z) = spacelist_step(s, Ok(y), b.last()) {
                if z != y {
                    let v = z.last();
                    assert(z == y.push(v));
                    assert((x + y).push(v) =~= x + y.push(v));
                }
            }
        }
    }
}

/// A list cut at one of its spaces: the ids of the whole are the ids before the space,
/// then those after it, or the first error.
pub proof fn lemma_spacelist_concat(s: Seq<u8>, lo: int, m: int, hi: int)
    requires
        0 <= lo <= m < hi <= s.len(),
        s[m] == 32,
    ensures
        spacelist_spec(s, lo, hi) == spacelist_join(spacelist_spec(s, lo, m), spacelist_spec(s, m + 1, hi)),
{
    lemma_split_at(s, 32, lo, m, hi);
    lemma_spacelist_fold_concat(s, split_ranges(s, 32, lo, m), split_ranges(s, 32, m + 1, hi));
}

/// The 0-based ids `ids` written as a list of 1-based decimal ids, one space between two.
pub open spec fn spacelist_text(ids: Seq<u32>) -> Seq<u8>
    decreases ids.len(),
{
    if ids.len() == 0 {
        Seq::empty()
    } else if ids.len() == 1 {
        decimal((ids[0] + 1) as nat)
    } else {
        spacelist_text(ids.drop_last()) + seq![32u8] + decimal((ids.last() + 1) as nat)
    }
}

/// The tokens of `s`, read at the end of `s + x`, give what they give in `s`.
proof fn lemma_spacelist_fold_prefix(s: Seq<u8>, x: Seq<u8>, toks: Seq<(int, int)>)
    requires
        forall|k: int| 0 <= k < toks.len() ==> 0 <= (#[trigger] toks[k]).0 <= toks[k].1 <= s.len(),
    ensures
        spacelist_fold(s + x, toks) == spacelist_fold(s, toks),
    decreases toks.len(),
{
    if toks.len() > 0 {
        let tok = toks.last();
        assert(tok == toks[toks.len() - 1]);
        lemma_spacelist_fold_prefix(s, x, toks.drop_last());
        lemma_trim_prefix(s, x, tok.0, tok.1);
        let (p, q) = trimmed(s, tok.0, tok.1);
        lemma_parse_prefix(s, x, p, q);
    }
}

/// A list read at the start of a longer text gives what it gives alone.
proof fn lemma_spacelist_prefix(s: Seq<u8>, x: Seq<u8>)
    ensures
        spacelist_spec(s + x, 0, s.len() as int) == spacelist_spec(s, 0, s.len() as int),
{
    lemma_split_prefix(s, x, 32, 0, s.len() as int);
    lemma_split_bounds(s, 32, 0, s.len() as int);
    let toks = split_ranges(s, 32, 0, s.len() as int);
    assert forall|k: int| 0 <= k < toks.len() implies 0 <= (#[trigger] toks[k]).0 <= toks[k].1 <= s.len() by {}
    lemma_spacelist_fold_prefix(s, x, toks);
}

/// One 1-based id in decimal at the end of `t` reads back as the 0-based id.
proof fn lemma_spacelist_last(t: Seq<u8>, o: int, n: nat)
    requires
        0 <= o <= t.len(),
        t.subrange(o, t.len() as int) == decimal(n),
        1 <= n <= u32::MAX,
    ensures
        spacelist_spec(t, o, t.len() as int) == Ok::<Seq<u32>, CliqueError>(seq![(n - 1) as u32]),
{
    let hi = t.len() as int;
    lemma_decimal_field(t, o, n);
    lemma_find_from(t, 32, o, hi);
    let toks = split_ranges(t, 32, o, hi);
    assert(find_from(t, 32, o, hi) == hi);
    assert(toks == seq![(o, hi)]);
    assert(toks.drop_last() =~= Seq::<(int, int)>::empty());
    assert(spacelist_fold(t, toks.drop_last()) == Ok::<Seq<u32>, CliqueError>(Seq::empty()));
    assert(parse_bounded(t, o, hi, u32::MAX as nat) == Some(n));
    assert(spacelist_step(t, Ok(Seq::empty()), (o, hi)) == Ok::<Seq<u32>, CliqueError>(Seq::<u32>::empty().push((n - 1) as u32)));
    assert(Seq::<u32>::empty().push((n - 1) as u32) =~= seq![(n - 1) as u32]);
}

/// Writing 0-based ids below `u32::MAX` as a list of 1-based decimal ids and reading it
/// back gives the ids.
pub proof fn lemma_spacelist_roundtrip(ids: Seq<u32>)
    requires
        forall|k: int| 0 <= k < ids.len() ==> #[trigger] ids[k] < u32::MAX,
    ensures
        spacelist_spec(spacelist_text(ids), 0, spacelist_text(ids).len() as int) == Ok::<Seq<u32>, CliqueError>(ids),
    decreases ids.len(),
{
    let t = spacelist_text(ids);
    if ids.len() == 0 {
        let toks = split_ranges(t, 32, 0, 0);
        assert(toks == seq![(0int, 0int)]);
        assert(toks.drop_last() =~= Seq::<(int, int)>::empty());
        assert(trimmed(t, 0, 0) == (0int, 0int));
        assert(toks.last() == (0int, 0int));
        assert(spacelist_fold(t, toks.drop_last()) == Ok::<Seq<u32>, CliqueError>(Seq::empty()));
        assert(spacelist_fold(t, toks) == spacelist_step(t, Ok(Seq::empty()), (0int, 0int)));
        assert(Seq::<u32>::empty() =~= ids);
    } else if ids.len() == 1 {
        assert(t.subrange(0, t.len() as int) =~= t);
        lemma_spacelist_last(t, 0, (ids[0] + 1) as nat);
        assert(seq![ids[0]] =~= ids);
    } else {
        let front = ids.drop_last();
        let f = spacelist_text(front);
        let d = decimal((ids.last() + 1) as nat);
        let x = seq![32u8] + d;
        let m = f.len() as int;
        assert(t =~= f + x);
        assert forall|k: int| 0 <= k < front.len() implies #[trigger] front[k] < u32::MAX by {
            assert(front[k] == ids[k]);
        }
        lemma_spacelist_roundtrip(front);
        lemma_spacelist_prefix(f, x);
        assert(spacelist_spec(t, 0, m) == Ok::<Seq<u32>, CliqueError>(front));
        assert(t[m] == 32);
        assert(t.subrange(m + 1, t.len() as int) =~= d);
        lemma_spacelist_last(t, m + 1, (ids.last() + 1) as nat);
        assert(spacelist_spec(t, m + 1, t.len() as int) == Ok::<Seq<u32>, CliqueError>(seq![ids.last()]));
        lemma_spacelist_concat(t, 0, m, t.len() as int);
        assert(front + seq![ids.last()] =~= ids);
    }
}

/// One line of a biclique file: its `from` side and its `to` side.
pub open spec fn clique_line(s: Seq<u8>, l: (int, int)) -> Result<(Seq<u32>, Seq<u32>), CliqueError> {
    let parts = split_ranges(s, 45, l.0, l.1);
    if parts.len() != 2 {
        Err(CliqueError::MalformedLine)
    } else {
        match spacelist_spec(s, parts[0].0, parts[0].1) {
            Err(e) => Err(e),
            Ok(f) => match spacelist_spec(s, parts[1].0, parts[1].1) {
                Err(e) => Err(e),
                Ok(t) => Ok((f, t)),
            },
        }
    }
}

/// The bicliques of a sequence of lines, or the first error.
pub open spec fn cliques_fold(s: Seq<u8>, ls: Seq<(int, int)>) -> Result<(Seq<Seq<u32>>, Seq<Seq<u32>>), CliqueError>
    decreases ls.len(),
{
    if ls.len() == 0 {
        Ok((Seq::empty(), Seq::empty()))
    } else {
        match cliques_fold(s, ls.drop_last()) {
            Err(e) => Err(e),
            Ok((fs, ts)) => match clique_line(s, ls.last()) {
                Err(e) => Err(e),
                Ok((f, t)) => Ok((fs.push(f), ts.push(t))),
            },
        }
    }
}

/// The bicliques of a biclique file: one per line.
pub open spec fn cliques_spec(s: Seq<u8>) -> Result<(Seq<Seq<u32>>, Seq<Seq<u32>>), CliqueError> {
    cliques_fold(s, lines(s))
}

proof fn lemma_cliques_error(s: Seq<u8>, a: Seq<(int, int)>, b: Seq<(int, int)>)
    requires
        cliques_fold(s, a) is Err,
    ensures
        cliques_fold(s, a + b) == cliques_fold(s, a),
    decreases b.len(),
{
    if b.len() == 0 {
        assert(a + b =~= a);
    } else {
        assert((a + b).drop_last() =~= a + b.drop_last());
        lemma_cliques_error(s, a, b.drop_last());
    }
}

/// Every id read from a list is below `u32::MAX`.
proof fn lemma_spacelist_bounded(s: Seq<u8>, toks: Seq<(int, int)>)
    ensures
        spacelist_fold(s, toks) matches Ok(ids) ==> forall|k: int| 0 <= k < ids.len() ==> #[trigger] ids[k] < u32::MAX,
    decreases toks.len(),
{
    if toks.len() > 0 {
        lemma_spacelist_bounded(s, toks.drop_last());
    }
}

/// The bicliques read have both sides each, and every id is below `u32::MAX`.
proof fn lemma_cliques_bounded(s: Seq<u8>, ls: Seq<(int, int)>)
    ensures
        cliques_fold(s, ls) matches Ok((fs, ts)) ==> fs.len() == ts.len()
            && forall|b: int, k: int| 0 <= b < fs.len() && 0 <= k < fs[b].len() ==> #[trigger] fs[b][k] < u32::MAX,
    decreases ls.len(),
{
    if ls.len() > 0 {
        lemma_cliques_bounded(s, ls.drop_last());
        let parts = split_ranges(s, 45, ls.last().0, ls.last().1);
        if parts.len() == 2 {
            lemma_spacelist_bounded(s, split_ranges(s, 32, parts[0].0, parts[0].1));
        }
    }
}

fn push_list(lists: &mut Vec<Vec<u32>>, v: Vec<u32>)
    ensures
        lists_view(final(lists)) == lists_view(old(lists)).push(v@),
{
    lists.push(v);
    assert(lists_view(lists) =~= lists_view(old(lists)).push(v@));
}

fn parse_clique_line(s: &[u8], a: usize, e: usize) -> (res: Result<(Vec<u32>, Vec<u32>), CliqueError>)
    requires
        a <= e <= s@.len(),
    ensures
        match (res, clique_line(s@, (a as int, e as int))) {
            (Ok((f, t)), Ok((f2, t2))) => f@ == f2 && t@ == t2,
            (Err(x), Err(y)) => x == y,
            _ => false,
        },
{
    let j1 = find_byte(s, 45, a, e);
    let j2 = if j1 < e { find_byte(s, 45, j1 + 1, e) } else { e };
    proof { lemma_split_two(s@, 45, a as int, e as int); }
    if j1 >= e || j2 < e {
        return Err(CliqueError::MalformedLine);
    }
    let f = spacelist_range(s, a, j1)?;
    let t = spacelist_range(s, j1 + 1, e)?;
    Ok((f, t))
}

/// Reads a biclique file, or tells the first reason why it cannot be read.
pub fn try_parse_bicliques(text: &str) -> (res: Result<Bicliques, CliqueError>)
    ensures
        match (res, cliques_spec(text.spec_bytes())) {
            (Ok(b), Ok((fs, ts))) => {
                &&& b.from_lists() == fs
                &&& b.to_lists() == ts
                &&& b.wf()
                &&& forall|i: int, k: int| 0 <= i < fs.len() && 0 <= k < fs[i].len() ==> #[trigger] fs[i][k] < u32::MAX
            },
            (Err(e), Err(f)) => e == f,
            _ => false,
        },
{
    let s = text.as_bytes();
    let n = s.len();
    let ghost all = lines(s@);
    let ghost mut done: Seq<(int, int)> = Seq::empty();
    let mut from: Vec<Vec<u32>> = Vec::new();
    let mut to: Vec<Vec<u32>> = Vec::new();
    assert(lists_view(&from) =~= Seq::<Seq<u32>>::empty());
    assert(lists_view(&to) =~= Seq::<Seq<u32>>::empty());
    let mut i: usize = 0;
    proof { lemma_cliques_bounded(s@, all); }
    while i < n
        invariant
            s@ == text.spec_bytes(),
            n == s@.len(),
            0 <= i <= n,
            all == lines(s@),
            all == done + line_ranges(s@, i as int),
            cliques_fold(s@, done) == Ok::<(Seq<Seq<u32>>, Seq<Seq<u32>>), CliqueError>((lists_view(&from), lists_view(&to))),
        decreases n - i,
    {
        let j = find_byte(s, 10, i, n);
        proof { lemma_lines_unfold(s@, i as int); }
        let e = if j < n && j > i && s[j - 1] == 13 { j - 1 } else { j };
        let ghost l = (i as int, e as int);
        let ghost next = done.push(l);
        let ghost rest = if j < n { line_ranges(s@, j + 1) } else { Seq::<(int, int)>::empty() };
        assert(line_ranges(s@, i as int) == seq![l] + rest);
        assert(all =~= next + rest);
        assert(next.drop_last() =~= done);
        match parse_clique_line(s, i, e) {
            Err(err) => {
                proof { lemma_cliques_error(s@, next, rest); }
                return Err(err);
            },
            Ok((f, t)) => {
                push_list(&mut from, f);
                push_list(&mut to, t);
            },
        }
        proof { done = next; }
        i = if j < n { j + 1 } else { n };
    }
    assert(done =~= all);
    Ok(Bicliques { from, to })
}


proof fn lemma_cliques_fold_len(s: Seq<u8>, ls: Seq<(int, int)>)
    ensures
        cliques_fold(s, ls) matches Ok((fs, ts)) ==> fs.len() == ls.len() && ts.len() == ls.len(),
    decreases ls.len(),
{
    if ls.len() > 0 {
        lemma_cliques_fold_len(s, ls.drop_last());
    }
}

/// Law: a biclique file read without error gives one biclique per line, the last line
/// included whether or not a newline ends it: as many as the text has newlines, plus
/// one where it does not end with a newline.
pub proof fn lemma_bicliques_one_per_line(s: Seq<u8>)
    ensures
        cliques_spec(s) matches Ok((fs, ts)) ==> fs.len() == lines(s).len() && ts.len() == lines(s).len()
            && fs.len() == newlines_from(s, 0) + (if s.len() > 0 && s[s.len() - 1] != 10 { 1nat } else { 0nat }),
{
    lemma_cliques_fold_len(s, lines(s));
    lemma_lines_count(s);
}

/// Reads a biclique file; it must be readable (`try_parse_bicliques` tells).
pub fn parse_bicliques(text: &str) -> (b: Bicliques)
    requires
        cliques_spec(text.spec_bytes()) is Ok,
    ensures
        ({
            let (fs, ts) = cliques_spec(text.spec_bytes())->Ok_0;
            &&& b.from_lists() == fs
            &&& b.to_lists() == ts
            &&& b.wf()
            &&& forall|i: int, k: int| 0 <= i < fs.len() && 0 <= k < fs[i].len() ==> #[trigger] fs[i][k] < u32::MAX
        }),
{
    try_parse_bicliques(text).unwrap()
}

} // verus!
