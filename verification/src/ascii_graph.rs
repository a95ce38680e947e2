//! Reading an ASCIIGraph text and writing it in the binary Cecilia format.
//!
//! The first line of an ASCIIGraph holds the number of nodes; line `i` after it holds
//! the 0-based neighbours of node `i - 1`, separated by single spaces. A node without
//! neighbours has an empty line.

use vstd::prelude::*;
use vstd::string::StringSliceAdditionalSpecFns;
use crate::cecilia::{decode_spec, lemma_cecilia_roundtrip, padded_lists, cecilia_bytes, encode_words, lists_view, marker_word, rows_words, stored_targets, total_len};
use crate::text::{
    find_byte, lemma_lines_unfold, lemma_split_unfold, line_ranges, lines, parse_bounded, parse_decimal,
    split_ranges, trim_range, trimmed,
};

verus! {

/// Why a text is not an ASCIIGraph that the binary format can hold.
#[derive(Debug, Clone, Copy, PartialEq, Eq, Structural)]
pub enum AsciiGraphError {
    /// The text has no line.
    MissingHeader,
    /// The first line is not an unsigned 32-bit number.
    InvalidHeader,
    /// A field of a non-empty line is not an unsigned 32-bit number (an empty field
    /// included).
    InvalidNumber,
    /// A neighbour is `u32::MAX - 1` or more, so that its stored field overflows.
    NumberTooLarge,
    /// There are `2^31` lists or more, so that a node marker overflows.
    TooManyLines,
    /// The lists hold `u32::MAX` neighbours or more, which the header cannot count.
    TooManyEdges,
}

/// An ASCIIGraph: the number of nodes that the first line states, and the lists.
pub struct AsciiGraph {
    pub num_nodes: u32,
    pub rows: Vec<Vec<u32>>,
}

/// One field of a list, added to the neighbours read so far.
pub open spec fn ascii_row_step(s: Seq<u8>, acc: Result<Seq<u32>, AsciiGraphError>, tok: (int, int)) -> Result<Seq<u32>, AsciiGraphError> {
    match acc {
        Err(e) => Err(e),
        Ok(row) => {
            let (p, q) = trimmed(s, tok.0, tok.1);
            match parse_bounded(s, p, q, u32::MAX as nat) {
                None => Err(AsciiGraphError::InvalidNumber),
                Some(x) => if x >= u32::MAX - 1 { Err(AsciiGraphError::NumberTooLarge) } else { Ok(row.push(x as u32)) },
            }
        },
    }
}

/// The neighbours of a sequence of fields, or the first error.
pub open spec fn ascii_row_fold(s: Seq<u8>, toks: Seq<(int, int)>) -> Result<Seq<u32>, AsciiGraphError>
    decreases toks.len(),
{
    if toks.len() == 0 {
        Ok(Seq::empty())
    } else {
        ascii_row_step(s, ascii_row_fold(s, toks.drop_last()), toks.last())
    }
}

/// The neighbours on the line `l`: none where the line is empty, else its fields
/// between single spaces, each a number once white space around it is removed.
pub open spec fn ascii_row(s: Seq<u8>, l: (int, int)) -> Result<Seq<u32>, AsciiGraphError> {
    if l.0 == l.1 {
        Ok(Seq::empty())
    } else {
        ascii_row_fold(s, split_ranges(s, 32, l.0, l.1))
    }
}

/// The lists of a sequence of lines with the number of their neighbours, or the first error.
pub open spec fn ascii_body_fold(s: Seq<u8>, ls: Seq<(int, int)>) -> Result<(Seq<Seq<u32>>, nat), AsciiGraphError>
    decreases ls.len(),
{
    if ls.len() == 0 {
        Ok((Seq::empty(), 0))
    } else {
        match ascii_body_fold(s, ls.drop_last()) {
            Err(e) => Err(e),
            Ok((rows, edges)) => match ascii_line(s, rows.len(), edges, ls.last()) {
                Err(e) => Err(e),
                Ok(r) => Ok((rows.push(r), edges + r.len())),
            },
        }
    }
}

/// The list on line `l`, after `count` lists holding `edges` neighbours.
pub open spec fn ascii_line(s: Seq<u8>, count: nat, edges: nat, l: (int, int)) -> Result<Seq<u32>, AsciiGraphError> {
    if count + 1 >= 0x8000_0000 {
        Err(AsciiGraphError::TooManyLines)
    } else {
        match ascii_row(s, l) {
            Err(e) => Err(e),
            Ok(r) => if edges + r.len() >= u32::MAX { Err(AsciiGraphError::TooManyEdges) } else { Ok(r) },
        }
    }
}

/// What reading an ASCIIGraph text gives: the number of nodes of its first line (read
/// as it stands, without trimming) and the lists of the lines after it.
pub open spec fn ascii_spec(s: Seq<u8>) -> Result<(u32, Seq<Seq<u32>>), AsciiGraphError> {
    let ls = lines(s);
    if ls.len() == 0 {
        Err(AsciiGraphError::MissingHeader)
    } else {
        match parse_bounded(s, ls[0].0, ls[0].1, u32::MAX as nat) {
            None => Err(AsciiGraphError::InvalidHeader),
            Some(n) => match ascii_body_fold(s, ls.subrange(1, ls.len() as int)) {
                Err(e) => Err(e),
                Ok((rows, edges)) => Ok((n as u32, rows)),
            },
        }
    }
}

proof fn lemma_row_error(s: Seq<u8>, a: Seq<(int, int)>, b: Seq<(int, int)>)
    requires
        ascii_row_fold(s, a) is Err,
    ensures
        ascii_row_fold(s, a + b) == ascii_row_fold(s, a),
    decreases b.len(),
{
    if b.len() == 0 {
        assert(a + b =~= a);
    } else {
        assert((a + b).drop_last() =~= a + b.drop_last());
        lemma_row_error(s, a, b.drop_last());
    }
}

proof fn lemma_body_error(s: Seq<u8>, a: Seq<(int, int)>, b: Seq<(int, int)>)
    requires
        ascii_body_fold(s, a) is Err,
    ensures
        ascii_body_fold(s, a + b) == ascii_body_fold(s, a),
    decreases b.len(),
{
    if b.len() == 0 {
        assert(a + b =~= a);
    } else {
        assert((a + b).drop_last() =~= a + b.drop_last());
        lemma_body_error(s, a, b.drop_last());
    }
}

/// The lists read keep within what the binary format holds: fewer than `2^31` lists,
/// neighbours below `u32::MAX - 1`, and fewer than `u32::MAX` neighbours in all.
proof fn lemma_body_bounds(s: Seq<u8>, ls: Seq<(int, int)>)
    ensures
        ascii_body_fold(s, ls) matches Ok((rows, edges)) ==> {
            &&& rows.len() < 0x8000_0000
            &&& edges == total_len(rows)
            &&& edges < u32::MAX
            &&& forall|i: int, k: int| 0 <= i < rows.len() && 0 <= k < rows[i].len() ==> #[trigger] rows[i][k] < u32::MAX - 1
        },
    decreases ls.len(),
{
    if ls.len() > 0 {
        lemma_body_bounds(s, ls.drop_last());
        if let Ok((rows, edges)) = ascii_body_fold(s, ls.drop_last()) {
            lemma_row_bounds(s, split_ranges(s, 32, ls.last().0, ls.last().1));
            if let Ok((rows2, edges2)) = ascii_body_fold(s, ls) {
                assert(rows2.drop_last() =~= rows);
                assert forall|i: int, k: int| 0 <= i < rows2.len() && 0 <= k < rows2[i].len()
                    implies #[trigger] rows2[i][k] < u32::MAX - 1 by {
                    if i < rows.len() {
                        assert(rows2[i] == rows[i]);
                    }
                }
            }
        }
    }
}

proof fn lemma_row_bounds(s: Seq<u8>, toks: Seq<(int, int)>)
    ensures
        ascii_row_fold(s, toks) matches Ok(r) ==> forall|k: int| 0 <= k < r.len() ==> #[trigger] r[k] < u32::MAX - 1,
    decreases toks.len(),
{
    if toks.len() > 0 {
        lemma_row_bounds(s, toks.drop_last());
    }
}

/// The neighbours on the line `s[a..e]`.
fn parse_ascii_row(s: &[u8], a: usize, e: usize) -> (res: Result<Vec<u32>, AsciiGraphError>)
    requires
        a <= e <= s@.len(),
    ensures
        match (res, ascii_row(s@, (a as int, e as int))) {
            (Ok(v), Ok(w)) => v@ == w,
            (Err(x), Err(y)) => x == y,
            _ => false,
        },
{
    if a == e {
        return Ok(Vec::new());
    }
    let ghost all = split_ranges(s@, 32, a as int, e as int);
    let ghost mut done: Seq<(int, int)> = Seq::empty();
    let mut row: Vec<u32> = Vec::new();
    assert(ascii_row(s@, (a as int, e as int)) == ascii_row_fold(s@, all));
    let mut i = a;
    loop
        invariant
            a <= i <= e,
            e <= s@.len(),
            all == split_ranges(s@, 32, a as int, e as int),
            ascii_row(s@, (a as int, e as int)) == ascii_row_fold(s@, all),
            all == done + split_ranges(s@, 32, i as int, e as int),
            ascii_row_fold(s@, done) == Ok::<Seq<u32>, AsciiGraphError>(row@),
        decreases e - i,
    {
        let j = find_byte(s, 32, i, e);
        proof { lemma_split_unfold(s@, 32, i as int, e as int); }
        let ghost next = done.push((i as int, j as int));
        assert(next.drop_last() =~= done);
        let ghost rest = all.subrange(next.len() as int, all.len() as int);
        assert(all =~= next + rest);
        let (p, q) = trim_range(s, i, j);
        match parse_decimal(s, p, q, u32::MAX as u64) {
            None => {
                proof { lemma_row_error(s@, next, rest); }
                return Err(AsciiGraphError::InvalidNumber);
            },
            Some(x) => {
                if x >= (u32::MAX - 1) as u64 {
                    proof { lemma_row_error(s@, next, rest); }
                    return Err(AsciiGraphError::NumberTooLarge);
                }
                row.push(x as u32);
            },
        }
        proof { done = next; }
        if j >= e {
            assert(all =~= done);
            return Ok(row);
        }
        assert(all =~= done + split_ranges(s@, 32, j + 1, e as int));
        i = j + 1;
    }
}

fn parse_ascii_line(s: &[u8], count: usize, edges: u64, a: usize, e: usize) -> (res: Result<Vec<u32>, AsciiGraphError>)
    requires
        a <= e <= s@.len(),
        edges < u32::MAX,
    ensures
        match (res, ascii_line(s@, count as nat, edges as nat, (a as int, e as int))) {
            (Ok(v), Ok(w)) => v@ == w && edges + v@.len() < u32::MAX,
            (Err(x), Err(y)) => x == y,
            _ => false,
        },
{
    if count >= 0x7fff_ffff {
        return Err(AsciiGraphError::TooManyLines);
    }
    let r = parse_ascii_row(s, a, e)?;
    if r.len() as u64 >= u32::MAX as u64 - edges {
        return Err(AsciiGraphError::TooManyEdges);
    }
    Ok(r)
}

fn push_row(rows: &mut Vec<Vec<u32>>, v: Vec<u32>)
    ensures
        lists_view(final(rows)) == lists_view(old(rows)).push(v@),
        final(rows)@.len() == old(rows)@.len() + 1,
{
    rows.push(v);
    assert(lists_view(rows) =~= lists_view(old(rows)).push(v@));
}

/// Reads an ASCIIGraph text, or tells the first reason why it is not one.
pub fn try_parse_ascii_graph(text: &str) -> (res: Result<AsciiGraph, AsciiGraphError>)
    ensures
        match (res, ascii_spec(text.spec_bytes())) {
            (Ok(g), Ok((n, rows))) => {
                &&& g.num_nodes == n
                &&& lists_view(&g.rows) == rows
                &&& rows.len() < 0x8000_0000
                &&& total_len(rows) < u32::MAX
                &&& forall|i: int, k: int| 0 <= i < rows.len() && 0 <= k < rows[i].len()
                    ==> #[trigger] rows[i][k] < u32::MAX - 1
            },
            (Err(e), Err(f)) => e == f,
            _ => false,
        },
{
    let s = text.as_bytes();
    let n = s.len();
    if n == 0 {
        return Err(AsciiGraphError::MissingHeader);
    }
    let ghost ls = lines(s@);
    let j0 = find_byte(s, 10, 0, n);
    proof { lemma_lines_unfold(s@, 0); }
    let e0 = if j0 < n && j0 > 0 && s[j0 - 1] == 13 { j0 - 1 } else { j0 };
    let ghost body = if j0 < n { line_ranges(s@, j0 + 1) } else { Seq::<(int, int)>::empty() };
    assert(ls[0] == (0int, e0 as int));
    assert(ls.subrange(1, ls.len() as int) =~= body);
    let num_nodes = match parse_decimal(s, 0, e0, u32::MAX as u64) {
        None => return Err(AsciiGraphError::InvalidHeader),
        Some(x) => x as u32,
    };
    proof { lemma_body_bounds(s@, body); }
    let ghost mut done: Seq<(int, int)> = Seq::empty();
    let mut rows: Vec<Vec<u32>> = Vec::new();
    assert(lists_view(&rows) =~= Seq::<Seq<u32>>::empty());
    let mut edges: u64 = 0;
    let mut i: usize = if j0 < n { j0 + 1 } else { n };
    while i < n
        invariant
            s@ == text.spec_bytes(),
            n == s@.len(),
            0 <= i <= n,
            ls == lines(s@),
            ls.len() > 0,
            parse_bounded(s@, ls[0].0, ls[0].1, u32::MAX as nat) == Some(num_nodes as nat),
            ls.subrange(1, ls.len() as int) == body,
            body == done + line_ranges(s@, i as int),
            ascii_body_fold(s@, done) == Ok::<(Seq<Seq<u32>>, nat), AsciiGraphError>((lists_view(&rows), edges as nat)),
            edges < u32::MAX,
            rows@.len() < 0x8000_0000,
        decreases n - i,
    {
        let j = find_byte(s, 10, i, n);
        proof { lemma_lines_unfold(s@, i as int); }
        let e = if j < n && j > i && s[j - 1] == 13 { j - 1 } else { j };
        let ghost l = (i as int, e as int);
        let ghost next = done.push(l);
        let ghost rest = if j < n { line_ranges(s@, j + 1) } else { Seq::<(int, int)>::empty() };
        assert(line_ranges(s@, i as int) == seq![l] + rest);
        assert(body =~= next + rest);
        assert(next.drop_last() =~= done);
        match parse_ascii_line(s, rows.len(), edges, i, e) {
            Err(err) => {
                proof { lemma_body_error(s@, next, rest); }
                return Err(err);
            },
            Ok(r) => {
                edges = edges + r.len() as u64;
                push_row(&mut rows, r);
            },
        }
        proof { done = next; }
        i = if j < n { j + 1 } else { n };
    }
    assert(done =~= body);
    Ok(AsciiGraph { num_nodes, rows })
}

/// Writes an ASCIIGraph in the binary format: the number of nodes, the number of
/// neighbours, then list `i` opened by the marker of node `i` and holding each
/// neighbour plus one.
pub fn encode_ascii_graph(g: &AsciiGraph) -> (bytes: Vec<u8>)
    requires
        g.rows@.len() < 0x8000_0000,
        total_len(lists_view(&g.rows)) < u32::MAX,
        forall|i: int, k: int| 0 <= i < lists_view(&g.rows).len() && 0 <= k < lists_view(&g.rows)[i].len()
            ==> #[trigger] lists_view(&g.rows)[i][k] < u32::MAX - 1,
    ensures
        bytes@ == cecilia_bytes(g.num_nodes, total_len(lists_view(&g.rows)) as u32, rows_words(lists_view(&g.rows))),
{
    let ghost rows = lists_view(&g.rows);
    let mut words: Vec<u32> = Vec::new();
    let mut edges: u32 = 0;
    let mut i: usize = 0;
    while i < g.rows.len()
        invariant
            rows == lists_view(&g.rows),
            rows.len() < 0x8000_0000,
            total_len(rows) < u32::MAX,
            forall|i2: int, k: int| 0 <= i2 < rows.len() && 0 <= k < rows[i2].len() ==> #[trigger] rows[i2][k] < u32::MAX - 1,
            0 <= i <= rows.len(),
            words@ == rows_words(rows.take(i as int)),
            edges == total_len(rows.take(i as int)),
        decreases rows.len() - i,
    {
        let row = &g.rows[i];
        assert(row@ == rows[i as int]);
        assert forall|k2: int| 0 <= k2 < row@.len() implies #[trigger] row@[k2] < u32::MAX - 1 by {
            assert(rows[i as int][k2] < u32::MAX - 1);
        }
        assert(rows.take(i + 1).drop_last() =~= rows.take(i as int));
        let id = (i + 1) as u32;
        let ghost before = words@;
        words.push(u32::MAX - id + 1);
        let mut k: usize = 0;
        while k < row.len()
            invariant
                row@ == rows[i as int],
                forall|k2: int| 0 <= k2 < row@.len() ==> #[trigger] row@[k2] < u32::MAX - 1,
                0 <= k <= row@.len(),
                words@ == before + seq![marker_word(id as int)] + stored_targets(row@.take(k as int)),
            decreases row@.len() - k,
        {
            words.push(row[k] + 1);
            assert(stored_targets(row@.take(k + 1)) =~= stored_targets(row@.take(k as int)).push((row@[k as int] + 1) as u32));
            k = k + 1;
        }
        assert(row@.take(k as int) =~= row@);
        assert(words@ =~= rows_words(rows.take(i + 1)));
        proof { lemma_total_len_take(rows, i as int); }
        edges = edges + row.len() as u32;
        i = i + 1;
    }
    assert(rows.take(i as int) =~= rows);
    encode_words(g.num_nodes, edges, &words)
}

proof fn lemma_total_len_take(rows: Seq<Seq<u32>>, i: int)
    requires
        0 <= i < rows.len(),
    ensures
        total_len(rows.take(i + 1)) == total_len(rows.take(i)) + rows[i].len(),
        total_len(rows.take(i + 1)) <= total_len(rows),
    decreases rows.len() - i,
{
    assert(rows.take(i + 1).drop_last() =~= rows.take(i));
    if i + 1 < rows.len() {
        lemma_total_len_take(rows, i + 1);
    } else {
        assert(rows.take(i + 1) =~= rows);
    }
}

/// Converts an ASCIIGraph text to the binary format, or tells the first reason why
/// it cannot.
pub fn try_ascii_graph_to_cecilia(text: &str) -> (res: Result<Vec<u8>, AsciiGraphError>)
    ensures
        match (res, ascii_spec(text.spec_bytes())) {
            (Ok(bytes), Ok((n, rows))) => bytes@ == cecilia_bytes(n, total_len(rows) as u32, rows_words(rows)),
            (Err(e), Err(f)) => e == f,
            _ => false,
        },
{
    let g = try_parse_ascii_graph(text)?;
    Ok(encode_ascii_graph(&g))
}


/// Round trip of the conversion: the binary file written for an ASCIIGraph text reads
/// back as the lists of the text, padded with empty lists up to the number of nodes of
/// the first line. It holds where that number covers all lists and every neighbour is
/// below `2^31 - 1`, so that no stored field turns negative.
pub proof fn lemma_ascii_roundtrip(s: Seq<u8>)
    requires
        ascii_spec(s) matches Ok((n, rows)) && rows.len() <= n
            && forall|i: int, k: int| 0 <= i < rows.len() && 0 <= k < rows[i].len() ==> #[trigger] rows[i][k] < 0x7fff_ffff,
    ensures
        ascii_spec(s) matches Ok((n, rows)) && decode_spec(cecilia_bytes(n, total_len(rows) as u32, rows_words(rows)))
            matches Ok(st) && st.1 == padded_lists(n, rows),
{
    let ls = lines(s);
    lemma_body_bounds(s, ls.subrange(1, ls.len() as int));
    let (n, rows) = ascii_spec(s)->Ok_0;
    lemma_cecilia_roundtrip(n, rows);
}


/// Reads an ASCIIGraph text; the text must be one (`try_parse_ascii_graph` tells).
pub fn parse_ascii_graph(text: &str) -> (g: AsciiGraph)
    requires
        ascii_spec(text.spec_bytes()) is Ok,
    ensures
        ({
            let (n, rows) = ascii_spec(text.spec_bytes())->Ok_0;
            &&& g.num_nodes == n
            &&& lists_view(&g.rows) == rows
            &&& rows.len() < 0x8000_0000
            &&& total_len(rows) < u32::MAX
            &&& forall|i: int, k: int| 0 <= i < rows.len() && 0 <= k < rows[i].len()
                ==> #[trigger] rows[i][k] < u32::MAX - 1
        }),
{
    try_parse_ascii_graph(text).unwrap()
}

/// Converts an ASCIIGraph text to the binary format; the text must be an ASCIIGraph
/// that the format holds (`try_ascii_graph_to_cecilia` tells).
pub fn ascii_graph_to_cecilia(text: &str) -> (bytes: Vec<u8>)
    requires
        ascii_spec(text.spec_bytes()) is Ok,
    ensures
        ({
            let (n, rows) = ascii_spec(text.spec_bytes())->Ok_0;
            bytes@ == cecilia_bytes(n, total_len(rows) as u32, rows_words(rows))
        }),
{
    try_ascii_graph_to_cecilia(text).unwrap()
}

} // verus!
