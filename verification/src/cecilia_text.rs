//! Reading the textual adjacency lists that a biclique extraction leaves, and writing
//! them in the binary Cecilia format.
//!
//! Each line is `id: n1 n2 ...`: a 1-based node id, a colon, and 1-based neighbours
//! separated by spaces. Neighbours equal to 0 or to the node itself are left out.

use vstd::prelude::*;
use vstd::string::StringSliceAdditionalSpecFns;
use crate::cecilia::{
    cecilia_bytes, decode_fields, decode_spec, decode_start, encode_words, lemma_body_fields, lemma_decode_concat,
    lemma_decode_record_words, marker_word, record_words, words_fields,
};
use crate::text::{
    find_byte, lemma_lines_unfold, lemma_split_two, lemma_split_unfold, line_ranges, lines, parse_bounded,
    parse_decimal, split_ranges, trim_range, trimmed,
};

verus! {

/// Why a text is not a list of adjacency lines that the binary format can hold.
#[derive(Debug, Clone, Copy, PartialEq, Eq, Structural)]
pub enum CeciliaTextError {
    /// A line does not hold exactly one `:`.
    MalformedLine,
    /// The node id of a line is not an unsigned 64-bit number.
    InvalidNodeId,
    /// The node id of a line is 0.
    ZeroNodeId,
    /// The node id of a line is `u32::MAX` or more.
    NodeIdTooLarge,
    /// The node id of a line is `2^31`, whose negation overflows a signed 32-bit field.
    MarkerOverflow,
    /// A neighbour is not an unsigned 32-bit number.
    InvalidNumber,
    /// A neighbour is `u32::MAX`.
    NumberTooLarge,
    /// The lines hold `u32::MAX` neighbours or more, which the header cannot count.
    TooManyEdges,
}

/// One line: the 1-based node id and the neighbours that are written for it, 1-based.
pub struct TextRecord {
    pub node: u32,
    pub targets: Vec<u32>,
}

/// A record as a pair of plain values.
pub open spec fn record_view(r: TextRecord) -> (u32, Seq<u32>) {
    (r.node, r.targets@)
}

/// The records of a vector, as pairs.
pub open spec fn records_view(v: &Vec<TextRecord>) -> Seq<(u32, Seq<u32>)> {
    v@.map_values(|r: TextRecord| record_view(r))
}

/// One field after the colon, added to the neighbours kept so far for node `id`.
pub open spec fn target_step(s: Seq<u8>, id: nat, acc: Result<Seq<u32>, CeciliaTextError>, tok: (int, int)) -> Result<Seq<u32>, CeciliaTextError> {
    match acc {
        Err(e) => Err(e),
        Ok(ts) => {
            let (p, q) = trimmed(s, tok.0, tok.1);
            if p == q {
                Ok(ts)
            } else {
                match parse_bounded(s, p, q, u32::MAX as nat) {
                    None => Err(CeciliaTextError::InvalidNumber),
                    Some(x) => if x == u32::MAX {
                        Err(CeciliaTextError::NumberTooLarge)
                    } else if x > 0 && x != id {
                        Ok(ts.push(x as u32))
                    } else {
                        Ok(ts)
                    },
                }
            }
        },
    }
}

/// The neighbours kept from a sequence of fields, or the first error.
pub open spec fn targets_fold(s: Seq<u8>, id: nat, toks: Seq<(int, int)>) -> Result<Seq<u32>, CeciliaTextError>
    decreases toks.len(),
{
    if toks.len() == 0 {
        Ok(Seq::empty())
    } else {
        target_step(s, id, targets_fold(s, id, toks.drop_last()), toks.last())
    }
}

/// The node id of a line and the neighbours kept for it.
pub open spec fn text_line(s: Seq<u8>, l: (int, int)) -> Result<(u32, Seq<u32>), CeciliaTextError> {
    let parts = split_ranges(s, 58, l.0, l.1);
    if parts.len() != 2 {
        Err(CeciliaTextError::MalformedLine)
    } else {
        let (p, q) = trimmed(s, parts[0].0, parts[0].1);
        match parse_bounded(s, p, q, u64::MAX as nat) {
            None => Err(CeciliaTextError::InvalidNodeId),
            Some(id) => if id == 0 {
                Err(CeciliaTextError::ZeroNodeId)
            } else if id >= u32::MAX {
                Err(CeciliaTextError::NodeIdTooLarge)
            } else if id == 0x8000_0000 {
                Err(CeciliaTextError::MarkerOverflow)
            } else {
                match targets_fold(s, id, split_ranges(s, 32, parts[1].0, parts[1].1)) {
                    Err(e) => Err(e),
                    Ok(ts) => Ok((id as u32, ts)),
                }
            },
        }
    }
}

/// The records of a sequence of lines, the number of neighbours, and the largest node
/// id, or the first error.
pub open spec fn text_fold(s: Seq<u8>, ls: Seq<(int, int)>) -> Result<(Seq<(u32, Seq<u32>)>, nat, u32), CeciliaTextError>
    decreases ls.len(),
{
    if ls.len() == 0 {
        Ok((Seq::empty(), 0, 0))
    } else {
        match text_fold(s, ls.drop_last()) {
            Err(e) => Err(e),
            Ok((recs, edges, max)) => match text_line(s, ls.last()) {
                Err(e) => Err(e),
                Ok((id, ts)) => if edges + ts.len() >= u32::MAX {
                    Err(CeciliaTextError::TooManyEdges)
                } else {
                    Ok((recs.push((id, ts)), edges + ts.len(), if id > max { id } else { max }))
                },
            },
        }
    }
}

/// What reading the text gives: the records of its lines, the number of their
/// neighbours and the largest node id.
pub open spec fn text_spec(s: Seq<u8>) -> Result<(Seq<(u32, Seq<u32>)>, nat, u32), CeciliaTextError> {
    text_fold(s, lines(s))
}

/// The body words of a sequence of records.
pub open spec fn records_words(recs: Seq<(u32, Seq<u32>)>) -> Seq<u32>
    decreases recs.len(),
{
    if recs.len() == 0 {
        Seq::empty()
    } else {
        records_words(recs.drop_last()) + record_words(recs.last().0 as int, recs.last().1)
    }
}

proof fn lemma_targets_error(s: Seq<u8>, id: nat, a: Seq<(int, int)>, b: Seq<(int, int)>)
    requires
        targets_fold(s, id, a) is Err,
    ensures
        targets_fold(s, id, a + b) == targets_fold(s, id, a),
    decreases b.len(),
{
    if b.len() == 0 {
        assert(a + b =~= a);
    } else {
        assert((a + b).drop_last() =~= a + b.drop_last());
        lemma_targets_error(s, id, a, b.drop_last());
    }
}

proof fn lemma_text_error(s: Seq<u8>, a: Seq<(int, int)>, b: Seq<(int, int)>)
    requires
        text_fold(s, a) is Err,
    ensures
        text_fold(s, a + b) == text_fold(s, a),
    decreases b.len(),
{
    if b.len() == 0 {
        assert(a + b =~= a);
    } else {
        assert((a + b).drop_last() =~= a + b.drop_last());
        lemma_text_error(s, a, b.drop_last());
    }
}

fn parse_targets(s: &[u8], id: u64, a: usize, e: usize) -> (res: Result<Vec<u32>, CeciliaTextError>)
    requires
        a <= e <= s@.len(),
    ensures
        match (res, targets_fold(s@, id as nat, split_ranges(s@, 32, a as int, e as int))) {
            (Ok(v), Ok(w)) => v@ == w,
            (Err(x), Err(y)) => x == y,
            _ => false,
        },
{
    let ghost all = split_ranges(s@, 32, a as int, e as int);
    let ghost mut done: Seq<(int, int)> = Seq::empty();
    let mut ts: Vec<u32> = Vec::new();
    let mut i = a;
    loop
        invariant
            a <= i <= e,
            e <= s@.len(),
            all == split_ranges(s@, 32, a as int, e as int),
            all == done + split_ranges(s@, 32, i as int, e as int),
            targets_fold(s@, id as nat, done) == Ok::<Seq<u32>, CeciliaTextError>(ts@),
        decreases e - i,
    {
        let j = find_byte(s, 32, i, e);
        proof { lemma_split_unfold(s@, 32, i as int, e as int); }
        let ghost next = done.push((i as int, j as int));
        assert(next.drop_last() =~= done);
        let ghost rest = all.subrange(next.len() as int, all.len() as int);
        assert(all =~= next + rest);
        let (p, q) = trim_range(s, i, j);
        if p < q {
            match parse_decimal(s, p, q, u32::MAX as u64) {
                None => {
                    proof { lemma_targets_error(s@, id as nat, next, rest); }
                    return Err(CeciliaTextError::InvalidNumber);
                },
                Some(x) => {
                    if x == u32::MAX as u64 {
                        proof { lemma_targets_error(s@, id as nat, next, rest); }
                        return Err(CeciliaTextError::NumberTooLarge);
                    }
                    if x > 0 && x != id {
                        ts.push(x as u32);
                    }
                },
            }
        }
        proof { done = next; }
        if j >= e {
            assert(all =~= done);
            return Ok(ts);
        }
        assert(all =~= done + split_ranges(s@, 32, j + 1, e as int));
        i = j + 1;
    }
}

fn parse_text_line(s: &[u8], a: usize, e: usize) -> (res: Result<TextRecord, CeciliaTextError>)
    requires
        a <= e <= s@.len(),
    ensures
        match (res, text_line(s@, (a as int, e as int))) {
            (Ok(r), Ok(w)) => record_view(r) == w,
            (Err(x), Err(y)) => x == y,
            _ => false,
        },
{
    let j1 = find_byte(s, 58, a, e);
    let j2 = if j1 < e { find_byte(s, 58, j1 + 1, e) } else { e };
    proof { lemma_split_two(s@, 58, a as int, e as int); }
    if j1 >= e || j2 < e {
        return Err(CeciliaTextError::MalformedLine);
    }
    let (p, q) = trim_range(s, a, j1);
    let id = match parse_decimal(s, p, q, u64::MAX) {
        None => return Err(CeciliaTextError::InvalidNodeId),
        Some(x) => x,
    };
    if id == 0 {
        return Err(CeciliaTextError::ZeroNodeId);
    }
    if id >= u32::MAX as u64 {
        return Err(CeciliaTextError::NodeIdTooLarge);
    }
    if id == 0x8000_0000 {
        return Err(CeciliaTextError::MarkerOverflow);
    }
    let targets = parse_targets(s, id, j1 + 1, e)?;
    Ok(TextRecord { node: id as u32, targets })
}

fn push_record(recs: &mut Vec<TextRecord>, r: TextRecord)
    ensures
        records_view(final(recs)) == records_view(old(recs)).push(record_view(r)),
{
    recs.push(r);
    assert(records_view(recs) =~= records_view(old(recs)).push(record_view(r)));
}

/// Reads the adjacency lines, or tells the first reason why they cannot be read.
pub fn try_parse_cecilia_text(text: &str) -> (res: Result<Vec<TextRecord>, CeciliaTextError>)
    ensures
        match (res, text_spec(text.spec_bytes())) {
            (Ok(v), Ok((recs, edges, max))) => {
                &&& records_view(&v) == recs
                &&& edges == records_edges(recs)
                &&& edges < u32::MAX
                &&& max == records_max(recs)
                &&& forall|i: int| 0 <= i < recs.len() ==> #[trigger] recs[i].0 >= 1
            },
            (Err(x), Err(y)) => x == y,
            _ => false,
        },
{
    let s = text.as_bytes();
    let n = s.len();
    let ghost all = lines(s@);
    let ghost mut done: Seq<(int, int)> = Seq::empty();
    let mut recs: Vec<TextRecord> = Vec::new();
    assert(records_view(&recs) =~= Seq::<(u32, Seq<u32>)>::empty());
    let mut edges: u64 = 0;
    let ghost mut max: u32 = 0;
    let mut i: usize = 0;
    proof { lemma_text_fold_facts(s@, all); }
    while i < n
        invariant
            s@ == text.spec_bytes(),
            n == s@.len(),
            0 <= i <= n,
            all == lines(s@),
            all == done + line_ranges(s@, i as int),
            text_fold(s@, done) == Ok::<(Seq<(u32, Seq<u32>)>, nat, u32), CeciliaTextError>((records_view(&recs), edges as nat, max)),
            edges < u32::MAX,
        decreases n - i,
    {
        let j = find_byte(s, 10, i, n);
        proof { lemma_lines_unfold(s@, i as int); }
        let e = if j < n && j > i && s[j - 1] == 13 { j - 1 } else { j };
        let ghost l = (i as int, e as int);
        let ghost next = done.push(l);
        let ghost rest = if j < n { line_ranges(s@, j + 1) } else { Seq::<(int, int)>::empty() };
        assert(line_ranges(s@, i as int) == seq![l] + rest);
        assert(all =~= next + rest);
        assert(next.drop_last() =~= done);
        match parse_text_line(s, i, e) {
            Err(err) => {
                proof { lemma_text_error(s@, next, rest); }
                return Err(err);
            },
            Ok(r) => {
                if r.targets.len() as u64 >= u32::MAX as u64 - edges {
                    proof { lemma_text_error(s@, next, rest); }
                    return Err(CeciliaTextError::TooManyEdges);
                }
                edges = edges + r.targets.len() as u64;
                proof { if r.node > max { max = r.node; } }
                push_record(&mut recs, r);
            },
        }
        proof { done = next; }
        i = if j < n { j + 1 } else { n };
    }
    assert(done =~= all);
    Ok(recs)
}

/// The number of neighbours over all records.
pub open spec fn records_edges(recs: Seq<(u32, Seq<u32>)>) -> nat
    decreases recs.len(),
{
    if recs.len() == 0 { 0 } else { records_edges(recs.drop_last()) + recs.last().1.len() }
}

/// The largest node id over all records, 0 where there is none.
pub open spec fn records_max(recs: Seq<(u32, Seq<u32>)>) -> u32
    decreases recs.len(),
{
    if recs.len() == 0 {
        0
    } else {
        let m = records_max(recs.drop_last());
        if recs.last().0 > m { recs.last().0 } else { m }
    }
}

/// Writes records in the binary format: the largest node id as the number of nodes,
/// the number of neighbours, then each record opened by the marker of its node.
pub fn encode_records(recs: &Vec<TextRecord>) -> (bytes: Vec<u8>)
    requires
        records_edges(records_view(recs)) < u32::MAX,
        forall|i: int| 0 <= i < records_view(recs).len() ==> #[trigger] records_view(recs)[i].0 >= 1,
    ensures
        bytes@ == cecilia_bytes(records_max(records_view(recs)), records_edges(records_view(recs)) as u32,
            records_words(records_view(recs))),
{
    let ghost rv = records_view(recs);
    let mut words: Vec<u32> = Vec::new();
    let mut edges: u32 = 0;
    let mut max: u32 = 0;
    let mut i: usize = 0;
    while i < recs.len()
        invariant
            rv == records_view(recs),
            records_edges(rv) < u32::MAX,
            forall|i2: int| 0 <= i2 < rv.len() ==> #[trigger] rv[i2].0 >= 1,
            0 <= i <= rv.len(),
            words@ == records_words(rv.take(i as int)),
            edges == records_edges(rv.take(i as int)),
            max == records_max(rv.take(i as int)),
        decreases rv.len() - i,
    {
        let r = &recs[i];
        assert(rv[i as int] == record_view(*r));
        assert(rv.take(i + 1).drop_last() =~= rv.take(i as int));
        proof { lemma_records_edges_take(rv, i as int); }
        let ghost before = words@;
        assert(rv[i as int].0 >= 1);
        assert(r.node >= 1);
        words.push(u32::MAX - r.node + 1);
        let mut k: usize = 0;
        while k < r.targets.len()
            invariant
                0 <= k <= r.targets@.len(),
                words@ == before + seq![marker_word(r.node as int)] + r.targets@.take(k as int),
            decreases r.targets@.len() - k,
        {
            words.push(r.targets[k]);
            assert(r.targets@.take(k + 1) =~= r.targets@.take(k as int).push(r.targets@[k as int]));
            k = k + 1;
        }
        assert(r.targets@.take(k as int) =~= r.targets@);
        assert(words@ =~= records_words(rv.take(i + 1)));
        edges = edges + r.targets.len() as u32;
        if r.node > max {
            max = r.node;
        }
        i = i + 1;
    }
    assert(rv.take(i as int) =~= rv);
    encode_words(max, edges, &words)
}

proof fn lemma_text_fold_facts(s: Seq<u8>, ls: Seq<(int, int)>)
    ensures
        text_fold(s, ls) matches Ok((recs, edges, max)) ==> {
            &&& edges == records_edges(recs)
            &&& edges < u32::MAX
            &&& max == records_max(recs)
            &&& forall|i: int| 0 <= i < recs.len() ==> #[trigger] recs[i].0 >= 1
        },
    decreases ls.len(),
{
    if ls.len() > 0 {
        lemma_text_fold_facts(s, ls.drop_last());
        if let Ok((recs, edges, max)) = text_fold(s, ls) {
            let (r0, e0, m0) = text_fold(s, ls.drop_last())->Ok_0;
            assert(recs.drop_last() =~= r0);
            assert forall|i: int| 0 <= i < recs.len() implies #[trigger] recs[i].0 >= 1 by {
                if i < r0.len() {
                    assert(recs[i] == r0[i]);
                }
            }
        }
    }
}

proof fn lemma_records_edges_take(recs: Seq<(u32, Seq<u32>)>, i: int)
    requires
        0 <= i < recs.len(),
    ensures
        records_edges(recs.take(i + 1)) == records_edges(recs.take(i)) + recs[i].1.len(),
        records_edges(recs.take(i + 1)) <= records_edges(recs),
    decreases recs.len() - i,
{
    assert(recs.take(i + 1).drop_last() =~= recs.take(i));
    if i + 1 < recs.len() {
        lemma_records_edges_take(recs, i + 1);
    } else {
        assert(recs.take(i + 1) =~= recs);
    }
}


/// Converts the adjacency lines to the binary format, or tells the first reason why
/// it cannot.
pub fn try_cecilia_text_to_cecilia(text: &str) -> (res: Result<Vec<u8>, CeciliaTextError>)
    ensures
        match (res, text_spec(text.spec_bytes())) {
            (Ok(bytes), Ok((recs, edges, max))) => bytes@ == cecilia_bytes(max, edges as u32, records_words(recs)),
            (Err(x), Err(y)) => x == y,
            _ => false,
        },
{
    let recs = try_parse_cecilia_text(text)?;
    Ok(encode_records(&recs))
}


/// The lists that records give out of `n` nodes: the list of node `v` holds, record
/// after record, the neighbours of each record of 1-based node `v + 1`, each less one.
pub open spec fn records_lists(n: u32, recs: Seq<(u32, Seq<u32>)>) -> Seq<Seq<u32>>
    decreases recs.len(),
{
    if recs.len() == 0 {
        Seq::new(n as nat, |i: int| Seq::<u32>::empty())
    } else {
        let prev = records_lists(n, recs.drop_last());
        let v = recs.last().0 - 1;
        prev.update(v, prev[v] + recs.last().1.map_values(|t: u32| (t - 1) as u32))
    }
}

proof fn lemma_decode_records(n: u32, recs: Seq<(u32, Seq<u32>)>)
    requires
        forall|i: int| 0 <= i < recs.len() ==> 1 <= (#[trigger] recs[i]).0 <= n && recs[i].0 < 0x8000_0000,
        forall|i: int, k: int| 0 <= i < recs.len() && 0 <= k < recs[i].1.len()
            ==> 1 <= #[trigger] recs[i].1[k] < 0x8000_0000,
    ensures
        decode_fields(n, words_fields(records_words(recs))) matches Ok(r)
            && r.1 == records_lists(n, recs) && r.1.len() == n && r.3 == records_edges(recs),
    decreases recs.len(),
{
    if recs.len() == 0 {
        assert(words_fields(records_words(recs)) =~= Seq::<i32>::empty());
        assert(records_lists(n, recs) =~= decode_start(n).1);
    } else {
        let front = recs.drop_last();
        assert forall|i: int| 0 <= i < front.len() implies 1 <= (#[trigger] front[i]).0 <= n && front[i].0 < 0x8000_0000 by {
            assert(front[i] == recs[i]);
        }
        assert forall|i: int, k: int| 0 <= i < front.len() && 0 <= k < front[i].1.len()
            implies 1 <= #[trigger] front[i].1[k] < 0x8000_0000 by {
            assert(front[i] == recs[i]);
        }
        lemma_decode_records(n, front);
        let last = recs.last();
        assert(last == recs[recs.len() - 1]);
        assert forall|k: int| 0 <= k < last.1.len() implies 1 <= #[trigger] last.1[k] < 0x8000_0000 by {
            assert(last.1[k] == recs[recs.len() - 1].1[k]);
        }
        let a = words_fields(records_words(front));
        let b = words_fields(record_words(last.0 as int, last.1));
        assert(words_fields(records_words(recs)) =~= a + b);
        lemma_decode_concat(n, Ok(decode_start(n)), a, b);
        let st = decode_fields(n, a)->Ok_0;
        lemma_decode_record_words(n, st, last.0 as int, last.1);
    }
}

/// The largest node id of the records is at least each of their ids.
proof fn lemma_records_max_bounds(recs: Seq<(u32, Seq<u32>)>)
    ensures
        forall|i: int| 0 <= i < recs.len() ==> (#[trigger] recs[i]).0 <= records_max(recs),
    decreases recs.len(),
{
    if recs.len() > 0 {
        lemma_records_max_bounds(recs.drop_last());
        assert forall|i: int| 0 <= i < recs.len() implies (#[trigger] recs[i]).0 <= records_max(recs) by {
            if i < recs.len() - 1 {
                assert(recs[i] == recs.drop_last()[i]);
            }
        }
    }
}

/// The neighbours kept for a line are all at least one.
proof fn lemma_targets_positive(s: Seq<u8>, id: nat, toks: Seq<(int, int)>)
    ensures
        targets_fold(s, id, toks) matches Ok(ts) ==> forall|k: int| 0 <= k < ts.len() ==> #[trigger] ts[k] >= 1,
    decreases toks.len(),
{
    if toks.len() > 0 {
        lemma_targets_positive(s, id, toks.drop_last());
    }
}

/// The neighbours of the records read are all at least one.
proof fn lemma_text_fold_targets(s: Seq<u8>, ls: Seq<(int, int)>)
    ensures
        text_fold(s, ls) matches Ok((recs, edges, max)) ==> forall|i: int, k: int|
            0 <= i < recs.len() && 0 <= k < recs[i].1.len() ==> #[trigger] recs[i].1[k] >= 1,
    decreases ls.len(),
{
    if ls.len() > 0 {
        lemma_text_fold_targets(s, ls.drop_last());
        if let Ok((recs, edges, max)) = text_fold(s, ls) {
            let r0 = text_fold(s, ls.drop_last())->Ok_0.0;
            let l = ls.last();
            let parts = split_ranges(s, 58, l.0, l.1);
            let (p, q) = trimmed(s, parts[0].0, parts[0].1);
            let id = parse_bounded(s, p, q, u64::MAX as nat)->Some_0;
            lemma_targets_positive(s, id, split_ranges(s, 32, parts[1].0, parts[1].1));
            assert forall|i: int, k: int| 0 <= i < recs.len() && 0 <= k < recs[i].1.len()
                implies #[trigger] recs[i].1[k] >= 1 by {
                if i < r0.len() {
                    assert(recs[i] == r0[i]);
                }
            }
        }
    }
}

/// Round trip of the conversion of adjacency lines: the binary file written for them
/// reads back, for each node `v` below the largest id, as the neighbours of every line
/// of node `v + 1`, in the order of the lines, each less one. It holds where every node
/// id and every neighbour is below `2^31`, so that no field changes sign.
pub proof fn lemma_cecilia_text_roundtrip(s: Seq<u8>)
    requires
        text_spec(s) matches Ok((recs, edges, max))
            && (forall|i: int| 0 <= i < recs.len() ==> (#[trigger] recs[i]).0 < 0x8000_0000)
            && forall|i: int, k: int| 0 <= i < recs.len() && 0 <= k < recs[i].1.len()
                ==> #[trigger] recs[i].1[k] < 0x8000_0000,
    ensures
        text_spec(s) matches Ok((recs, edges, max))
            && decode_spec(cecilia_bytes(max, edges as u32, records_words(recs))) matches Ok(st)
            && st.1 == records_lists(max, recs),
{
    let (recs, edges, max) = text_spec(s)->Ok_0;
    lemma_text_fold_facts(s, lines(s));
    lemma_text_fold_targets(s, lines(s));
    lemma_records_max_bounds(recs);
    assert forall|i: int| 0 <= i < recs.len() implies 1 <= (#[trigger] recs[i]).0 <= max && recs[i].0 < 0x8000_0000 by {}
    assert forall|i: int, k: int| 0 <= i < recs.len() && 0 <= k < recs[i].1.len()
        implies 1 <= #[trigger] recs[i].1[k] < 0x8000_0000 by {}
    lemma_decode_records(max, recs);
    lemma_body_fields(max, edges as u32, records_words(recs));
}


proof fn lemma_text_fold_per_line(s: Seq<u8>, ls: Seq<(int, int)>)
    ensures
        text_fold(s, ls) matches Ok((recs, edges, max)) ==> {
            &&& recs.len() == ls.len()
            &&& forall|i: int| 0 <= i < recs.len() ==> (#[trigger] recs[i]).0 <= max
            &&& recs.len() == 0 ==> max == 0
            &&& recs.len() > 0 ==> exists|i: int| 0 <= i < recs.len() && (#[trigger] recs[i]).0 == max
        },
    decreases ls.len(),
{
    if ls.len() > 0 {
        lemma_text_fold_per_line(s, ls.drop_last());
        if let Ok((recs, edges, max)) = text_fold(s, ls) {
            let (r0, e0, m0) = text_fold(s, ls.drop_last())->Ok_0;
            assert(recs.drop_last() =~= r0);
            assert forall|i: int| 0 <= i < recs.len() implies (#[trigger] recs[i]).0 <= max by {
                if i < r0.len() {
                    assert(recs[i] == r0[i]);
                }
            }
            if recs.last().0 == max {
                assert(recs[recs.len() - 1].0 == max);
            } else {
                let i = choose|i: int| 0 <= i < r0.len() && (#[trigger] r0[i]).0 == m0;
                assert(recs[i] == r0[i]);
            }
        }
    }
}

/// Law: adjacency lines read without error give one record per line, in order, whatever
/// neighbours the line keeps (none included), and the number of nodes written to the
/// header is the largest node id over all lines, 0 where there is no line.
pub proof fn lemma_text_records_per_line(s: Seq<u8>)
    ensures
        text_spec(s) matches Ok((recs, edges, max)) ==> {
            &&& recs.len() == lines(s).len()
            &&& forall|i: int| 0 <= i < recs.len() ==> (#[trigger] recs[i]).0 <= max
            &&& recs.len() == 0 ==> max == 0
            &&& recs.len() > 0 ==> exists|i: int| 0 <= i < recs.len() && (#[trigger] recs[i]).0 == max
        },
{
    lemma_text_fold_per_line(s, lines(s));
}

/// Reads the adjacency lines; they must be readable (`try_parse_cecilia_text` tells).
pub fn parse_cecilia_text(text: &str) -> (v: Vec<TextRecord>)
    requires
        text_spec(text.spec_bytes()) is Ok,
    ensures
        ({
            let (recs, edges, max) = text_spec(text.spec_bytes())->Ok_0;
            &&& records_view(&v) == recs
            &&& edges == records_edges(recs)
            &&& edges < u32::MAX
            &&& max == records_max(recs)
            &&& forall|i: int| 0 <= i < recs.len() ==> #[trigger] recs[i].0 >= 1
        }),
{
    try_parse_cecilia_text(text).unwrap()
}

/// Converts the adjacency lines to the binary format; they must be readable
/// (`try_cecilia_text_to_cecilia` tells).
pub fn cecilia_text_to_cecilia(text: &str) -> (bytes: Vec<u8>)
    requires
        text_spec(text.spec_bytes()) is Ok,
    ensures
        ({
            let (recs, edges, max) = text_spec(text.spec_bytes())->Ok_0;
            bytes@ == cecilia_bytes(max, edges as u32, records_words(recs))
        }),
{
    try_cecilia_text_to_cecilia(text).unwrap()
}

} // verus!
