//! The binary Cecilia adjacency format.
//!
//! A file holds the number of nodes and the number of edges, each a little-endian
//! 32-bit word, followed by a stream of little-endian signed 32-bit fields. A negative
//! field `-(v + 1)` opens the adjacency list of node `v`; a positive field `u + 1` adds
//! node `u` to the list that is open. Node ids are 0-based.

use vstd::prelude::*;
use crate::le::{bits_i32, le_bytes, le_value, lemma_le_roundtrip, push_u32, read_i32_at, read_u32_at};

verus! {

/// Why a byte string is not a Cecilia graph.
#[derive(Debug, Clone, Copy, PartialEq, Eq, Structural)]
pub enum DecodeError {
    /// Fewer than eight bytes: the two header words are not there.
    TruncatedHeader,
    /// A field is 0, which is neither a node marker nor a neighbour.
    ZeroField,
    /// A field is `i32::MIN`, whose negation overflows.
    MarkerOverflow,
    /// A field refers to a node that is not below the number of nodes of the header.
    NodeOutOfRange,
    /// The number of neighbours read differs from the edge count of the header.
    EdgeCountMismatch,
}

/// A decoded Cecilia graph.
pub struct CeciliaGraph {
    /// The number of nodes that the header states.
    pub num_nodes: u32,
    /// For each node below `num_nodes`, its neighbours in the order of the file.
    pub adjacency: Vec<Vec<u32>>,
    /// The largest neighbour id read, 0 where there is none.
    pub max_target: u32,
    /// The node whose list was open when the file ended, 0 where no marker came.
    pub last_node: u32,
}

/// The state of a decoder: the open node, the lists so far, the largest neighbour
/// and the number of neighbours read.
pub type DecodeState = (u32, Seq<Seq<u32>>, u32, nat);

/// The state before any field.
pub open spec fn decode_start(num_nodes: u32) -> DecodeState {
    (0u32, Seq::new(num_nodes as nat, |i: int| Seq::<u32>::empty()), 0u32, 0nat)
}

/// One field read by the decoder.
pub open spec fn decode_step(num_nodes: u32, st: DecodeState, field: i32) -> Result<DecodeState, DecodeError> {
    if field < 0 {
        if field == i32::MIN {
            Err(DecodeError::MarkerOverflow)
        } else if -field - 1 >= num_nodes {
            Err(DecodeError::NodeOutOfRange)
        } else {
            Ok(((-field - 1) as u32, st.1, st.2, st.3))
        }
    } else if field == 0 {
        Err(DecodeError::ZeroField)
    } else if st.0 >= num_nodes {
        Err(DecodeError::NodeOutOfRange)
    } else {
        let e = (field - 1) as u32;
        Ok((st.0, st.1.update(st.0 as int, st.1[st.0 as int].push(e)), if e > st.2 { e } else { st.2 }, st.3 + 1))
    }
}

/// The decoder's state after a sequence of fields read from state `from`, or the first error.
pub open spec fn decode_from(
    num_nodes: u32,
    from: Result<DecodeState, DecodeError>,
    fields: Seq<i32>,
) -> Result<DecodeState, DecodeError>
    decreases fields.len(),
{
    if fields.len() == 0 {
        from
    } else {
        match decode_from(num_nodes, from, fields.drop_last()) {
            Ok(st) => decode_step(num_nodes, st, fields.last()),
            Err(e) => Err(e),
        }
    }
}

/// The decoder's state after a sequence of fields, or the first error.
pub open spec fn decode_fields(num_nodes: u32, fields: Seq<i32>) -> Result<DecodeState, DecodeError> {
    decode_from(num_nodes, Ok(decode_start(num_nodes)), fields)
}

/// The word at byte offset `pos`.
pub open spec fn word_at(bytes: Seq<u8>, pos: int) -> int {
    le_value(bytes.subrange(pos, pos + 4))
}

/// The signed fields after the header; a trailing piece of fewer than four bytes is
/// not a field.
pub open spec fn body_fields(bytes: Seq<u8>) -> Seq<i32> {
    Seq::new(((bytes.len() - 8) / 4) as nat, |i: int| bits_i32(word_at(bytes, 8 + 4 * i)))
}

/// What decoding a byte string gives: the final decoder state, or the first error.
pub open spec fn decode_spec(bytes: Seq<u8>) -> Result<DecodeState, DecodeError> {
    if bytes.len() < 8 {
        Err(DecodeError::TruncatedHeader)
    } else {
        let n = word_at(bytes, 0) as u32;
        match decode_fields(n, body_fields(bytes)) {
            Ok(st) => if st.3 == word_at(bytes, 4) { Ok(st) } else { Err(DecodeError::EdgeCountMismatch) },
            Err(e) => Err(e),
        }
    }
}

/// The decoder keeps one list per node of the header.
pub proof fn lemma_decode_lists_len(num_nodes: u32, fields: Seq<i32>)
    ensures
        decode_fields(num_nodes, fields) matches Ok(st) ==> st.1.len() == num_nodes,
    decreases fields.len(),
{
    if fields.len() > 0 {
        lemma_decode_lists_len(num_nodes, fields.drop_last());
    }
}

// ---------------------------------------------------------------------------------
// Encoding

/// The bytes of a sequence of words, each little-endian.
pub open spec fn words_bytes(words: Seq<u32>) -> Seq<u8>
    decreases words.len(),
{
    if words.len() == 0 {
        Seq::empty()
    } else {
        words_bytes(words.drop_last()) + le_bytes(words.last())
    }
}

/// A whole file: the two header words, then the words of the body.
pub open spec fn cecilia_bytes(num_nodes: u32, num_edges: u32, words: Seq<u32>) -> Seq<u8> {
    le_bytes(num_nodes) + le_bytes(num_edges) + words_bytes(words)
}

/// The word that opens the list of the node with 1-based id `id`: the bits of `-(id as i32)`.
pub open spec fn marker_word(id: int) -> u32 {
    (0x1_0000_0000 - id) as u32
}

/// The words of one adjacency list: the marker of 1-based node `id`, then each
/// stored neighbour word.
pub open spec fn record_words(id: int, stored: Seq<u32>) -> Seq<u32> {
    seq![marker_word(id)] + stored
}

/// Writes a whole file: the header words, then the body words.
pub fn encode_words(num_nodes: u32, num_edges: u32, words: &Vec<u32>) -> (bytes: Vec<u8>)
    ensures
        bytes@ == cecilia_bytes(num_nodes, num_edges, words@),
{
    let mut bytes: Vec<u8> = Vec::new();
    push_u32(&mut bytes, num_nodes);
    push_u32(&mut bytes, num_edges);
    let mut i: usize = 0;
    while i < words.len()
        invariant
            0 <= i <= words@.len(),
            bytes@ == le_bytes(num_nodes) + le_bytes(num_edges) + words_bytes(words@.take(i as int)),
        decreases words@.len() - i,
    {
        let ghost before = bytes@;
        push_u32(&mut bytes, words[i]);
        assert(words@.take(i + 1).drop_last() =~= words@.take(i as int));
        assert(bytes@ =~= le_bytes(num_nodes) + le_bytes(num_edges) + words_bytes(words@.take(i + 1)));
        i = i + 1;
    }
    assert(words@.take(words@.len() as int) =~= words@);
    bytes
}

/// The lists of a vector of vectors, as sequences.
pub open spec fn lists_view(v: &Vec<Vec<u32>>) -> Seq<Seq<u32>> {
    v@.map_values(|r: Vec<u32>| r@)
}

fn empty_lists(n: u32) -> (lists: Vec<Vec<u32>>)
    ensures
        lists_view(&lists) =~= Seq::new(n as nat, |i: int| Seq::<u32>::empty()),
{
    let mut lists: Vec<Vec<u32>> = Vec::new();
    let mut i: u32 = 0;
    while i < n
        invariant
            i <= n,
            lists_view(&lists) =~= Seq::new(i as nat, |k: int| Seq::<u32>::empty()),
        decreases n - i,
    {
        let ghost before = lists_view(&lists);
        lists.push(Vec::new());
        assert(lists_view(&lists) =~= before.push(Seq::<u32>::empty()));
        i = i + 1;
    }
    lists
}

/// Reads a Cecilia graph: the header, then every complete field after it; or tells the
/// first reason why the bytes are not one.
pub fn try_decode_cecilia(bytes: &[u8]) -> (res: Result<CeciliaGraph, DecodeError>)
    ensures
        match (res, decode_spec(bytes@)) {
            (Ok(g), Ok(st)) => {
                &&& g.num_nodes == word_at(bytes@, 0)
                &&& g.adjacency@.len() == g.num_nodes
                &&& g.last_node == st.0
                &&& lists_view(&g.adjacency) == st.1
                &&& g.max_target == st.2
            },
            (Err(e), Err(f)) => e == f,
            _ => false,
        },
{
    if bytes.len() < 8 {
        return Err(DecodeError::TruncatedHeader);
    }
    let num_nodes = read_u32_at(bytes, 0);
    let num_edges = read_u32_at(bytes, 4);
    let count = (bytes.len() - 8) / 4;
    let ghost fields = body_fields(bytes@);
    let mut adjacency = empty_lists(num_nodes);
    let mut current: u32 = 0;
    let mut max_target: u32 = 0;
    let mut edges: u64 = 0;
    let mut i: usize = 0;
    while i < count
        invariant
            bytes@.len() >= 8,
            count == (bytes@.len() - 8) / 4,
            fields == body_fields(bytes@),
            num_nodes == word_at(bytes@, 0),
            0 <= i <= count,
            edges <= i,
            decode_fields(num_nodes, fields.take(i as int))
                == Ok::<DecodeState, DecodeError>((current, lists_view(&adjacency), max_target, edges as nat)),
        decreases count - i,
    {
        assert(8 + 4 * i + 4 <= bytes@.len()) by (nonlinear_arith)
            requires i < count, count == (bytes@.len() - 8) / 4, bytes@.len() >= 8;
        assert(bytes@.len() == bytes.len());
        let pos = 8 + 4 * i;
        let field = read_i32_at(bytes, pos);
        assert(fields.take(i + 1).drop_last() =~= fields.take(i as int));
        assert(field == fields[i as int]);
        proof { lemma_decode_lists_len(num_nodes, fields.take(i as int)); }
        if field < 0 {
            if field == i32::MIN {
                proof { lemma_decode_error_persists(num_nodes, fields, i as int + 1); }
                return Err(DecodeError::MarkerOverflow);
            }
            let node = -field - 1;
            if node as u32 >= num_nodes {
                proof { lemma_decode_error_persists(num_nodes, fields, i as int + 1); }
                return Err(DecodeError::NodeOutOfRange);
            }
            current = node as u32;
        } else if field == 0 {
            proof { lemma_decode_error_persists(num_nodes, fields, i as int + 1); }
            return Err(DecodeError::ZeroField);
        } else {
            if current >= num_nodes {
                proof { lemma_decode_error_persists(num_nodes, fields, i as int + 1); }
                return Err(DecodeError::NodeOutOfRange);
            }
            let e = (field - 1) as u32;
            if e > max_target {
                max_target = e;
            }
            let ghost old_lists = lists_view(&adjacency);
            adjacency[current as usize].push(e);
            assert(lists_view(&adjacency) =~= old_lists.update(current as int, old_lists[current as int].push(e)));
            edges = edges + 1;
        }
        i = i + 1;
    }
    assert(fields.take(count as int) =~= fields);
    proof { lemma_decode_lists_len(num_nodes, fields); }
    if edges != num_edges as u64 {
        return Err(DecodeError::EdgeCountMismatch);
    }
    Ok(CeciliaGraph { num_nodes, adjacency, max_target, last_node: current })
}

/// Once the decoder has failed on a prefix, it fails on every longer prefix with the same error.
proof fn lemma_decode_error_persists(num_nodes: u32, fields: Seq<i32>, k: int)
    requires
        0 <= k <= fields.len(),
        decode_fields(num_nodes, fields.take(k)) is Err,
    ensures
        decode_fields(num_nodes, fields) == decode_fields(num_nodes, fields.take(k)),
    decreases fields.len() - k,
{
    if k < fields.len() {
        assert(fields.take(k + 1).drop_last() =~= fields.take(k));
        lemma_decode_error_persists(num_nodes, fields, k + 1);
    } else {
        assert(fields.take(k) =~= fields);
    }
}


// ---------------------------------------------------------------------------------
// Round trip

/// The stored neighbour words of an adjacency list: each 0-based neighbour plus one.
pub open spec fn stored_targets(row: Seq<u32>) -> Seq<u32> {
    row.map_values(|t: u32| (t + 1) as u32)
}

/// The body words of a graph whose lists are written in order, list `i` for node `i`.
pub open spec fn rows_words(rows: Seq<Seq<u32>>) -> Seq<u32>
    decreases rows.len(),
{
    if rows.len() == 0 {
        Seq::empty()
    } else {
        rows_words(rows.drop_last()) + record_words(rows.len() as int, stored_targets(rows.last()))
    }
}

/// The number of neighbours over all lists.
pub open spec fn total_len(rows: Seq<Seq<u32>>) -> nat
    decreases rows.len(),
{
    if rows.len() == 0 {
        0
    } else {
        total_len(rows.drop_last()) + rows.last().len()
    }
}

/// The fields that a decoder reads for a sequence of words.
pub open spec fn words_fields(words: Seq<u32>) -> Seq<i32> {
    words.map_values(|w: u32| bits_i32(w as int))
}

proof fn lemma_words_bytes_len(w: Seq<u32>)
    ensures
        words_bytes(w).len() == 4 * w.len(),
    decreases w.len(),
{
    if w.len() > 0 {
        lemma_words_bytes_len(w.drop_last());
    }
}

proof fn lemma_words_bytes_at(w: Seq<u32>, i: int)
    requires
        0 <= i < w.len(),
    ensures
        words_bytes(w).subrange(4 * i, 4 * i + 4) == le_bytes(w[i]),
    decreases w.len(),
{
    lemma_words_bytes_len(w.drop_last());
    let a = words_bytes(w.drop_last());
    if i < w.len() - 1 {
        lemma_words_bytes_at(w.drop_last(), i);
        assert(words_bytes(w).subrange(4 * i, 4 * i + 4) =~= a.subrange(4 * i, 4 * i + 4));
    } else {
        assert(words_bytes(w).subrange(4 * i, 4 * i + 4) =~= le_bytes(w.last()));
    }
}

/// The fields after the header of a written file are the written words, read as signed words.
pub proof fn lemma_body_fields(num_nodes: u32, num_edges: u32, w: Seq<u32>)
    ensures
        body_fields(cecilia_bytes(num_nodes, num_edges, w)) == words_fields(w),
        cecilia_bytes(num_nodes, num_edges, w).len() >= 8,
        word_at(cecilia_bytes(num_nodes, num_edges, w), 0) == num_nodes,
        word_at(cecilia_bytes(num_nodes, num_edges, w), 4) == num_edges,
{
    let b = cecilia_bytes(num_nodes, num_edges, w);
    lemma_words_bytes_len(w);
    lemma_le_roundtrip(num_nodes);
    lemma_le_roundtrip(num_edges);
    assert(b.subrange(0, 4) =~= le_bytes(num_nodes));
    assert(b.subrange(4, 8) =~= le_bytes(num_edges));
    assert((b.len() - 8) / 4 == w.len());
    assert forall|i: int| 0 <= i < w.len() implies body_fields(b)[i] == words_fields(w)[i] by {
        lemma_words_bytes_at(w, i);
        lemma_le_roundtrip(w[i]);
        assert(b.subrange(8 + 4 * i, 8 + 4 * i + 4) =~= words_bytes(w).subrange(4 * i, 4 * i + 4));
    }
    assert(body_fields(b) =~= words_fields(w));
}

/// Reading `f + g` is reading `f`, then `g` from where `f` left off.
pub(crate) proof fn lemma_decode_concat(n: u32, r: Result<DecodeState, DecodeError>, f: Seq<i32>, g: Seq<i32>)
    ensures
        decode_from(n, r, f + g) == decode_from(n, decode_from(n, r, f), g),
    decreases g.len(),
{
    if g.len() == 0 {
        assert(f + g =~= f);
    } else {
        assert((f + g).drop_last() =~= f + g.drop_last());
        lemma_decode_concat(n, r, f, g.drop_last());
    }
}

/// Reading the stored neighbours of a list appends them to the open list.
proof fn lemma_decode_targets(n: u32, st: DecodeState, row: Seq<u32>)
    requires
        st.0 < n,
        st.1.len() == n,
        forall|k: int| 0 <= k < row.len() ==> row[k] < 0x7fff_ffff,
    ensures
        decode_from(n, Ok(st), words_fields(stored_targets(row))) matches Ok(r) && r.0 == st.0
            && r.1 == st.1.update(st.0 as int, st.1[st.0 as int] + row) && r.3 == st.3 + row.len(),
    decreases row.len(),
{
    let f = words_fields(stored_targets(row));
    if row.len() == 0 {
        assert(st.1.update(st.0 as int, st.1[st.0 as int] + row) =~= st.1);
    } else {
        let rest = row.drop_last();
        lemma_decode_targets(n, st, rest);
        assert(f.drop_last() =~= words_fields(stored_targets(rest)));
        let t = row.last();
        assert(f.last() == bits_i32((t + 1) as u32 as int));
        assert(f.last() == t + 1);
        let prev = st.1.update(st.0 as int, st.1[st.0 as int] + rest);
        assert((st.1[st.0 as int] + rest).push(t) =~= st.1[st.0 as int] + row);
        assert(prev.update(st.0 as int, prev[st.0 as int].push(t)) =~= st.1.update(st.0 as int, st.1[st.0 as int] + row));
    }
}

/// Reading the words of one list, for node `i` whose list is still empty.
proof fn lemma_decode_record(n: u32, st: DecodeState, i: int, row: Seq<u32>)
    requires
        0 <= i < n,
        i < 0x7fff_ffff,
        st.1.len() == n,
        st.1[i] == Seq::<u32>::empty(),
        forall|k: int| 0 <= k < row.len() ==> row[k] < 0x7fff_ffff,
    ensures
        decode_from(n, Ok(st), words_fields(record_words(i + 1, stored_targets(row)))) matches Ok(r)
            && r.1 == st.1.update(i, row) && r.3 == st.3 + row.len(),
{
    let m = words_fields(seq![marker_word(i + 1)]);
    let t = words_fields(stored_targets(row));
    assert(words_fields(record_words(i + 1, stored_targets(row))) =~= m + t);
    lemma_decode_concat(n, Ok(st), m, t);
    assert(m.drop_last() =~= Seq::<i32>::empty());
    assert(m.last() == -(i + 1));
    let st1: DecodeState = (i as u32, st.1, st.2, st.3);
    assert(decode_from(n, Ok(st), m.drop_last()) == Ok::<DecodeState, DecodeError>(st));
    assert(decode_from(n, Ok(st), m) == Ok::<DecodeState, DecodeError>(st1));
    lemma_decode_targets(n, st1, row);
    assert(st.1.update(i, st.1[i] + row) =~= st.1.update(i, row));
}

/// Reading the words of one list of 1-based node `id`, whatever lists came before: its
/// stored neighbours, each less one, are appended to the list of node `id - 1`.
pub(crate) proof fn lemma_decode_record_words(n: u32, st: DecodeState, id: int, ts: Seq<u32>)
    requires
        1 <= id <= n,
        id < 0x8000_0000,
        st.1.len() == n,
        forall|k: int| 0 <= k < ts.len() ==> 1 <= #[trigger] ts[k] < 0x8000_0000,
    ensures
        decode_from(n, Ok(st), words_fields(record_words(id, ts))) matches Ok(r)
            && r.1 == st.1.update(id - 1, st.1[id - 1] + ts.map_values(|t: u32| (t - 1) as u32))
            && r.1.len() == n
            && r.3 == st.3 + ts.len(),
{
    let row = ts.map_values(|t: u32| (t - 1) as u32);
    assert(stored_targets(row) =~= ts);
    let m = words_fields(seq![marker_word(id)]);
    let t = words_fields(ts);
    assert(words_fields(record_words(id, ts)) =~= m + t);
    lemma_decode_concat(n, Ok(st), m, t);
    assert(m.drop_last() =~= Seq::<i32>::empty());
    assert(m.last() == -id);
    let st1: DecodeState = ((id - 1) as u32, st.1, st.2, st.3);
    assert(decode_from(n, Ok(st), m.drop_last()) == Ok::<DecodeState, DecodeError>(st));
    assert(decode_from(n, Ok(st), m) == Ok::<DecodeState, DecodeError>(st1));
    lemma_decode_targets(n, st1, row);
}

/// The lists that a decoder holds after reading the lists `rows` in order, out of `n` nodes.
pub open spec fn padded_lists(n: u32, rows: Seq<Seq<u32>>) -> Seq<Seq<u32>> {
    Seq::new(n as nat, |i: int| if i < rows.len() { rows[i] } else { Seq::<u32>::empty() })
}

proof fn lemma_decode_rows(n: u32, rows: Seq<Seq<u32>>)
    requires
        rows.len() <= n,
        rows.len() < 0x8000_0000,
        forall|i: int, k: int| 0 <= i < rows.len() && 0 <= k < rows[i].len() ==> rows[i][k] < 0x7fff_ffff,
    ensures
        decode_fields(n, words_fields(rows_words(rows))) matches Ok(r)
            && r.1 == padded_lists(n, rows) && r.3 == total_len(rows),
    decreases rows.len(),
{
    if rows.len() == 0 {
        assert(words_fields(rows_words(rows)) =~= Seq::<i32>::empty());
        assert(padded_lists(n, rows) =~= decode_start(n).1);
    } else {
        let front = rows.drop_last();
        lemma_decode_rows(n, front);
        let i = rows.len() - 1;
        let a = words_fields(rows_words(front));
        let b = words_fields(record_words(i + 1, stored_targets(rows.last())));
        assert(words_fields(rows_words(rows)) =~= a + b);
        lemma_decode_concat(n, Ok(decode_start(n)), a, b);
        let st = decode_fields(n, a)->Ok_0;
        assert(st.1[i] == padded_lists(n, front)[i]);
        lemma_decode_record(n, st, i, rows.last());
        assert(padded_lists(n, front).update(i, rows.last()) =~= padded_lists(n, rows));
    }
}

/// Round trip of the binary format: a file written from `rows` (list `i` for node `i`,
/// with the true edge count) reads back as those lists, padded with empty lists up to
/// the node count of the header. Neighbours must stay below `2^31 - 1` and the lists
/// fewer than `2^31`, so that every stored field keeps its sign.
pub proof fn lemma_cecilia_roundtrip(n: u32, rows: Seq<Seq<u32>>)
    requires
        rows.len() <= n,
        rows.len() < 0x8000_0000,
        total_len(rows) <= u32::MAX,
        forall|i: int, k: int| 0 <= i < rows.len() && 0 <= k < rows[i].len() ==> rows[i][k] < 0x7fff_ffff,
    ensures
        decode_spec(cecilia_bytes(n, total_len(rows) as u32, rows_words(rows))) matches Ok(r)
            && r.1 == padded_lists(n, rows),
{
    lemma_body_fields(n, total_len(rows) as u32, rows_words(rows));
    lemma_decode_rows(n, rows);
}


/// Reads a Cecilia graph; the bytes must be one (`try_decode_cecilia` tells).
pub fn decode_cecilia(bytes: &[u8]) -> (g: CeciliaGraph)
    requires
        decode_spec(bytes@) is Ok,
    ensures
        ({
            let st = decode_spec(bytes@)->Ok_0;
            &&& g.num_nodes == word_at(bytes@, 0)
            &&& g.adjacency@.len() == g.num_nodes
            &&& g.last_node == st.0
            &&& lists_view(&g.adjacency) == st.1
            &&& g.max_target == st.2
        }),
{
    try_decode_cecilia(bytes).unwrap()
}

} // verus!
