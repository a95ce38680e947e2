use biclique_graph::ascii_graph::{ascii_graph_to_cecilia, parse_ascii_graph, try_ascii_graph_to_cecilia, try_parse_ascii_graph, AsciiGraphError};
use biclique_graph::cecilia::{decode_cecilia, encode_words, try_decode_cecilia, DecodeError};
use biclique_graph::cecilia_text::{cecilia_text_to_cecilia, parse_cecilia_text, try_cecilia_text_to_cecilia, try_parse_cecilia_text, CeciliaTextError};
use biclique_graph::biclique::Bicliques;
use biclique_graph::restore::restore_ascii_graph;

fn le(w: u32) -> Vec<u8> {
    w.to_le_bytes().to_vec()
}

fn file(n: u32, e: u32, fields: &[i32]) -> Vec<u8> {
    let mut v = le(n);
    v.extend(le(e));
    for f in fields {
        v.extend(f.to_le_bytes());
    }
    v
}

#[test]
fn ascii_graph_is_parsed() {
    let g = parse_ascii_graph("3\n1 2\n0\n2\n");
    assert_eq!(g.num_nodes, 3);
    assert_eq!(g.rows, vec![vec![1, 2], vec![0], vec![2]]);
}

#[test]
fn ascii_graph_crlf_and_missing_final_newline() {
    let g = parse_ascii_graph("2\r\n1\r\n0");
    assert_eq!(g.num_nodes, 2);
    assert_eq!(g.rows, vec![vec![1], vec![0]]);
}

#[test]
fn ascii_graph_fields_are_trimmed() {
    let g = parse_ascii_graph("1\n\t7\u{a0} 8\n");
    assert_eq!(g.rows, vec![vec![7, 8]]);
}

#[test]
fn ascii_graph_bytes() {
    let bytes = ascii_graph_to_cecilia("3\n1 2\n0\n2\n");
    assert_eq!(bytes, file(3, 4, &[-1, 2, 3, -2, 1, -3, 3]));
}

#[test]
fn ascii_graph_header_only() {
    let bytes = ascii_graph_to_cecilia("5\n");
    assert_eq!(bytes, file(5, 0, &[]));
}

#[test]
fn ascii_graph_errors() {
    assert_eq!(try_parse_ascii_graph("").err(), Some(AsciiGraphError::MissingHeader));
    assert_eq!(try_parse_ascii_graph("x\n").err(), Some(AsciiGraphError::InvalidHeader));
    assert_eq!(try_parse_ascii_graph(" 3\n").err(), Some(AsciiGraphError::InvalidHeader));
    assert_eq!(try_parse_ascii_graph("4294967296\n").err(), Some(AsciiGraphError::InvalidHeader));
    assert_eq!(try_parse_ascii_graph("2\n1 \n").err(), Some(AsciiGraphError::InvalidNumber));
    assert_eq!(try_parse_ascii_graph("2\n \n").err(), Some(AsciiGraphError::InvalidNumber));
    assert_eq!(try_parse_ascii_graph("2\n-1\n").err(), Some(AsciiGraphError::InvalidNumber));
    assert_eq!(try_parse_ascii_graph("1\n4294967294\n").err(), Some(AsciiGraphError::NumberTooLarge));
    assert_eq!(parse_ascii_graph("1\n4294967293\n").rows, vec![vec![4294967293]]);
}

#[test]
fn ascii_graph_roundtrip_through_binary() {
    let text = "4\n1 2 3\n\n";
    // an empty line is the empty list of a node without neighbours
    assert_eq!(parse_ascii_graph(text).rows, vec![vec![1, 2, 3], vec![]]);
    let text = "4\n1 2 3\n0\n3 1\n";
    let g = parse_ascii_graph(text);
    let bytes = ascii_graph_to_cecilia(text);
    let back = decode_cecilia(&bytes);
    assert_eq!(back.num_nodes, 4);
    assert_eq!(back.adjacency[..3].to_vec(), g.rows);
    assert_eq!(back.adjacency[3], Vec::<u32>::new());
    assert_eq!(back.max_target, 3);
    assert_eq!(back.last_node, 2);
}

#[test]
fn decode_reads_lists() {
    let g = decode_cecilia(&file(3, 4, &[-1, 2, 3, -3, 1, -1, 3]));
    assert_eq!(g.adjacency, vec![vec![1, 2, 2], vec![], vec![0]]);
    assert_eq!(g.max_target, 2);
    assert_eq!(g.last_node, 0);
}

#[test]
fn decode_ignores_trailing_partial_field() {
    let mut bytes = file(1, 1, &[-1, 1]);
    bytes.extend([7u8, 7, 7]);
    let g = decode_cecilia(&bytes);
    assert_eq!(g.adjacency, vec![vec![0]]);
}

#[test]
fn decode_errors() {
    assert_eq!(try_decode_cecilia(&[1, 0, 0, 0, 0, 0, 0]).err(), Some(DecodeError::TruncatedHeader));
    assert_eq!(try_decode_cecilia(&file(1, 0, &[-1, 0])).err(), Some(DecodeError::ZeroField));
    assert_eq!(try_decode_cecilia(&file(1, 0, &[i32::MIN])).err(), Some(DecodeError::MarkerOverflow));
    assert_eq!(try_decode_cecilia(&file(1, 0, &[-2])).err(), Some(DecodeError::NodeOutOfRange));
    assert_eq!(try_decode_cecilia(&file(0, 1, &[1])).err(), Some(DecodeError::NodeOutOfRange));
    assert_eq!(try_decode_cecilia(&file(1, 2, &[-1, 1])).err(), Some(DecodeError::EdgeCountMismatch));
}

#[test]
fn encode_words_writes_little_endian() {
    let bytes = encode_words(0x01020304, 5, &vec![0xfffffffe, 7]);
    assert_eq!(bytes, vec![4, 3, 2, 1, 5, 0, 0, 0, 0xfe, 0xff, 0xff, 0xff, 7, 0, 0, 0]);
}

#[test]
fn cecilia_text_is_parsed() {
    let recs = parse_cecilia_text("1: 2 3\n3:1 3 0  4\n");
    assert_eq!(recs.len(), 2);
    assert_eq!(recs[0].node, 1);
    assert_eq!(recs[0].targets, vec![2, 3]);
    assert_eq!(recs[1].node, 3);
    assert_eq!(recs[1].targets, vec![1, 4]);
}

#[test]
fn cecilia_text_bytes() {
    let bytes = cecilia_text_to_cecilia("1: 2 3\n3:1 3 0  4\n");
    assert_eq!(bytes, file(3, 4, &[-1, 2, 3, -3, 1, 4]));
    let back = decode_cecilia(&bytes);
    assert_eq!(back.adjacency, vec![vec![1, 2], vec![], vec![0, 3]]);
}

#[test]
fn cecilia_text_large_id_marker_wraps() {
    let bytes = cecilia_text_to_cecilia("3000000000: 1\n");
    let marker = (-(3000000000u32 as i32)) as u32;
    let mut expected = le(3000000000);
    expected.extend(le(1));
    expected.extend(le(marker));
    expected.extend(le(1));
    assert_eq!(bytes, expected);
}

#[test]
fn cecilia_text_errors() {
    assert_eq!(try_parse_cecilia_text("1 2 3\n").err(), Some(CeciliaTextError::MalformedLine));
    assert_eq!(try_parse_cecilia_text("1: 2: 3\n").err(), Some(CeciliaTextError::MalformedLine));
    assert_eq!(try_parse_cecilia_text("a: 2\n").err(), Some(CeciliaTextError::InvalidNodeId));
    assert_eq!(try_parse_cecilia_text("0: 2\n").err(), Some(CeciliaTextError::ZeroNodeId));
    assert_eq!(try_parse_cecilia_text("4294967295: 2\n").err(), Some(CeciliaTextError::NodeIdTooLarge));
    assert_eq!(try_parse_cecilia_text("2147483648: 2\n").err(), Some(CeciliaTextError::MarkerOverflow));
    assert_eq!(try_parse_cecilia_text("1: x\n").err(), Some(CeciliaTextError::InvalidNumber));
    assert_eq!(try_parse_cecilia_text("1: 4294967295\n").err(), Some(CeciliaTextError::NumberTooLarge));
}

#[test]
fn cecilia_text_empty_input() {
    let bytes = cecilia_text_to_cecilia("");
    assert_eq!(bytes, file(0, 0, &[]));
}

#[test]
fn conversion_then_restore_gives_the_lists() {
    let text = "3\n2 1\n0\n0 1\n";
    let bytes = ascii_graph_to_cecilia(text);
    let back = decode_cecilia(&bytes);
    let none = Bicliques { from: vec![], to: vec![] };
    let restored = restore_ascii_graph(&back.adjacency, &none);
    assert_eq!(String::from_utf8(restored).unwrap(), "3\n2 1 \n0 \n0 1 \n");
}


#[test]
fn checked_conversions_agree_on_valid_input() {
    let text = "3\n1 2\n0\n2\n";
    assert_eq!(try_ascii_graph_to_cecilia(text).unwrap(), ascii_graph_to_cecilia(text));
    assert_eq!(try_parse_ascii_graph(text).unwrap().rows, parse_ascii_graph(text).rows);
    assert_eq!(try_ascii_graph_to_cecilia("x\n").err(), Some(AsciiGraphError::InvalidHeader));
    let records = "1: 2 3\n";
    assert_eq!(try_cecilia_text_to_cecilia(records).unwrap(), cecilia_text_to_cecilia(records));
    assert_eq!(try_parse_cecilia_text(records).unwrap().len(), parse_cecilia_text(records).len());
    assert_eq!(try_cecilia_text_to_cecilia("0: 1\n").err(), Some(CeciliaTextError::ZeroNodeId));
    let bytes = ascii_graph_to_cecilia(text);
    assert_eq!(try_decode_cecilia(&bytes).unwrap().adjacency, decode_cecilia(&bytes).adjacency);
}


#[test]
fn ascii_graph_empty_lines_are_empty_lists() {
    let g = parse_ascii_graph("3\n\n2\n\n");
    assert_eq!(g.rows, vec![vec![], vec![2], vec![]]);
    let bytes = ascii_graph_to_cecilia("3\n\n2\n\n");
    assert_eq!(bytes, file(3, 1, &[-1, -2, 3, -3]));
    let back = decode_cecilia(&bytes);
    assert_eq!(back.adjacency, vec![vec![], vec![2], vec![]]);
}

#[test]
fn cecilia_text_roundtrip_gathers_lines_of_a_node() {
    let text = "2: 1 3\n1: 2\n2: 4 2\n";
    let bytes = cecilia_text_to_cecilia(text);
    let back = decode_cecilia(&bytes);
    assert_eq!(back.num_nodes, 2);
    assert_eq!(back.adjacency, vec![vec![1], vec![0, 2, 3]]);
}

#[test]
fn conversion_with_fewer_lists_than_nodes_restores_padded_lists() {
    let text = "3\n1\n";
    let back = decode_cecilia(&ascii_graph_to_cecilia(text));
    let none = Bicliques { from: vec![], to: vec![] };
    let restored = restore_ascii_graph(&back.adjacency, &none);
    assert_eq!(String::from_utf8(restored).unwrap(), "3\n1 \n\n\n");
}
