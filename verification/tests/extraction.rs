use std::collections::HashSet;

use biclique_graph::biclique::{
    biclique_self_loops, check_bicliques_add_new_edges, max_node, node_to_bicliques, Bicliques,
};
use biclique_graph::cliques::{parse_bicliques, spacelist2intarray, spacelist_range, try_parse_bicliques, CliqueError};
use biclique_graph::degree::{node_degrees, try_node_degrees};
use biclique_graph::genuine::{check_genuine, try_check_genuine, GenuineError};
use biclique_graph::restore::{format_ascii_graph, restore_ascii_graph, restore_rows, try_restore_ascii_graph, try_restore_rows, RestoreError};
use biclique_graph::text::push_decimal;

fn file(n: u32, e: u32, fields: &[i32]) -> Vec<u8> {
    let mut v = n.to_le_bytes().to_vec();
    v.extend(e.to_le_bytes());
    for f in fields {
        v.extend(f.to_le_bytes());
    }
    v
}

fn set(v: &[u32]) -> HashSet<u32> {
    v.iter().copied().collect()
}

#[test]
fn spacelist_reads_one_based_ids() {
    assert_eq!(spacelist2intarray("1 2 3"), vec![0, 1, 2]);
    assert_eq!(spacelist2intarray(" 4  5 "), vec![3, 4]);
    assert_eq!(spacelist2intarray(""), Vec::<u32>::new());
    assert_eq!(spacelist2intarray("   "), Vec::<u32>::new());
    assert_eq!(spacelist2intarray("+7"), vec![6]);
    assert_eq!(spacelist2intarray("\u{3000}3\u{2003}"), vec![2]);
    assert_eq!(spacelist2intarray("4294967295"), vec![4294967294]);
    assert_eq!(spacelist2intarray("\t4\t 007\r"), vec![3, 6]);
    assert_eq!(spacelist2intarray("2 5 2 1"), vec![1, 4, 1, 0]);
}

fn spacelist(s: &str) -> Result<Vec<u32>, CliqueError> {
    spacelist_range(s.as_bytes(), 0, s.len())
}

#[test]
fn spacelist_errors() {
    assert_eq!(spacelist("0"), Err(CliqueError::ZeroNode));
    assert_eq!(spacelist("1 0 2"), Err(CliqueError::ZeroNode));
    assert_eq!(spacelist("1 a"), Err(CliqueError::InvalidNumber));
    assert_eq!(spacelist("4294967296"), Err(CliqueError::InvalidNumber));
    assert_eq!(spacelist("+"), Err(CliqueError::InvalidNumber));
    assert_eq!(spacelist("-3"), Err(CliqueError::InvalidNumber));
    assert_eq!(spacelist("1\t2"), Err(CliqueError::InvalidNumber));
    assert_eq!(spacelist("3 1"), Ok(vec![2, 0]));
}

#[test]
fn spacelist_range_reads_part_of_a_line() {
    let line = b"9 1 2-3";
    assert_eq!(spacelist_range(line, 2, 5), Ok(vec![0, 1]));
    assert_eq!(spacelist_range(line, 6, 7), Ok(vec![2]));
}

#[test]
fn spacelists_joined_by_a_space_concatenate() {
    let a = "1 2";
    let b = " 7 3";
    let whole = format!("{} {}", a, b);
    let mut expected = spacelist2intarray(a);
    expected.extend(spacelist2intarray(b));
    assert_eq!(spacelist2intarray(&whole), expected);
    assert_eq!(spacelist2intarray(&format!(" {}", b)), spacelist2intarray(b));
    assert_eq!(spacelist(&format!("{} {}", "0", b)), Err(CliqueError::ZeroNode));
}

#[test]
fn spacelist_written_then_read_gives_the_ids() {
    let ids: Vec<u32> = vec![0, 5, 4294967294, 5];
    let text = ids.iter().map(|x| (x + 1).to_string()).collect::<Vec<String>>().join(" ");
    assert_eq!(text, "1 6 4294967295 6");
    assert_eq!(spacelist2intarray(&text), ids);
}

#[test]
fn biclique_file_is_parsed() {
    let b = parse_bicliques("1 2-3 4\r\n5 -6\n");
    assert_eq!(b.from, vec![vec![0, 1], vec![4]]);
    assert_eq!(b.to, vec![vec![2, 3], vec![5]]);
    assert_eq!(parse_bicliques("").from, Vec::<Vec<u32>>::new());
}

#[test]
fn biclique_file_checked_reading() {
    let b = try_parse_bicliques("2-1\n").unwrap();
    assert_eq!(b.from, vec![vec![1]]);
    assert_eq!(b.to, vec![vec![0]]);
}

#[test]
fn biclique_file_errors() {
    assert_eq!(try_parse_bicliques("1 2\n").err(), Some(CliqueError::MalformedLine));
    assert_eq!(try_parse_bicliques("1-2-3\n").err(), Some(CliqueError::MalformedLine));
    assert_eq!(try_parse_bicliques("0-2\n").err(), Some(CliqueError::ZeroNode));
    assert_eq!(try_parse_bicliques("1-x\n").err(), Some(CliqueError::InvalidNumber));
}

fn sample() -> (Vec<Vec<u32>>, Bicliques) {
    // remaining lists of nodes 0..3, and bicliques {0,1} -> {2,3} and {1,3} -> {1}
    let adjacency = vec![vec![1], vec![0], vec![], vec![2]];
    let bicliques = Bicliques { from: vec![vec![0, 1], vec![1, 3]], to: vec![vec![2, 3], vec![1]] };
    (adjacency, bicliques)
}

#[test]
fn node_map_lists_bicliques_in_order() {
    let (_, b) = sample();
    let m = node_to_bicliques(&b.from);
    assert_eq!(m.len(), 3);
    assert_eq!(m[&0], vec![0]);
    assert_eq!(m[&1], vec![0, 1]);
    assert_eq!(m[&3], vec![1]);
    let twice = node_to_bicliques(&vec![vec![2, 2], vec![2]]);
    assert_eq!(twice[&2], vec![0, 0, 1]);
}

#[test]
fn self_loops_of_bicliques() {
    let (_, b) = sample();
    assert_eq!(biclique_self_loops(&b), set(&[1]));
}

#[test]
fn new_edges_check() {
    let (adj, b) = sample();
    assert!(check_bicliques_add_new_edges(&adj, &b));
    let adj2 = vec![vec![3], vec![0], vec![], vec![2]];
    assert!(!check_bicliques_add_new_edges(&adj2, &b));
}

#[test]
fn largest_node() {
    assert_eq!(max_node(&vec![vec![3, 9], vec![], vec![4]]), 9);
    assert_eq!(max_node(&vec![]), 0);
}

#[test]
fn degrees_count_lists_bicliques_and_self_loops() {
    let (adj, b) = sample();
    let d = node_degrees(&adj, &b, &set(&[1]), &set(&[2]));
    // node 0: 1 + 2; node 1: 1 + 2 + 1 - 1; node 2: 0 + 1; node 3: 1 + 1
    assert_eq!(d, vec![3, 3, 1, 2]);
    let d = node_degrees(&adj, &b, &set(&[]), &set(&[]));
    assert_eq!(d, vec![3, 4, 0, 2]);
}

#[test]
fn degrees_cover_nodes_beyond_the_lists() {
    let adj = vec![vec![0]];
    let b = Bicliques { from: vec![vec![2]], to: vec![vec![0, 1]] };
    let d = node_degrees(&adj, &b, &set(&[]), &set(&[]));
    assert_eq!(d, vec![1, 0, 2]);
}

#[test]
fn restore_merges_and_sorts() {
    let (adj, b) = sample();
    let rows = restore_rows(&adj, &b);
    assert_eq!(rows, vec![vec![1, 2, 3], vec![0, 2, 3], vec![], vec![1, 2]]);
    let text = restore_ascii_graph(&adj, &b);
    assert_eq!(String::from_utf8(text).unwrap(), "4\n1 2 3 \n0 2 3 \n\n1 2 \n");
}

#[test]
fn restore_keeps_unmerged_lists_as_they_are() {
    let adj = vec![vec![2, 0, 2], vec![1]];
    let b = Bicliques { from: vec![vec![1]], to: vec![vec![1, 0]] };
    let rows = restore_rows(&adj, &b);
    assert_eq!(rows, vec![vec![2, 0, 2], vec![0]]);
}

#[test]
fn restore_adds_nodes_of_bicliques() {
    let adj = vec![vec![1]];
    let b = Bicliques { from: vec![vec![2], vec![1]], to: vec![vec![2, 0], vec![0]] };
    let rows = restore_rows(&adj, &b);
    assert_eq!(rows, vec![vec![1], vec![0], vec![0]]);
}

#[test]
fn restore_errors() {
    let adj = vec![vec![1]];
    let b = Bicliques { from: vec![vec![2]], to: vec![vec![0]] };
    assert_eq!(try_restore_rows(&adj, &b).err(), Some(RestoreError::NodeWithoutList));
    let none = Bicliques { from: vec![], to: vec![] };
    assert_eq!(try_restore_rows(&vec![], &none).err(), Some(RestoreError::NodeWithoutList));
}

#[test]
fn restore_without_bicliques_gives_the_lists() {
    let adj = vec![vec![1, 2], vec![], vec![0]];
    let none = Bicliques { from: vec![], to: vec![] };
    let text = restore_ascii_graph(&adj, &none);
    assert_eq!(String::from_utf8(text).unwrap(), "3\n1 2 \n\n0 \n");
}

#[test]
fn decimal_formatting() {
    let mut out = Vec::new();
    push_decimal(&mut out, 0);
    push_decimal(&mut out, 4294967295);
    assert_eq!(out, b"04294967295".to_vec());
    let text = format_ascii_graph(10, &vec![vec![100, 7]]);
    assert_eq!(text, b"10\n100 7 \n".to_vec());
}

#[test]
fn genuine_confirms_extraction() {
    let (adj, b) = sample();
    // genuine graph: 0 -> 1 2 3, 1 -> 0 1 2 3, 2 -> 2, 3 -> 1 2
    let genuine = file(4, 10, &[-1, 2, 3, 4, -2, 1, 2, 3, 4, -3, 3, -4, 2, 3]);
    let out = check_genuine(&genuine, &adj, &b, 3, 2, set(&[1]));
    assert_eq!(out.self_loops, set(&[]));
    assert_eq!(out.unstored_self_loops, set(&[2]));
    assert_eq!(out.max_target, 3);
}

#[test]
fn genuine_errors() {
    let (adj, b) = sample();
    assert_eq!(try_check_genuine(&[0, 0], &adj, &b, 0, 0, set(&[])).err(), Some(GenuineError::TruncatedHeader));
    assert_eq!(try_check_genuine(&file(1, 1, &[-1, 0]), &adj, &b, 0, 0, set(&[])).err(), Some(GenuineError::ZeroField));
    assert_eq!(try_check_genuine(&file(1, 1, &[i32::MIN]), &adj, &b, 0, 0, set(&[])).err(), Some(GenuineError::MarkerOverflow));
    // node 2 -> 0 is neither a remaining edge nor in a biclique
    assert_eq!(try_check_genuine(&file(4, 1, &[-3, 1]), &adj, &b, 0, 0, set(&[])).err(), Some(GenuineError::EdgeNotRepresented));
    // node 0 lacks its edge to 3 of biclique 0 when the next node opens
    assert_eq!(try_check_genuine(&file(4, 2, &[-1, 2, 3, -2]), &adj, &b, 0, 0, set(&[])).err(), Some(GenuineError::ExtractedEdgeMissing));
    // the last node is not checked when the file ends
    assert!(try_check_genuine(&file(4, 2, &[-1, 2, 3]), &adj, &b, 0, 0, set(&[])).is_ok());
}

#[test]
fn genuine_self_loop_of_a_list_is_kept() {
    let adj = vec![vec![0]];
    let b = Bicliques { from: vec![], to: vec![] };
    let out = check_genuine(&file(1, 1, &[-1, 1]), &adj, &b, 0, 0, set(&[]));
    assert_eq!(out.unstored_self_loops, set(&[]));
}

#[test]
fn restoration_keeps_every_genuine_edge() {
    let (adj, b) = sample();
    let edges: Vec<(u32, Vec<u32>)> = vec![(0, vec![1, 2, 3]), (1, vec![0, 1, 2, 3]), (2, vec![2]), (3, vec![1, 2])];
    let mut fields = Vec::new();
    for (v, ws) in &edges {
        fields.push(-(*v as i32) - 1);
        for w in ws {
            fields.push(*w as i32 + 1);
        }
    }
    let genuine = file(4, 10, &fields);
    assert!(try_check_genuine(&genuine, &adj, &b, 3, 2, biclique_self_loops(&b)).is_ok());
    let rows = restore_rows(&adj, &b);
    for (v, ws) in &edges {
        for w in ws {
            if v != w {
                assert!(rows[*v as usize].contains(w));
            }
        }
    }
}

#[test]
fn checked_versions_agree_on_valid_input() {
    let (adj, b) = sample();
    assert_eq!(try_node_degrees(&adj, &b, &set(&[1]), &set(&[2])), Some(node_degrees(&adj, &b, &set(&[1]), &set(&[2]))));
    assert_eq!(try_restore_rows(&adj, &b).unwrap(), restore_rows(&adj, &b));
    assert_eq!(try_restore_ascii_graph(&adj, &b).unwrap(), restore_ascii_graph(&adj, &b));
    let genuine = file(4, 10, &[-1, 2, 3, 4, -2, 1, 2, 3, 4, -3, 3, -4, 2, 3]);
    let a = try_check_genuine(&genuine, &adj, &b, 3, 2, set(&[1])).unwrap();
    let c = check_genuine(&genuine, &adj, &b, 3, 2, set(&[1]));
    assert_eq!((a.self_loops, a.unstored_self_loops, a.max_target), (c.self_loops, c.unstored_self_loops, c.max_target));
}
