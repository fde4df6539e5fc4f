use transopt::node::Node;
use transopt::parse::{parse_i32, parse_task, parse_usize, split_on};

#[test]
fn split_keeps_empty_pieces() {
    let pieces = split_on("a  b".as_bytes(), b' ');
    assert_eq!(pieces, vec![b"a".to_vec(), Vec::new(), b"b".to_vec()]);
    assert_eq!(split_on(b"", b'_'), vec![Vec::<u8>::new()]);
    assert_eq!(split_on(b"0_1_", b'_'), vec![b"0".to_vec(), b"1".to_vec(), Vec::new()]);
}

#[test]
fn parse_usize_follows_str_parse() {
    assert_eq!(parse_usize(b"42"), Some(42));
    assert_eq!(parse_usize(b"+42"), Some(42));
    assert_eq!(parse_usize(b"007"), Some(7));
    assert_eq!(parse_usize(b""), None);
    assert_eq!(parse_usize(b"+"), None);
    assert_eq!(parse_usize(b"-1"), None);
    assert_eq!(parse_usize(b"4 2"), None);
    assert_eq!(parse_usize(b"18446744073709551615"), "18446744073709551615".parse::<usize>().ok());
    assert_eq!(parse_usize(b"18446744073709551616"), None);
}

#[test]
fn parse_i32_follows_str_parse() {
    for s in ["0", "-0", "+5", "-5", "2147483647", "-2147483648", "2147483648", "-2147483649", "", "-", "+", "1x", "--1", "+-1"] {
        assert_eq!(parse_i32(s.as_bytes()), s.parse::<i32>().ok(), "{}", s);
    }
}

#[test]
fn parse_task_reads_the_cells() {
    let r = parse_task("s0_10 s1_20", "d0_15 d1_15", "0_0_4 0_1_6 1_0_5 1_1_3");
    let (v, s, d) = r.unwrap();
    assert_eq!(s, 2);
    assert_eq!(d, 2);
    assert_eq!(
        v,
        vec![
            Node { s_node_id: 0, s_qty: 10, d_node_id: 0, d_qty: 15, node_cost: 4, node_qty: 0 },
            Node { s_node_id: 0, s_qty: 10, d_node_id: 1, d_qty: 15, node_cost: 6, node_qty: 0 },
            Node { s_node_id: 1, s_qty: 20, d_node_id: 0, d_qty: 15, node_cost: 5, node_qty: 0 },
            Node { s_node_id: 1, s_qty: 20, d_node_id: 1, d_qty: 15, node_cost: 3, node_qty: 0 },
        ]
    );
}

#[test]
fn parse_task_takes_the_second_piece_of_a_quantity() {
    let (v, s, d) = parse_task("a_7_9", "b_-3", "0_0_1").unwrap();
    assert_eq!((s, d), (1, 1));
    assert_eq!(v[0].s_qty, 7);
    assert_eq!(v[0].d_qty, -3);
}

#[test]
fn parse_task_refuses_malformed_tokens() {
    assert!(parse_task("s0_x", "d0_1", "0_0_1").is_none());
    assert!(parse_task("s0", "d0_1", "0_0_1").is_none());
    assert!(parse_task("s0_1", "d0_1", "0_0").is_none());
    assert!(parse_task("s0_1", "d0_1", "0_1_1").is_none());
    assert!(parse_task("s0_1", "d0_1", "1_0_1").is_none());
    assert!(parse_task("s0_1", "d0_1", "0_0_2147483648").is_none());
    assert!(parse_task("s0_1  s1_2", "d0_1", "0_0_1").is_none());
}

#[test]
fn parse_task_with_extra_pieces_in_a_cost() {
    let (v, _, _) = parse_task("s0_1", "d0_2", "0_0_5_junk").unwrap();
    assert_eq!(v[0].node_cost, 5);
}
