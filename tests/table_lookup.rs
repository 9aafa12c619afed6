use connect3::codec::{board_to_number, number_to_board};
use connect3::enumerate::generate_unique_from;
use connect3::pipeline::answer_query;
use connect3::solve::minimax_tree;
use connect3::table::{build, decode_states, encode_states, encode_table, get_best_move};

fn three_records() -> Vec<(u64, i8, i8)> {
    vec![(10, 4, 1), (20, -1, 0), (300, 26, 2)]
}

#[test]
fn building_sorts_and_drops_repeats() {
    let input = vec![(300, 26, 2), (10, 4, 1), (20, -1, 0), (10, 4, 1)];
    assert_eq!(build(input), three_records());
    assert_eq!(build(vec![]), vec![]);
    assert_eq!(build(vec![(5, 1, 1), (5, 0, 2)]), vec![(5, 0, 2), (5, 1, 1)]);
}

#[test]
fn rebuilding_from_reordered_records_gives_identical_bytes() {
    let a = build(vec![(20, -1, 0), (300, 26, 2), (10, 4, 1)]);
    let b = build(vec![(10, 4, 1), (10, 4, 1), (300, 26, 2), (20, -1, 0)]);
    assert_eq!(a, b);
    assert_eq!(encode_table(&a), encode_table(&b));
}

#[test]
fn records_take_ten_bytes() {
    let bytes = encode_table(&vec![(1, -1, 2), (0x0102030405060708, 13, 1)]);
    assert_eq!(
        bytes,
        vec![1, 0, 0, 0, 0, 0, 0, 0, 255, 2, 8, 7, 6, 5, 4, 3, 2, 1, 13, 1]
    );
}

#[test]
fn lookup_in_a_three_record_table() {
    let bytes = encode_table(&three_records());
    assert_eq!(get_best_move(&bytes, 10), Some((4, 1)));
    assert_eq!(get_best_move(&bytes, 20), Some((-1, 0)));
    assert_eq!(get_best_move(&bytes, 300), Some((26, 2)));
    assert_eq!(get_best_move(&bytes, 15), None);
    assert_eq!(get_best_move(&bytes, 0), None);
    assert_eq!(get_best_move(&bytes, 9), None);
    assert_eq!(get_best_move(&bytes, 301), None);
    assert_eq!(get_best_move(&bytes, u64::MAX), None);
}

#[test]
fn lookup_in_empty_or_truncated_tables() {
    assert_eq!(get_best_move(&vec![], 0), None);
    let mut bytes = encode_table(&three_records());
    bytes.truncate(25);
    assert_eq!(get_best_move(&bytes, 10), Some((4, 1)));
    assert_eq!(get_best_move(&bytes, 20), Some((-1, 0)));
    assert_eq!(get_best_move(&bytes, 300), None);
}

#[test]
fn answering_a_query_plays_the_recorded_move() {
    let mut b = connect3::codec::make_new_board();
    let cells = [(0, 2), (1, 1), (4, 2), (3, 1), (13, 2), (10, 1), (2, 2), (9, 1), (18, 2), (5, 1)];
    for &(i, v) in &cells {
        b.data[i] = v;
    }
    let start = board_to_number(&b);
    let states = generate_unique_from(start).unwrap();
    let table = encode_table(&build(minimax_tree(&states).unwrap()));
    let a = answer_query(&table, start).unwrap();
    let (stored, value) = get_best_move(&table, start).unwrap();
    assert_eq!(a.stored_move, stored);
    assert_eq!(a.winner, value);
    assert!(stored >= 0);
    let column = 3 * (stored % 3) + (stored / 3) % 3;
    assert_eq!(a.human_move, column);
    let g = number_to_board(start).unwrap();
    let mut expected = g.board;
    expected.data[stored as usize] = g.player;
    assert_eq!(a.next_game.board, expected);
    assert_eq!(a.next_state, board_to_number(&expected));
    assert_eq!(answer_query(&table, start + 1), None);
}

#[test]
fn state_lists_take_eight_bytes_each() {
    let states = vec![0u64, 1, 0x0102030405060708, u64::MAX];
    let bytes = encode_states(&states);
    assert_eq!(bytes.len(), 32);
    assert_eq!(&bytes[16..24], &[8, 7, 6, 5, 4, 3, 2, 1]);
    assert_eq!(&bytes[24..32], &[255; 8]);
    assert_eq!(decode_states(&bytes), states);
    let mut cut = bytes.clone();
    cut.truncate(20);
    assert_eq!(decode_states(&cut), vec![0, 1]);
}
