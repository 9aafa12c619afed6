use connect3::codec::{
    board_to_number, count_pieces, game_to_number, make_new_board, number_to_board, Board,
    CodecError, Game, STATE_LIMIT,
};
use connect3::rules::{
    _get_num_open_spaces, check_win_direction, get_all_next_numbers, get_all_next_states,
    get_top, has_line_of, is_full, is_over, is_terminal, place_new_piece, switch_player, winner,
};
use connect3::text::game_to_str;

fn idx(x: usize, y: usize, z: usize) -> usize {
    x + 3 * y + 9 * z
}

fn board_with(cells: &[(usize, usize, usize, i8)]) -> Board {
    let mut b = make_new_board();
    for &(x, y, z, v) in cells {
        b.data[idx(x, y, z)] = v;
    }
    b
}

fn game_of(b: Board) -> Game {
    let pieces = b.data.iter().filter(|&&c| c != 0).count();
    Game { board: b, player: if pieces % 2 == 0 { 1 } else { 2 } }
}

#[test]
fn empty_board_is_state_zero() {
    let b = make_new_board();
    assert!(b.data.iter().all(|&c| c == 0));
    assert_eq!(board_to_number(&b), 0);
    let g = number_to_board(0).unwrap();
    assert_eq!(g.board, b);
    assert_eq!(g.player, 1);
}

#[test]
fn encoding_weights_are_powers_of_three() {
    assert_eq!(board_to_number(&board_with(&[(0, 0, 0, 1)])), 1);
    assert_eq!(board_to_number(&board_with(&[(1, 0, 0, 2)])), 6);
    assert_eq!(board_to_number(&board_with(&[(0, 0, 1, 1)])), 19683);
    assert_eq!(board_to_number(&board_with(&[(2, 2, 2, 2)])), 2 * 3u64.pow(26));
    let mut b = make_new_board();
    let mut expected: u64 = 0;
    for i in 0..27 {
        b.data[i] = (i % 3) as i8;
        expected += (i as u64 % 3) * 3u64.pow(i as u32);
    }
    assert_eq!(board_to_number(&b), expected);
    assert_eq!(game_to_number(Game { board: b, player: 1 }), expected);
}

#[test]
fn decoding_rejects_numbers_out_of_range() {
    assert_eq!(STATE_LIMIT, 3u64.pow(27));
    assert_eq!(number_to_board(STATE_LIMIT), Err(CodecError::OutOfRange));
    assert_eq!(number_to_board(u64::MAX), Err(CodecError::OutOfRange));
    let g = number_to_board(STATE_LIMIT - 1).unwrap();
    assert!(g.board.data.iter().all(|&c| c == 2));
    assert_eq!(g.player, 2);
}

#[test]
fn round_trip_of_a_gravity_valid_board() {
    let b = board_with(&[
        (0, 0, 0, 1),
        (0, 0, 1, 2),
        (0, 0, 2, 1),
        (1, 2, 0, 2),
        (2, 1, 0, 1),
        (2, 1, 1, 2),
        (1, 1, 0, 1),
    ]);
    let n = board_to_number(&b);
    let g = number_to_board(n).unwrap();
    assert_eq!(g.board, b);
    assert_eq!(g.player, 2);
    assert_eq!(count_pieces(&g.board), 7);
    let b2 = board_with(&[(0, 0, 0, 1), (1, 0, 0, 2)]);
    let g2 = number_to_board(board_to_number(&b2)).unwrap();
    assert_eq!(g2.board, b2);
    assert_eq!(g2.player, 1);
}

#[test]
fn column_of_first_player_is_a_win() {
    let b = board_with(&[(0, 0, 0, 1), (0, 0, 1, 1), (0, 0, 2, 1), (1, 0, 0, 2), (2, 0, 0, 2)]);
    let g = game_of(b);
    assert!(is_terminal(&g));
    assert!(is_over(&g));
    assert_eq!(winner(&g), 1);
    assert!(!has_line_of(&g, 2));
}

#[test]
fn face_anti_diagonal_is_a_line() {
    let b = board_with(&[
        (0, 0, 0, 2),
        (0, 0, 1, 2),
        (0, 1, 0, 1),
        (0, 2, 0, 1),
        (0, 1, 1, 1),
        (0, 0, 2, 1),
        (1, 0, 0, 2),
    ]);
    let g = game_of(b);
    assert!(is_over(&g));
    assert_eq!(winner(&g), 1);
}

#[test]
fn space_diagonal_and_second_player_lines() {
    let diag = board_with(&[
        (0, 0, 0, 2),
        (1, 1, 0, 1),
        (1, 1, 1, 2),
        (2, 2, 0, 1),
        (2, 2, 1, 1),
        (2, 2, 2, 2),
    ]);
    assert_eq!(winner(&game_of(diag)), 2);
    let row = board_with(&[(0, 1, 0, 2), (1, 1, 0, 2), (2, 1, 0, 2), (0, 0, 0, 1), (1, 0, 0, 1)]);
    let g = game_of(row);
    assert!(is_over(&g));
    assert_eq!(winner(&g), 2);
}

#[test]
fn empty_board_is_not_over() {
    let g = Game { board: make_new_board(), player: 1 };
    assert!(!is_terminal(&g));
    assert!(!is_over(&g));
    assert!(!is_full(&g));
    assert_eq!(winner(&g), 0);
    assert_eq!(_get_num_open_spaces(&g), 27);
}

#[test]
fn full_board_is_terminal() {
    let mut b = make_new_board();
    for i in 0..27 {
        b.data[i] = if i % 2 == 0 { 1 } else { 2 };
    }
    let g = Game { board: b, player: 2 };
    assert!(is_full(&g));
    assert!(is_terminal(&g));
    assert_eq!(_get_num_open_spaces(&g), 0);
}

#[test]
fn check_win_direction_walks_a_line() {
    let b = board_with(&[(0, 0, 0, 1), (0, 0, 1, 1), (0, 0, 2, 1)]);
    let g = game_of(b);
    assert!(check_win_direction(&g, 0, 0, 0, 0, 0, 1, 3, -1));
    assert!(check_win_direction(&g, 0, 0, 2, 0, 0, -1, 3, -1));
    assert!(!check_win_direction(&g, 0, 0, 0, 1, 0, 0, 3, -1));
    assert!(!check_win_direction(&g, 3, 0, 0, 1, 0, 0, 3, -1));
    assert!(!check_win_direction(&g, 0, 0, 1, 0, 0, 1, 3, -1));
    assert!(check_win_direction(&g, 0, 0, 1, 0, 0, 1, 2, 1));
    assert!(!check_win_direction(&g, 0, 0, 1, 0, 0, 1, 2, 2));
    assert!(!check_win_direction(&g, 0, 0, 0, 0, 0, 1, 0, 1));
}

#[test]
fn switching_players() {
    assert_eq!(switch_player(1), 2);
    assert_eq!(switch_player(2), 1);
}

#[test]
fn dropping_pieces_follows_gravity() {
    let mut b = make_new_board();
    assert_eq!(get_top(b, 1, 2), Some(0));
    assert_eq!(place_new_piece(&mut b, 1, 2, 1), Some(0));
    assert_eq!(place_new_piece(&mut b, 1, 2, 2), Some(1));
    assert_eq!(get_top(b, 1, 2), Some(2));
    assert_eq!(place_new_piece(&mut b, 1, 2, 1), Some(2));
    assert_eq!(b.data[idx(1, 2, 0)], 1);
    assert_eq!(b.data[idx(1, 2, 1)], 2);
    assert_eq!(b.data[idx(1, 2, 2)], 1);
    let before = b;
    assert_eq!(get_top(b, 1, 2), None);
    assert_eq!(place_new_piece(&mut b, 1, 2, 2), None);
    assert_eq!(b, before);
}

#[test]
fn successors_come_in_column_order() {
    let states = get_all_next_states(make_new_board(), 1);
    assert_eq!(states.len(), 9);
    for (c, s) in states.iter().enumerate() {
        let (x, y) = (c / 3, c % 3);
        for i in 0..27 {
            let expected = if i == idx(x, y, 0) { 1 } else { 0 };
            assert_eq!(s.data[i], expected);
        }
    }
    let numbers = get_all_next_numbers(Game { board: make_new_board(), player: 1 });
    let expected: Vec<u64> =
        (0..9).map(|c: usize| 3u64.pow((c / 3 + 3 * (c % 3)) as u32)).collect();
    assert_eq!(numbers, expected);
}

#[test]
fn full_columns_give_no_successor() {
    let mut b = make_new_board();
    for z in 0..3 {
        b.data[idx(0, 0, z)] = if z == 1 { 2 } else { 1 };
        b.data[idx(2, 2, z)] = if z == 1 { 1 } else { 2 };
    }
    let states = get_all_next_states(b, 1);
    assert_eq!(states.len(), 7);
    assert_eq!(states[0].data[idx(0, 1, 0)], 1);
    let numbers = get_all_next_numbers(Game { board: b, player: 1 });
    assert_eq!(numbers.len(), 7);
    assert_eq!(numbers[0], board_to_number(&states[0]));
}

#[test]
fn rendering_a_board() {
    let empty_layer = "0 0 0\n0 0 0\n0 0 0\n\n";
    assert_eq!(game_to_str(Game { board: make_new_board(), player: 1 }), empty_layer.repeat(3));
    let b = board_with(&[(1, 2, 0, 1), (1, 2, 1, 2), (0, 0, 0, 2)]);
    let text = game_to_str(game_of(b));
    assert_eq!(text, "2 0 0\n0 0 1\n0 0 0\n\n0 0 0\n0 0 2\n0 0 0\n\n0 0 0\n0 0 0\n0 0 0\n\n");
}
