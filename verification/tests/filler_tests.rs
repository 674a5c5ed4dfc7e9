use filler::input::{get_player_info, piece_read_would_fail, read_map, read_piece, trim_piece, Scan};
use filler::logic::{
    can_place, find_best_move, get_positions, shortest_distance_between_players, untrimmed_position,
};
use filler::models::{Board, Piece, Player};
use filler::text::{is_whitespace_char, parse_number, split_words};
use filler::valid;
use filler::visualizer::{
    background_color, cell_color, cell_rect, log_would_fail, next_turn, parse_log_lines, row_cells_given,
    window_layout, ViewerInput,
};

fn line(s: &str) -> Vec<char> {
    s.chars().collect()
}

fn lines(ls: &[&str]) -> Vec<Vec<char>> {
    ls.iter().map(|s| line(s)).collect()
}

fn board(rows: &[&str]) -> Board {
    let grid = lines(rows);
    let height = grid.len();
    let width = if height > 0 { grid[0].len() } else { 0 };
    Board { width, height, grid }
}

fn piece(rows: &[&str]) -> Piece {
    let shape = lines(rows);
    let height = shape.len();
    let width = if height > 0 { shape[0].len() } else { 0 };
    Piece { width, height, shape, offset_x: 0, offset_y: 0, original_width: width, original_height: height }
}

fn first() -> Player {
    Player { p1: '@', p1_alt: 'a', p2: '$', p2_alt: 's' }
}

fn second() -> Player {
    Player { p1: '$', p1_alt: 's', p2: '@', p2_alt: 'a' }
}

// ---------------------------------------------------------------- players

#[test]
fn player_info_first() {
    let ls = lines(&["hello", "$$$ exec p1 : [solution/bot]", "Anfield 2 2:"]);
    match get_player_info(&ls) {
        Scan::Found(p, n) => {
            assert_eq!(n, 2);
            assert_eq!((p.p1, p.p1_alt, p.p2, p.p2_alt), ('@', 'a', '$', 's'));
        }
        _ => panic!("expected the player"),
    }
}

#[test]
fn player_info_second() {
    let ls = lines(&["$$$ exec p2 : [solution/bot]"]);
    match get_player_info(&ls) {
        Scan::Found(p, n) => {
            assert_eq!(n, 1);
            assert_eq!((p.p1, p.p1_alt, p.p2, p.p2_alt), ('$', 's', '@', 'a'));
        }
        _ => panic!("expected the player"),
    }
}

#[test]
fn player_info_decided_by_player_number() {
    let ls = lines(&["$$$ exec p2 : [robots/p1_bot]"]);
    match get_player_info(&ls) {
        Scan::Found(p, n) => {
            assert_eq!(n, 1);
            assert_eq!((p.p1, p.p1_alt, p.p2, p.p2_alt), ('$', 's', '@', 'a'));
        }
        _ => panic!("expected the player"),
    }
    let ls = lines(&["$$$ exec p1 : [robots/p2_bot]"]);
    match get_player_info(&ls) {
        Scan::Found(p, _) => assert_eq!(p.p1, '@'),
        _ => panic!("expected the player"),
    }
    let ls = lines(&["$$$ exec p3 : [p1]", "$$$ exec p"]);
    assert!(matches!(get_player_info(&ls), Scan::Pending));
}

#[test]
fn player_info_pending() {
    let ls = lines(&["$$$ exec px", "exec p1"]);
    assert!(matches!(get_player_info(&ls), Scan::Pending));
    assert!(matches!(get_player_info(&Vec::new()), Scan::Pending));
}

// ---------------------------------------------------------------- the board

const GAME: [&str; 6] = ["$$$ exec p1 : [solution/bot]", "Anfield 5 3:", "    01234", "000 .....", "001 .@...", "002 ...$."];

#[test]
fn read_map_found() {
    let ls = lines(&GAME);
    match read_map(&ls) {
        Scan::Found(b, n) => {
            assert_eq!(n, 6);
            assert_eq!((b.width, b.height), (5, 3));
            assert_eq!(b.grid, lines(&[".....", ".@...", "...$."]));
        }
        _ => panic!("expected the board"),
    }
}

#[test]
fn read_map_pending_until_rows_come() {
    for k in 0..GAME.len() {
        let ls = lines(&GAME[..k]);
        assert!(matches!(read_map(&ls), Scan::Pending), "prefix of {} lines", k);
    }
}

#[test]
fn read_map_settles_whatever_follows() {
    let mut ls = lines(&GAME);
    ls.push(line("Piece 2 1:"));
    ls.push(line("OO"));
    match read_map(&ls) {
        Scan::Found(b, n) => {
            assert_eq!(n, 6);
            assert_eq!(b.height, 3);
        }
        _ => panic!("expected the board"),
    }
}

#[test]
fn read_map_rejects_bad_size() {
    let ls = lines(&["Anfield five 3:"]);
    assert!(matches!(read_map(&ls), Scan::Rejected));
    let ls = lines(&["Anfield 5"]);
    assert!(matches!(read_map(&ls), Scan::Rejected));
    let ls = lines(&["Anfield 5 99999999999999999999999:"]);
    assert!(matches!(read_map(&ls), Scan::Rejected));
}

#[test]
fn read_map_accepts_plus_sign_and_colons() {
    let ls = lines(&["Anfield +2 1::", "    01", "000 .@"]);
    match read_map(&ls) {
        Scan::Found(b, n) => {
            assert_eq!((b.width, b.height, n), (2, 1, 3));
        }
        _ => panic!("expected the board"),
    }
}

#[test]
fn read_map_rejects_bad_row() {
    let ls = lines(&["Anfield 5 2:", "    01234", "000 ....", "001 ....."]);
    assert!(matches!(read_map(&ls), Scan::Rejected));
    let ls = lines(&["Anfield 0 1:", "    ", "00"]);
    assert!(matches!(read_map(&ls), Scan::Rejected));
}

#[test]
fn read_map_row_of_four_bytes_in_fewer_chars() {
    // two characters of two bytes each: four bytes, no cell after them
    let ls = lines(&["Anfield 0 1:", "    ", "éé"]);
    match read_map(&ls) {
        Scan::Found(b, n) => {
            assert_eq!((b.width, b.height, n), (0, 1, 3));
            assert_eq!(b.grid, vec![Vec::<char>::new()]);
        }
        _ => panic!("expected the board"),
    }
}

// ---------------------------------------------------------------- the piece

#[test]
fn read_piece_found_and_trimmed() {
    let ls = lines(&["Anfield 1 1:", "Piece 4 3:", ".O..", ".OO.", "...."]);
    assert!(!piece_read_would_fail(&ls));
    match read_piece(&ls) {
        Scan::Found(p, n) => {
            assert_eq!(n, 5);
            assert_eq!((p.width, p.height), (2, 2));
            assert_eq!(p.shape, lines(&["O.", "OO"]));
            assert_eq!((p.offset_x, p.offset_y), (1, 0));
            assert_eq!((p.original_width, p.original_height), (4, 3));
        }
        _ => panic!("expected the piece"),
    }
}

#[test]
fn read_piece_pending() {
    let ls = lines(&["Piece 4 3:", ".O..", ".OO."]);
    assert!(!piece_read_would_fail(&ls));
    assert!(matches!(read_piece(&ls), Scan::Pending));
    assert!(matches!(read_piece(&lines(&["Anfield 2 2:"])), Scan::Pending));
}

#[test]
fn read_piece_without_blocks() {
    let ls = lines(&["Piece 2 1:", ".."]);
    match read_piece(&ls) {
        Scan::Found(p, n) => {
            assert_eq!(n, 2);
            assert_eq!((p.width, p.height, p.offset_x, p.offset_y), (0, 0, 0, 0));
            assert!(p.shape.is_empty());
            assert_eq!((p.original_width, p.original_height), (2, 1));
        }
        _ => panic!("expected the piece"),
    }
}

#[test]
fn read_piece_rejects_bad_size() {
    let ls = lines(&["Piece 4:"]);
    assert!(!piece_read_would_fail(&ls));
    assert!(matches!(read_piece(&ls), Scan::Rejected));
    let ls = lines(&["Piece x 3:"]);
    assert!(!piece_read_would_fail(&ls));
    assert!(matches!(read_piece(&ls), Scan::Rejected));
}

#[test]
fn piece_reads_that_fail() {
    assert!(piece_read_would_fail(&lines(&["Piece"])));
    assert!(piece_read_would_fail(&lines(&["Piece 4"])));
    assert!(!piece_read_would_fail(&lines(&["Piece 4 0:"])));
    assert!(piece_read_would_fail(&lines(&["Piece 3 2:", "...", ".O"])));
    assert!(!piece_read_would_fail(&lines(&["Piece 3 2:", "..."])));
}

#[test]
fn trim_piece_box() {
    let raw = lines(&["....", "..O.", ".OO.", "...."]);
    let (t, oy, ox) = trim_piece(&raw);
    assert_eq!(t, lines(&[".O", "OO"]));
    assert_eq!((oy, ox), (1, 1));
}

#[test]
fn trim_piece_looks_at_first_row_width() {
    let raw = lines(&["..", ".O.O"]);
    let (t, oy, ox) = trim_piece(&raw);
    assert_eq!(t, lines(&["O"]));
    assert_eq!((oy, ox), (1, 1));
}

#[test]
fn read_piece_of_height_zero() {
    let ls = lines(&["Piece 0 0:"]);
    assert!(!piece_read_would_fail(&ls));
    match read_piece(&ls) {
        Scan::Found(p, n) => {
            assert_eq!(n, 1);
            assert_eq!((p.width, p.height, p.offset_x, p.offset_y), (0, 0, 0, 0));
            assert!(p.shape.is_empty());
            assert_eq!((p.original_width, p.original_height), (0, 0));
        }
        _ => panic!("expected the piece"),
    }
}

#[test]
fn trim_piece_no_rows() {
    let (t, oy, ox) = trim_piece(&Vec::new());
    assert!(t.is_empty());
    assert_eq!((oy, ox), (0, 0));
}

#[test]
fn trim_piece_empty() {
    let raw = lines(&["...", "..."]);
    let (t, oy, ox) = trim_piece(&raw);
    assert!(t.is_empty());
    assert_eq!((oy, ox), (0, 0));
}

#[test]
fn trim_keeps_every_block() {
    let raw = lines(&[".....", ".O...", "...O.", "....."]);
    let (t, oy, ox) = trim_piece(&raw);
    for y in 0..raw.len() {
        for x in 0..raw[0].len() {
            if raw[y][x] == 'O' {
                assert_eq!(t[y - oy][x - ox], 'O');
            }
        }
    }
}

// ---------------------------------------------------------------- positions and placing

#[test]
fn positions_row_by_row() {
    let b = board(&["@.$", "s@a", "..."]);
    let (mine, theirs) = get_positions(&b, &first());
    assert_eq!(mine, vec![(0, 0), (1, 1), (1, 2)]);
    assert_eq!(theirs, vec![(0, 2), (1, 0)]);
    let (mine2, theirs2) = get_positions(&b, &second());
    assert_eq!(mine2, theirs);
    assert_eq!(theirs2, mine);
}

#[test]
fn positions_mine_checked_first() {
    let p = Player { p1: 'x', p1_alt: 'y', p2: 'x', p2_alt: 'z' };
    let b = board(&["xz"]);
    let (mine, theirs) = get_positions(&b, &p);
    assert_eq!(mine, vec![(0, 0)]);
    assert_eq!(theirs, vec![(0, 1)]);
}

#[test]
fn can_place_cases() {
    let b = board(&[".....", ".@$..", "....."]);
    let bar = piece(&["OO"]);
    let p = first();
    assert!(can_place(&b, &bar, &p, 1, 0));
    assert!(!can_place(&b, &bar, &p, 1, 1)); // covers the opponent
    assert!(!can_place(&b, &bar, &p, 0, 0)); // covers none of ours
    assert!(!can_place(&b, &bar, &p, 1, 4)); // off the board
    assert!(!can_place(&b, &bar, &p, 7, 0)); // off the board
    let b2 = board(&["@@."]);
    assert!(!can_place(&b2, &bar, &p, 0, 0)); // covers two of ours
    assert!(can_place(&b2, &bar, &p, 0, 1));
    let holes = piece(&["O.O"]);
    let b3 = board(&["@$."]);
    assert!(can_place(&b3, &holes, &p, 0, 0)); // the opponent's cell lies under a gap of the piece
    let b4 = board(&["@$."]);
    assert!(can_place(&b4, &piece(&["O.", ".."]), &p, 0, 0));
}

#[test]
fn valid_can_place_wants_empty_cells() {
    let b = board(&["@#"]);
    let bar = piece(&["OO"]);
    assert!(!valid::can_place(&b, &bar, &first(), 0, 0));
    assert!(can_place(&b, &bar, &first(), 0, 0));
    let b2 = board(&["@."]);
    assert!(valid::can_place(&b2, &bar, &first(), 0, 0));
}

#[test]
fn valid_can_place_agrees_on_plain_boards() {
    let b = board(&["@@..", ".$..", "a..s"]);
    let shapes = [piece(&["OO"]), piece(&["O", "O"]), piece(&["O.", "OO"]), piece(&["..", ".O"])];
    for sh in shapes.iter() {
        for y in 0..4 {
            for x in 0..5 {
                for pl in [first(), second()].iter() {
                    assert_eq!(can_place(&b, sh, pl, y, x), valid::can_place(&b, sh, pl, y, x));
                }
            }
        }
    }
}

#[test]
fn shortest_distance_cases() {
    let b = board(&[".....", ".@...", ".....", "...$.", "....."]);
    assert_eq!(shortest_distance_between_players(&b, &first()), 4);
    assert_eq!(shortest_distance_between_players(&b, &second()), 4);
    let b2 = board(&["@..$", "a...", "...s"]);
    assert_eq!(shortest_distance_between_players(&b2, &first()), 3);
    let none = board(&["@..", "..."]);
    assert_eq!(shortest_distance_between_players(&none, &first()), usize::MAX);
    assert_eq!(shortest_distance_between_players(&none, &second()), usize::MAX);
}

#[test]
fn shortest_distance_is_least_pair() {
    let b = board(&["@...$", ".a...", "...s.", "$...."]);
    let (mine, theirs) = get_positions(&b, &first());
    let d = shortest_distance_between_players(&b, &first());
    let mut best = usize::MAX;
    for m in mine.iter() {
        for t in theirs.iter() {
            let dist = m.0.abs_diff(t.0) + m.1.abs_diff(t.1);
            assert!(d <= dist);
            best = best.min(dist);
        }
    }
    assert_eq!(d, best);
}

// ---------------------------------------------------------------- the best move

#[test]
fn best_move_comes_nearer() {
    let b = board(&[".....", ".@...", ".....", "...$.", "....."]);
    assert_eq!(find_best_move(&b, &piece(&["OO"]), &first()), (1, 1));
}

#[test]
fn best_move_touches_then_upper() {
    let b = board(&[".....", ".@$..", "....."]);
    assert_eq!(find_best_move(&b, &piece(&["O", "O"]), &first()), (0, 1));
}

#[test]
fn best_move_prefers_more_contacts() {
    let b = board(&["......", "..@...", "......", ".$$...", "......"]);
    // put below '@', the piece ends beside one of the opponent's cells
    let pc = piece(&["O", "O"]);
    let r = find_best_move(&b, &pc, &first());
    assert_eq!(r, (1, 2));
    assert!(can_place(&b, &pc, &first(), r.0, r.1));
}

#[test]
fn best_move_nowhere() {
    let b = board(&["$..", "..."]);
    assert_eq!(find_best_move(&b, &piece(&["O"]), &first()), (0, 0));
    assert_eq!(find_best_move(&b, &piece(&["OOOO"]), &first()), (0, 0));
    assert_eq!(find_best_move(&b, &piece(&["O", "O", "O"]), &first()), (0, 0));
}

#[test]
fn best_move_with_no_opponent_takes_first_place() {
    let b = board(&["...", ".@.", "..."]);
    assert_eq!(find_best_move(&b, &piece(&["OO"]), &first()), (1, 0));
}

#[test]
fn untrimmed_position_subtracts_offsets() {
    let mut p = piece(&["O"]);
    p.offset_x = 1;
    p.offset_y = 2;
    assert_eq!(untrimmed_position(&p, 5, 3), (3, 2));
    assert_eq!(untrimmed_position(&p, 0, 0), (-2, -1));
}

#[test]
fn memory_bounds() {
    let b = board(&["..", ".."]);
    assert!(b.fits_in_memory());
    let huge = Board { width: usize::MAX, height: 2, grid: Vec::new() };
    assert!(!huge.fits_in_memory());
    let p = Piece { width: 1 << 40, height: 1 << 40, shape: Vec::new(), offset_x: 0, offset_y: 0, original_width: 0, original_height: 0 };
    assert!(!p.fits_in_memory());
}

// ---------------------------------------------------------------- text

#[test]
fn whitespace_matches_std() {
    for v in 0u32..0x110000 {
        if let Some(c) = char::from_u32(v) {
            assert_eq!(is_whitespace_char(c), c.is_whitespace(), "{:x}", v);
        }
    }
}

#[test]
fn words_match_std() {
    for s in ["  Anfield 15 17:", "a\u{3000}b\tc\u{a0}d", "", "   ", "x"] {
        let w: Vec<Vec<char>> = split_words(&line(s));
        let expected: Vec<Vec<char>> = s.split_whitespace().map(|p| p.chars().collect()).collect();
        assert_eq!(w, expected);
    }
}

#[test]
fn numbers_match_std() {
    for s in ["0", "42", "+7", "+", "", "-1", "1a", "18446744073709551615", "18446744073709551616", "007"] {
        assert_eq!(parse_number(&line(s)), s.parse::<usize>().ok(), "{:?}", s);
    }
}

// ---------------------------------------------------------------- the viewer

#[test]
fn log_boards() {
    let ls = lines(&[
        "Anfield 5 2:",
        "    01234",
        "000 .@...",
        "001 ...$.",
        "<got (O): [1, 1]",
        "Anfield 5 2:",
        "    01234",
        "000 .@@..",
        "001 ...$.",
    ]);
    assert!(!log_would_fail(&ls));
    let states = parse_log_lines(&ls);
    assert_eq!(states.len(), 2);
    assert_eq!((states[0].height, states[0].width), (2, 5));
    assert_eq!(states[0].map, lines(&[".@...", "...$."]));
    assert_eq!(states[1].map, lines(&[".@@..", "...$."]));
}

#[test]
fn log_skips_incomplete_boards() {
    let ls = lines(&["Anfield 3 2:", "    012", "000 ...", "abc ...", "Anfield 0 2:", "Anfield 3 1", "Anfield 3 1:", "x", "000 .@."]);
    let states = parse_log_lines(&ls);
    assert_eq!(states.len(), 1);
    assert_eq!(states[0].map, lines(&[".@."]));
}

#[test]
fn row_cells_given_numeric() {
    assert_eq!(row_cells_given(&line("000 .@."), 3, true), Some(Some(line(".@."))));
    assert_eq!(row_cells_given(&line("000 .@."), 3, false), Some(None));
    assert_eq!(row_cells_given(&line("000 .@."), 4, true), Some(None));
    assert_eq!(row_cells_given(&line("000"), 0, true), Some(None));
    assert_eq!(row_cells_given(&line("000é"), 0, true), None);
}

#[test]
fn log_boards_have_their_size() {
    let ls = lines(&[
        "Anfield 3 2:", "    012", "000 ...", "001 .@.", "x",
        "Anfield 2 1:", "    01", "000 $.", "x",
        "Anfield 4 1:", "    0123", "000 ..",
    ]);
    let states = parse_log_lines(&ls);
    assert_eq!(states.len(), 2);
    assert_eq!((states[0].height, states[0].width), (2, 3));
    assert_eq!((states[1].height, states[1].width), (1, 2));
    for st in states.iter() {
        assert!(st.height > 0 && st.width > 0);
        assert_eq!(st.map.len(), st.height);
        assert!(st.map.iter().all(|r| r.len() == st.width));
    }
}

#[test]
fn log_reading_fails_mid_character() {
    let ls = lines(&["Anfield 1 1:", "x", "000é"]);
    assert!(log_would_fail(&ls));
}

#[test]
fn colors() {
    assert_eq!(cell_color('@'), (100, 150, 255));
    assert_eq!(cell_color('a'), (80, 120, 200));
    assert_eq!(cell_color('$'), (255, 100, 100));
    assert_eq!(cell_color('s'), (200, 80, 80));
    assert_eq!(cell_color('.'), (40, 40, 50));
    assert_eq!(background_color(), (20, 20, 30));
}

#[test]
fn rects() {
    assert_eq!(cell_rect(3, 4, 10), (30, 40, 9, 9));
    assert_eq!(cell_rect(0, 0, 0), (0, 0, 0, 0));
}

#[test]
fn layouts() {
    assert_eq!(window_layout(1920, 1080, 100, 50), (18, 1800, 900));
    assert_eq!(window_layout(100, 100, 100, 100), (2, 200, 200));
    assert_eq!(window_layout(4000, 4000, 10, 10), (60, 600, 600));
}

#[test]
fn turns() {
    assert_eq!(next_turn(0, 3, ViewerInput::Right), Some(1));
    assert_eq!(next_turn(2, 3, ViewerInput::Right), Some(2));
    assert_eq!(next_turn(0, 3, ViewerInput::Left), Some(0));
    assert_eq!(next_turn(2, 3, ViewerInput::Left), Some(1));
    assert_eq!(next_turn(1, 3, ViewerInput::Up), Some(2));
    assert_eq!(next_turn(1, 3, ViewerInput::Down), Some(0));
    assert_eq!(next_turn(1, 3, ViewerInput::Other), Some(1));
    assert_eq!(next_turn(1, 3, ViewerInput::Quit), None);
    assert_eq!(next_turn(1, 3, ViewerInput::Escape), None);
    assert_eq!(next_turn(1, 3, ViewerInput::Q), None);
}

#[test]
fn turns_stay_in_range() {
    let inputs = [ViewerInput::Right, ViewerInput::Right, ViewerInput::Up, ViewerInput::Right, ViewerInput::Left, ViewerInput::Down, ViewerInput::Left];
    for count in 1..4usize {
        let mut current = 0;
        for i in inputs.iter() {
            current = next_turn(current, count, *i).unwrap();
            assert!(current < count);
        }
    }
}

#[test]
fn player_and_piece_settle_whatever_follows() {
    let short = lines(&["x", "$$$ exec p2 : [a]"]);
    let mut long = short.clone();
    long.push(line("$$$ exec p1 : [b]"));
    for ls in [&short, &long] {
        match get_player_info(ls) {
            Scan::Found(p, n) => assert_eq!((p.p1, n), ('$', 2)),
            _ => panic!("expected the player"),
        }
    }
    let piece_lines = lines(&["Piece 2 2:", "O.", ".."]);
    let mut more = piece_lines.clone();
    more.push(line("Anfield 3 3:"));
    for ls in [&piece_lines, &more] {
        match read_piece(ls) {
            Scan::Found(p, n) => {
                assert_eq!(n, 3);
                assert_eq!(p.shape, lines(&["O"]));
            }
            _ => panic!("expected the piece"),
        }
    }
    let bad = lines(&["Anfield x 1:"]);
    let mut bad_more = bad.clone();
    bad_more.push(line("Anfield 1 1:"));
    assert!(matches!(read_map(&bad), Scan::Rejected));
    assert!(matches!(read_map(&bad_more), Scan::Rejected));
}

#[test]
fn trim_is_a_window_of_the_piece() {
    let raw = lines(&["......", "..O...", ".O.O..", "......"]);
    let (t, oy, ox) = trim_piece(&raw);
    assert_eq!((oy, ox, t.len(), t[0].len()), (1, 1, 2, 3));
    for i in 0..t.len() {
        for j in 0..t[i].len() {
            assert_eq!(t[i][j], raw[oy + i][ox + j]);
        }
    }
    assert!(t[0].contains(&'O') && t[t.len() - 1].contains(&'O'));
    assert!(t.iter().any(|r| r[0] == 'O') && t.iter().any(|r| r[r.len() - 1] == 'O'));
}

#[test]
fn distance_same_from_either_side() {
    let b = board(&["@...s", "..a..", "$....", "....@"]);
    let p = first();
    let sw = Player { p1: p.p2, p1_alt: p.p2_alt, p2: p.p1, p2_alt: p.p1_alt };
    assert_eq!(shortest_distance_between_players(&b, &p), shortest_distance_between_players(&b, &sw));
    assert_eq!(shortest_distance_between_players(&b, &p), 2);
}
