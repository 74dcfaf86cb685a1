use sage_engine_server::board::{fits, Board, MOVER_BAR, OPPONENT_BAR};
use sage_engine_server::ffi::BOARD_SIZE;
use sage_engine_server::hops::{normalized_notation, point_label};
use sage_engine_server::notation::{apply_move_notation, comparable_notation, parse_token};

const STARTING_BOARD: Board = [
    0, -2, 0, 0, 0, 0, 5, 0, 3, 0, 0, 0, -5, 5, 0, 0, 0, -3, 0, -5, 0, 0, 0, 0, 2, 0,
];

fn board_after(notation: &str) -> Board {
    apply_move_notation(&STARTING_BOARD, notation).unwrap()
}

#[test]
fn make_the_five_point() {
    let after = board_after("8/5 6/5");
    assert_eq!(after[8], 2);
    assert_eq!(after[6], 4);
    assert_eq!(after[5], 2);
    assert_eq!(normalized_notation(&STARTING_BOARD, &after, 3, 1), "8/5 6/5");
    assert_eq!(normalized_notation(&STARTING_BOARD, &after, 1, 3), "8/5 6/5");
}

#[test]
fn doubles_expand_per_hop() {
    let after = board_after("24/22 24/22 13/11 13/11");
    assert_eq!(
        normalized_notation(&STARTING_BOARD, &after, 2, 2),
        "24/22 24/22 13/11 13/11"
    );
}

#[test]
fn combined_dice_move_stays_merged_without_intermediate_hit() {
    // 24/18 with 4-2 over an empty 20/22: single merged hop.
    let after = board_after("24/18");
    assert_eq!(normalized_notation(&STARTING_BOARD, &after, 4, 2), "24/18");
}

#[test]
fn combined_dice_move_splits_through_a_hit() {
    // Opponent blot on 20; 24/18 with 4-2 must read 24/20 20/18.
    let mut before = STARTING_BOARD;
    before[19] = -4;
    before[20] = -1;
    let mut after = apply_move_notation(&before, "24/20*").unwrap();
    after = apply_move_notation(&after, "20/18").unwrap();
    assert_eq!(after[OPPONENT_BAR], 1);
    assert_eq!(normalized_notation(&before, &after, 4, 2), "24/20 20/18");
}

#[test]
fn bar_entry_with_hit() {
    let mut before = STARTING_BOARD;
    // Put a mover checker on the bar and an opponent blot on 22.
    before[24] = 1;
    before[MOVER_BAR] = 1;
    before[17] = -2;
    before[22] = -1;
    let after = apply_move_notation(&before, "bar/22* 13/10").unwrap();
    assert_eq!(after[OPPONENT_BAR], 1);
    assert_eq!(after[22], 1);
    assert_eq!(normalized_notation(&before, &after, 3, 3), "bar/22 13/10");
}

#[test]
fn bear_off_tokens() {
    let mut before: Board = [0; 26];
    before[6] = 2;
    before[5] = 1;
    before[1] = -2; // opponent still anchored, irrelevant to bearing off
    let after = apply_move_notation(&before, "6/off 6/off").unwrap();
    assert_eq!(normalized_notation(&before, &after, 6, 6), "6/off 6/off");
}

#[test]
fn apply_expands_groups_chains_and_stars() {
    let grouped = apply_move_notation(&STARTING_BOARD, "13/11(2)").unwrap();
    let explicit = apply_move_notation(&STARTING_BOARD, "13/11 13/11").unwrap();
    assert_eq!(grouped, explicit);

    let mut with_blot = STARTING_BOARD;
    with_blot[19] = -4;
    with_blot[22] = -1;
    let chained = apply_move_notation(&with_blot, "24/22*/20").unwrap();
    let stepwise = {
        let mid = apply_move_notation(&with_blot, "24/22*").unwrap();
        apply_move_notation(&mid, "22/20").unwrap()
    };
    assert_eq!(chained, stepwise);
}

#[test]
fn apply_rejects_illegal_moves() {
    assert!(apply_move_notation(&STARTING_BOARD, "bar/20").is_err());
    assert!(apply_move_notation(&STARTING_BOARD, "3/1").is_err());
    assert!(apply_move_notation(&STARTING_BOARD, "13/12").is_err()); // 12 is a made opposing point
    assert!(apply_move_notation(&STARTING_BOARD, "garbage").is_err());
}

#[test]
fn comparable_collapse() {
    assert_eq!(comparable_notation("Bar/22* 13/10"), "bar/2213/10");
}

#[test]
fn board_size_matches_protocol() {
    assert_eq!(BOARD_SIZE, 26);
    let board: Board = [0; BOARD_SIZE];
    assert_eq!(board.len(), STARTING_BOARD.len());
}

#[test]
fn each_fault_has_its_message() {
    let fail = |notation: &str| apply_move_notation(&STARTING_BOARD, notation).unwrap_err();
    assert_eq!(fail("bar/20"), "Move \"bar/20\" enters from an empty bar");
    assert_eq!(fail("3/1"), "Move \"3/1\" lifts from empty point 3");
    assert_eq!(fail("26/1"), "Move \"26/1\" lifts from empty point 26");
    assert_eq!(fail("13/12"), "Move \"13/12\" lands on a made opposing point");
    assert_eq!(fail("13/0"), "Move \"13/0\" lands outside the board");
    assert_eq!(fail("13/25"), "Move \"13/25\" lands outside the board");
    assert_eq!(fail("garbage"), "Unparseable move token \"garbage\"");
    assert_eq!(fail("8/5 x/\ty"), "Unparseable move token \"x/\"");
    assert_eq!(
        fail("13/11 \"a\""),
        "Unparseable move token \"\\\"a\\\"\""
    );
    // The first word that cannot be made decides.
    assert_eq!(fail("3/1 garbage"), "Move \"3/1 garbage\" lifts from empty point 3");
}

#[test]
fn numerals_too_large_are_unreadable() {
    let message = apply_move_notation(&STARTING_BOARD, "99999999999999999999/3").unwrap_err();
    assert_eq!(message, "Unparseable move token \"99999999999999999999/3\"");
    let message = apply_move_notation(&STARTING_BOARD, "13/11(4294967296)").unwrap_err();
    assert_eq!(message, "Unparseable move token \"13/11(4294967296)\"");
}

#[test]
fn tokens_take_any_case_stars_and_counts() {
    let (hops, count) = parse_token("BAR/22*/16(+3)").unwrap();
    assert_eq!(count, 3);
    assert_eq!(
        hops,
        vec![
            ("bar".to_string(), "22".to_string()),
            ("22".to_string(), "16".to_string())
        ]
    );
    assert_eq!(parse_token("6/Off").unwrap().0, vec![("6".to_string(), "off".to_string())]);
    for bad in ["", "6", "off/3", "6/bar", "6/", "/6", "6/4(", "6/4()", "6/4(2", "6/4(x)", "6/4(-1)", "6/*4"] {
        assert_eq!(parse_token(bad).unwrap_err(), format!("Unparseable move token {:?}", bad));
    }
}

#[test]
fn a_count_of_nought_moves_nothing() {
    assert_eq!(board_after("13/11(0)"), STARTING_BOARD);
    assert_eq!(board_after("  \t\u{2003}"), STARTING_BOARD);
}

#[test]
fn off_cannot_be_left_again() {
    let mut board: Board = [0; 26];
    board[6] = 1;
    assert_eq!(
        apply_move_notation(&board, "6/off/3").unwrap_err(),
        "Unparseable move token \"6/off/3\""
    );
}

#[test]
fn doubles_break_at_every_hit_on_the_way() {
    let mut before: Board = [0; 26];
    before[24] = 1;
    before[22] = -1;
    before[20] = -1;
    let mut after: Board = [0; 26];
    after[16] = 1;
    after[OPPONENT_BAR] = 2;
    assert_eq!(normalized_notation(&before, &after, 2, 2), "24/22 22/20 20/16");
}

#[test]
fn either_die_may_make_the_hit() {
    let mut before: Board = [0; 26];
    before[24] = 1;
    before[22] = -1;
    let mut after: Board = [0; 26];
    after[18] = 1;
    after[OPPONENT_BAR] = 1;
    assert_eq!(normalized_notation(&before, &after, 4, 2), "24/22 22/18");
    assert_eq!(normalized_notation(&before, &after, 2, 4), "24/22 22/18");
}

#[test]
fn notation_gives_the_board_back() {
    let mut before: Board = [0; 26];
    before[MOVER_BAR] = 1;
    before[13] = 2;
    before[6] = 1;
    before[22] = -1;
    before[10] = -1;
    before[3] = -2;
    let after = apply_move_notation(&before, "bar/22*/19 13/10* 6/off").unwrap();
    let text = normalized_notation(&before, &after, 3, 3);
    assert_eq!(text, "bar/22 22/19 13/10 6/off");
    assert_eq!(apply_move_notation(&before, &text).unwrap(), after);
}

#[test]
fn a_hit_before_bearing_off_with_a_larger_die_is_not_seen() {
    let mut before: Board = [0; 26];
    before[6] = 1;
    before[2] = -1;
    let after = apply_move_notation(&before, "6/2*/off").unwrap();
    assert_eq!(normalized_notation(&before, &after, 4, 5), "6/off");
}

#[test]
fn a_move_that_moves_nothing_is_empty() {
    assert_eq!(normalized_notation(&STARTING_BOARD, &STARTING_BOARD, 6, 6), "");
    assert_eq!(normalized_notation(&STARTING_BOARD, &STARTING_BOARD, 0, 0), "");
}

#[test]
fn points_have_labels() {
    assert_eq!(point_label(25, "bar"), "bar");
    assert_eq!(point_label(0, "off"), "off");
    assert_eq!(point_label(24, "bar"), "24");
    assert_eq!(point_label(-3, "bar"), "-3");
}

#[test]
fn words_in_sequence_are_moves_in_sequence() {
    let whole = board_after("8/5 6/5");
    let first = board_after("8/5");
    assert_eq!(apply_move_notation(&first, "6/5").unwrap(), whole);
}

#[test]
fn boards_with_room_fit() {
    assert!(fits(&STARTING_BOARD));
    let mut crowded = STARTING_BOARD;
    crowded[4] = i32::MAX;
    assert!(!fits(&crowded));
    let mut barred = STARTING_BOARD;
    barred[OPPONENT_BAR] = i32::MAX;
    assert!(fits(&barred));
    barred[1] = -1;
    assert!(!fits(&barred));
}

#[test]
fn what_is_compared_is_compared_of_itself() {
    let once = comparable_notation("24/22* BAR/20(2)");
    assert_eq!(once, "24/22bar/20(2)");
    assert_eq!(comparable_notation(&once), once);
    assert_eq!(comparable_notation("BAR/OFF"), comparable_notation("bar/off"));
    assert_eq!(comparable_notation("8/5 * 6/5"), comparable_notation("8/56/5"));
}

#[test]
fn a_move_adds_no_checker_and_bars_what_it_hits() {
    let mut before = STARTING_BOARD;
    before[19] = -4;
    before[20] = -1;
    let after = apply_move_notation(&before, "24/20*/18 6/off").unwrap();
    let mine = |b: &Board| b[1..].iter().filter(|n| **n > 0).sum::<i32>();
    let theirs = |b: &Board| b[0] - b[1..25].iter().filter(|n| **n < 0).sum::<i32>();
    assert_eq!(mine(&after), mine(&before) - 1);
    assert_eq!(theirs(&after), theirs(&before));
    assert_eq!(after[OPPONENT_BAR], 1);
    assert_eq!(after[12], before[12]);
}

#[test]
fn hops_stand_from_the_highest_down_without_marks() {
    let mut before = STARTING_BOARD;
    before[22] = -1;
    let after = apply_move_notation(&before, "6/4 13/11 24/22* 8/6").unwrap();
    let text = normalized_notation(&before, &after, 2, 2);
    assert_eq!(text, "24/22 13/11 8/4");
    assert!(text.chars().all(|c| c.is_ascii_digit() || c == '/' || c == ' '));
    assert_eq!(apply_move_notation(&before, &text).unwrap(), after);
}

#[test]
fn a_play_by_the_dice_loses_no_hit() {
    // Two checkers pass over two blots that no number of dice lies between.
    let mut before: Board = [0; 26];
    before[24] = 1;
    before[23] = 1;
    before[22] = -1;
    before[21] = -1;
    let after = apply_move_notation(&before, "24/22 23/21 22/20 21/19").unwrap();
    assert_eq!(after[OPPONENT_BAR], 2);
    let text = normalized_notation(&before, &after, 2, 2);
    assert_eq!(text, "24/22 23/21 22/20 21/19");
    assert_eq!(apply_move_notation(&before, &text).unwrap(), after);

    // From the bar over a blot with either die.
    let mut before: Board = [0; 26];
    before[MOVER_BAR] = 1;
    before[20] = -1;
    let after = apply_move_notation(&before, "bar/20 20/17").unwrap();
    for (die1, die2) in [(5, 3), (3, 5)] {
        let text = normalized_notation(&before, &after, die1, die2);
        assert_eq!(text, "bar/20 20/17");
        assert_eq!(apply_move_notation(&before, &text).unwrap(), after);
    }
}

#[test]
fn the_dice_may_be_given_in_either_order() {
    for text in ["24/18", "13/9 6/4", "8/4 6/4", "13/11 13/9", "6/4", "24/20 20/18", ""] {
        let after = board_after(text);
        assert_eq!(
            normalized_notation(&STARTING_BOARD, &after, 4, 2),
            normalized_notation(&STARTING_BOARD, &after, 2, 4)
        );
    }
}
