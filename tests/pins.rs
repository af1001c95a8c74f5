use chess_pins::{
    all_roles, is_absolutely_pinned, is_pin, is_relative_pin, Board, Color, Piece, Pins, Role, Square,
};
use shakmaty::fen::Fen;
use shakmaty::uci::UciMove;
use shakmaty::{CastlingMode, Chess, Position};

fn piece_of(p: shakmaty::Piece) -> Piece {
    let color = match p.color {
        shakmaty::Color::White => Color::White,
        shakmaty::Color::Black => Color::Black,
    };
    let role = match p.role {
        shakmaty::Role::Pawn => Role::Pawn,
        shakmaty::Role::Knight => Role::Knight,
        shakmaty::Role::Bishop => Role::Bishop,
        shakmaty::Role::Rook => Role::Rook,
        shakmaty::Role::Queen => Role::Queen,
        shakmaty::Role::King => Role::King,
    };
    Piece { color, role }
}

fn board_from(board: &shakmaty::Board) -> Board {
    let mut b = Board::empty();
    for (sq, piece) in board {
        b.set_piece_at(Square(sq as u8), piece_of(piece));
    }
    b
}

fn chess_of(fen: &str) -> Chess {
    let fen: Fen = fen.parse().unwrap();
    fen.into_position(CastlingMode::Standard).unwrap()
}

fn position_of(fen: &str) -> Board {
    board_from(chess_of(fen).board())
}

fn after_move(fen: &str, uci: &str) -> Board {
    let position = chess_of(fen);
    let m = uci.parse::<UciMove>().unwrap().to_move(&position).unwrap();
    let next = position.play(&m).unwrap();
    board_from(next.board())
}

fn sq(s: shakmaty::Square) -> Square {
    Square(s as u8)
}

fn pawn_absolutely_pinned_on_e2() -> Board {
    position_of("8/1k6/8/8/8/8/1r2P1K1/8 w - - 0 1")
}

fn pawn_not_pinned_on_e2() -> Board {
    position_of("8/1k6/8/8/8/8/4P1K1/8 w - - 0 1")
}

fn queen_attacks_pawn_and_king() -> Board {
    position_of("1qk5/8/8/8/8/8/1P5K/8 w - - 0 1")
}

fn queen_attacks_king_through_2_pawns() -> Board {
    position_of("kq6/8/3P4/4P3/8/8/7K/8 w - - 0 1")
}

fn rook_attacks_rook_through_bishop() -> Board {
    position_of("4r2k/8/8/8/4B3/8/8/4R2K w - - 0 1")
}

fn rook_attacks_queen_and_bishop() -> Board {
    position_of("r6B/1K6/8/3k4/8/8/8/Q7 w - - 0 1")
}

fn rook_attacks_bishop_through_queen() -> Board {
    position_of("4r2k/8/8/8/4Q3/8/8/4B2K w - - 0 1")
}

#[test]
fn pin_on_e2() {
    let position = position_of("8/1k6/8/8/8/8/1r2P1K1/8 w - - 0 1");
    assert_eq!(is_pin(&position, sq(shakmaty::Square::E2)), Some(Pins::Absolute));
}

#[test]
fn no_pin_on_e3() {
    let position = position_of("8/1k6/8/8/8/8/1r2P1K1/8 w - - 0 1");
    assert_eq!(is_pin(&position, sq(shakmaty::Square::E3)), None);
}

#[test]
fn pin_detects_a_rook_pin() {
    let position = pawn_absolutely_pinned_on_e2();
    assert!(is_absolutely_pinned(&position, sq(shakmaty::Square::E2)))
}

#[test]
fn pin_empty_squares_are_not_pinned() {
    let position = pawn_absolutely_pinned_on_e2();
    assert!(!is_absolutely_pinned(&position, sq(shakmaty::Square::E4)))
}

#[test]
fn pin_kings_are_not_pinned() {
    let position = pawn_absolutely_pinned_on_e2();
    assert!(!is_absolutely_pinned(&position, sq(shakmaty::Square::G2)))
}

#[test]
fn pin_pieces_that_are_not_pinned_are_not_pinned() {
    let position = pawn_not_pinned_on_e2();
    assert!(!is_absolutely_pinned(&position, sq(shakmaty::Square::E2)))
}

#[test]
fn pin_pinning_attack_must_go_through_the_piece() {
    let position = queen_attacks_pawn_and_king();
    assert!(!is_absolutely_pinned(&position, sq(shakmaty::Square::B2)))
}

#[test]
fn pin_not_an_absolute_pin_if_more_than_two_pieces_are_in_the_way() {
    let position = queen_attacks_king_through_2_pawns();
    assert!(!is_absolutely_pinned(&position, sq(shakmaty::Square::D6)));
    assert!(!is_absolutely_pinned(&position, sq(shakmaty::Square::E5)));
}

#[test]
fn pin_detects_a_relative_pin() {
    let position = rook_attacks_rook_through_bishop();
    assert!(is_relative_pin(&position, sq(shakmaty::Square::E4)))
}

#[test]
fn pin_relative_pin_must_go_through_pieces() {
    let position = rook_attacks_queen_and_bishop();
    assert!(!is_relative_pin(&position, sq(shakmaty::Square::H8)));
    assert!(!is_relative_pin(&position, sq(shakmaty::Square::A1)));
}

#[test]
fn pin_pinned_piece_must_be_of_lower_value_than_target() {
    let position = rook_attacks_bishop_through_queen();
    assert!(!is_relative_pin(&position, sq(shakmaty::Square::E4)));
}

#[test]
fn tests_detects_a_rook_pin() {
    let position = pawn_absolutely_pinned_on_e2();
    assert!(is_absolutely_pinned(&position, sq(shakmaty::Square::E2)))
}

#[test]
fn tests_empty_squares_are_not_pinned() {
    let position = pawn_absolutely_pinned_on_e2();
    assert!(!is_absolutely_pinned(&position, sq(shakmaty::Square::E4)))
}

#[test]
fn tests_kings_are_not_pinned() {
    let position = pawn_absolutely_pinned_on_e2();
    assert!(!is_absolutely_pinned(&position, sq(shakmaty::Square::G2)))
}

#[test]
fn tests_pieces_that_are_not_pinned_are_not_pinned() {
    let position = pawn_not_pinned_on_e2();
    assert!(!is_absolutely_pinned(&position, sq(shakmaty::Square::E2)))
}

#[test]
fn tests_pinning_attack_must_go_through_the_piece() {
    let position = queen_attacks_pawn_and_king();
    assert!(!is_absolutely_pinned(&position, sq(shakmaty::Square::B2)))
}

#[test]
fn tests_not_an_absolute_pin_if_more_than_two_pieces_are_in_the_way() {
    let position = queen_attacks_king_through_2_pawns();
    assert!(!is_absolutely_pinned(&position, sq(shakmaty::Square::D6)));
    assert!(!is_absolutely_pinned(&position, sq(shakmaty::Square::E5)));
}

#[test]
fn tests_detects_a_relative_pin() {
    let position = rook_attacks_rook_through_bishop();
    assert!(is_relative_pin(&position, sq(shakmaty::Square::E4)))
}

#[test]
fn tests_relative_pin_must_go_through_pieces() {
    let position = rook_attacks_queen_and_bishop();
    assert!(!is_relative_pin(&position, sq(shakmaty::Square::H8)));
    assert!(!is_relative_pin(&position, sq(shakmaty::Square::A1)));
}

#[test]
fn tests_pinned_piece_must_be_of_lower_value_than_target() {
    let position = rook_attacks_bishop_through_queen();
    assert!(!is_relative_pin(&position, sq(shakmaty::Square::E4)));
}

#[test]
fn classic_bb5_pin_is_described() {
    let board = after_move(
        "r1bqkbnr/ppp2ppp/2np4/4p3/4P3/2N2N2/PPPP1PPP/R1BQKB1R w KQkq - 2 4",
        "f1b5",
    );
    let pins = board.pins_involving_square(sq(shakmaty::Square::B5));
    let lines: Vec<String> = pins.iter().map(|p| p.to_string()).collect();
    assert_eq!(
        lines,
        vec!["The White Bishop on b5 now pins the Black Knight on c6 to the Black King on e8".to_string()]
    );
}

#[test]
fn classic_bb5_protected_is_described() {
    let board = after_move(
        "rnbqkbnr/ppp2ppp/3p4/1B2p3/4P3/5N2/PPPP1PPP/RNBQK2R b KQkq - 1 3",
        "b8c6",
    );
    let pins = board.pins_involving_square(sq(shakmaty::Square::C6));
    let lines: Vec<String> = pins.iter().map(|p| p.to_string()).collect();
    assert_eq!(
        lines,
        vec!["The White Bishop on b5 now pins the Black Knight on c6 to the Black King on e8".to_string()]
    );
}

#[test]
fn pin_to_king_and_to_queen_is_both() {
    let position = position_of("3r3k/b7/8/8/3N4/8/8/3K2Q1 w - - 0 1");
    let d4 = sq(shakmaty::Square::D4);
    assert!(is_absolutely_pinned(&position, d4));
    assert!(is_relative_pin(&position, d4));
    assert_eq!(is_pin(&position, d4), Some(Pins::AbsoluteAndRelative));
}

#[test]
fn relative_pin_alone_is_relative() {
    let position = rook_attacks_rook_through_bishop();
    assert_eq!(is_pin(&position, sq(shakmaty::Square::E4)), Some(Pins::Relative));
}

#[test]
fn pinned_search_is_empty_on_empty_squares_and_kings() {
    let position = pawn_absolutely_pinned_on_e2();
    assert!(position.pins_where_square_is_pinned(sq(shakmaty::Square::E4)).is_empty());
    assert!(position.pins_where_square_is_pinned(sq(shakmaty::Square::G2)).is_empty());
    assert!(position.pins_where_square_is_pinned(Square(64)).is_empty());
}

#[test]
fn pinned_search_finds_attacker_and_target() {
    let position = pawn_absolutely_pinned_on_e2();
    let pins = position.pins_where_square_is_pinned(sq(shakmaty::Square::E2));
    assert_eq!(pins.len(), 1);
    let pin = &pins[0];
    assert_eq!(pin.attacking_square(), sq(shakmaty::Square::B2));
    assert_eq!(pin.pinned_square(), sq(shakmaty::Square::E2));
    assert_eq!(pin.target_square(), sq(shakmaty::Square::G2));
    assert_eq!(pin.attacking_piece(), Piece { color: Color::Black, role: Role::Rook });
    assert_eq!(pin.pinned_piece(), Piece { color: Color::White, role: Role::Pawn });
    assert_eq!(pin.target_piece(), Piece { color: Color::White, role: Role::King });
    assert!(pin.is_absolute());
    assert!(!pin.is_relative());
    assert_eq!(
        pin.to_string(),
        "The Black Rook on b2 now pins the White Pawn on e2 to the White King on g2"
    );
}

fn assert_only_blocker(position: &Board, pins: &[chess_pins::Pin]) {
    for pin in pins {
        let a = shakmaty::Square::new(pin.attacking_square().0 as u32);
        let t = shakmaty::Square::new(pin.target_square().0 as u32);
        let own = position.by_color(pin.target_piece().color);
        let blockers: Vec<u8> = shakmaty::attacks::between(a, t)
            .into_iter()
            .map(|s| s as u8)
            .filter(|&s| (own >> s) & 1 == 1 && s != pin.target_square().0)
            .collect();
        assert_eq!(blockers, vec![pin.pinned_square().0]);
    }
}

#[test]
fn listed_pins_have_the_pinned_piece_as_only_blocker() {
    let position = position_of("3r3k/b7/8/8/3N4/8/8/3K2Q1 w - - 0 1");
    let pins = position.pins_where_square_is_pinned(sq(shakmaty::Square::D4));
    assert_eq!(pins.len(), 2);
    assert_only_blocker(&position, &pins);
    let by_attacker = position.pins_where_square_is_attacker(sq(shakmaty::Square::A7));
    assert_eq!(by_attacker.len(), 1);
    assert_only_blocker(&position, &by_attacker);
    let shielded = position_of("4r2k/8/8/8/8/8/4P3/4K3 w - - 0 1");
    let by_target = shielded.pins_where_square_is_target(sq(shakmaty::Square::E1));
    assert_eq!(by_target.len(), 1);
    assert_only_blocker(&shielded, &by_target);
}

#[test]
fn searches_give_the_same_pins_twice() {
    let board = after_move(
        "r1bqkbnr/ppp2ppp/2np4/4p3/4P3/2N2N2/PPPP1PPP/R1BQKB1R w KQkq - 2 4",
        "f1b5",
    );
    for s in 0..64u8 {
        let square = Square(s);
        assert_eq!(board.pins_where_square_is_pinned(square), board.pins_where_square_is_pinned(square));
        assert_eq!(
            board.pins_where_square_is_attacker(square),
            board.pins_where_square_is_attacker(square)
        );
        assert_eq!(board.pins_where_square_is_target(square), board.pins_where_square_is_target(square));
        assert_eq!(board.pins_involving_square(square), board.pins_involving_square(square));
    }
}

#[test]
fn attacker_search_finds_the_pin() {
    let position = pawn_absolutely_pinned_on_e2();
    let pins = position.pins_where_square_is_attacker(sq(shakmaty::Square::B2));
    assert_eq!(pins.len(), 1);
    assert_eq!(pins[0].pinned_square(), sq(shakmaty::Square::E2));
    assert_eq!(pins[0].target_square(), sq(shakmaty::Square::G2));
    assert!(position.pins_where_square_is_attacker(sq(shakmaty::Square::E4)).is_empty());
}

#[test]
fn attacker_and_pin_needs_an_enemy_attacker() {
    let position = pawn_absolutely_pinned_on_e2();
    let found = position.attacker_and_pin(sq(shakmaty::Square::B2), sq(shakmaty::Square::E2));
    assert_eq!(found.map(|p| p.target_square()), Some(sq(shakmaty::Square::G2)));
    assert!(position.attacker_and_pin(sq(shakmaty::Square::G2), sq(shakmaty::Square::E2)).is_none());
    assert!(position.attacker_and_pin(sq(shakmaty::Square::B2), sq(shakmaty::Square::E3)).is_none());
}

#[test]
fn king_does_not_pin_through_an_adjacent_piece() {
    let position = position_of("4k3/8/8/4q3/8/8/4p3/4K3 w - - 0 1");
    assert!(position.pins_where_square_is_attacker(sq(shakmaty::Square::E1)).is_empty());
    assert!(position.attacker_and_pin(sq(shakmaty::Square::E1), sq(shakmaty::Square::E2)).is_none());
}

#[test]
fn target_search_finds_the_shield() {
    let position = position_of("4r2k/8/8/8/8/8/4P3/4K3 w - - 0 1");
    let pins = position.pins_where_square_is_target(sq(shakmaty::Square::E1));
    assert_eq!(pins.len(), 1);
    assert_eq!(pins[0].attacking_square(), sq(shakmaty::Square::E8));
    assert_eq!(pins[0].pinned_square(), sq(shakmaty::Square::E2));
    assert_eq!(pins[0].target_square(), sq(shakmaty::Square::E1));
    assert!(position.pins_where_square_is_target(sq(shakmaty::Square::E4)).is_empty());
}

#[test]
fn target_search_with_two_shields_reveals_nothing() {
    let position = position_of("4r2k/8/8/8/8/4P3/4P3/4K3 w - - 0 1");
    assert!(position.pins_where_square_is_target(sq(shakmaty::Square::E1)).is_empty());
    assert!(position.pins_where_square_is_pinned(sq(shakmaty::Square::E2)).is_empty());
}

#[test]
fn involving_square_concatenates_the_three_searches() {
    let position = position_of("4r2k/8/8/8/8/8/4P3/4K3 w - - 0 1");
    for s in [shakmaty::Square::E8, shakmaty::Square::E2, shakmaty::Square::E1] {
        let square = sq(s);
        let mut expected = position.pins_where_square_is_attacker(square);
        expected.extend(position.pins_where_square_is_pinned(square));
        expected.extend(position.pins_where_square_is_target(square));
        assert_eq!(position.pins_involving_square(square), expected);
        assert_eq!(expected.len(), 1);
    }
}

#[test]
fn role_points() {
    assert_eq!(Role::Pawn.points(), Some(1));
    assert_eq!(Role::Knight.points(), Some(3));
    assert_eq!(Role::Bishop.points(), Some(3));
    assert_eq!(Role::Rook.points(), Some(5));
    assert_eq!(Role::Queen.points(), Some(9));
    assert_eq!(Role::King.points(), None);
}

#[test]
fn role_comparisons() {
    assert!(Role::Pawn.is_higher_value(Role::Knight));
    assert!(!Role::Knight.is_higher_value(Role::Bishop));
    assert!(Role::Queen.is_higher_value(Role::King));
    assert!(Role::King.is_higher_value(Role::King));
    assert!(!Role::King.is_higher_value(Role::Queen));
    assert!(Role::King.is_lower_value(Role::Queen));
    assert!(Role::King.is_lower_value(Role::King));
    assert!(Role::Rook.is_lower_value(Role::Bishop));
    assert!(!Role::Rook.is_lower_value(Role::King));
    assert!(!Role::Bishop.is_lower_value(Role::Knight));
}

#[test]
fn role_lists() {
    assert_eq!(all_roles().len(), 6);
    assert_eq!(Role::Knight.higher_value_roles(), vec![Role::Rook, Role::Queen, Role::King]);
    assert_eq!(Role::King.higher_value_roles(), vec![Role::King]);
    assert_eq!(Role::Rook.lower_value_roles(), vec![Role::Pawn, Role::Knight, Role::Bishop]);
    assert_eq!(Role::King.lower_value_roles(), all_roles());
    assert!(Role::Pawn.lower_value_roles().is_empty());
}

#[test]
fn board_set_and_remove() {
    let mut b = Board::empty();
    let e4 = sq(shakmaty::Square::E4);
    assert_eq!(b.piece_at(e4), None);
    b.set_piece_at(e4, Piece { color: Color::Black, role: Role::Queen });
    assert_eq!(b.piece_at(e4), Some(Piece { color: Color::Black, role: Role::Queen }));
    b.set_piece_at(e4, Piece { color: Color::White, role: Role::Knight });
    assert_eq!(b.piece_at(e4), Some(Piece { color: Color::White, role: Role::Knight }));
    assert_eq!(b.by_color(Color::White), 1u64 << 28);
    assert_eq!(b.by_color(Color::Black), 0);
    assert_eq!(b.by_role(Role::Knight), 1u64 << 28);
    assert_eq!(b.occupied(), 1u64 << 28);
    b.remove_piece_at(e4);
    assert_eq!(b.piece_at(e4), None);
    assert_eq!(b, Board::empty());
    assert_eq!(b.piece_at(Square(64)), None);
}

#[test]
fn board_role_masks() {
    let position = rook_attacks_rook_through_bishop();
    let e1 = 1u64 << 4;
    let h1 = 1u64 << 7;
    let e4 = 1u64 << 28;
    let e8 = 1u64 << 60;
    let h8 = 1u64 << 63;
    assert_eq!(position.by_higher_valued_roles(Role::Bishop), e1 | h1 | e8 | h8);
    assert_eq!(position.by_lower_valued_roles(Role::Rook), e4);
    assert_eq!(position.by_lower_valued_roles(Role::King), position.occupied());
}

#[test]
fn colors_are_opposed() {
    assert_eq!(Color::White.other(), Color::Black);
    assert_eq!(Color::Black.other(), Color::White);
}

#[test]
fn only_blocker_on_a_given_ray() {
    let position = position_of("7k/8/8/4K3/8/8/4P3/4r3 w - - 0 1");
    let e2 = sq(shakmaty::Square::E2);
    let e3 = sq(shakmaty::Square::E3);
    let e5 = sq(shakmaty::Square::E5);
    let ray = (1u64 << 12) | (1u64 << 20) | (1u64 << 28);
    assert!(position.is_only_blocker(ray, e5, e2));
    assert!(!position.is_only_blocker(ray, e5, e3));
    assert!(!position.is_only_blocker(ray & !(1u64 << 12), e5, e2));
    assert!(!position.is_only_blocker(ray, e3, e2));
    assert!(!position.is_only_blocker(ray, e5, Square(64)));
    let mut blocked = position;
    blocked.set_piece_at(e3, Piece { color: Color::White, role: Role::Knight });
    assert!(!blocked.is_only_blocker(ray, e5, e2));
    blocked.set_piece_at(e3, Piece { color: Color::Black, role: Role::Knight });
    assert!(blocked.is_only_blocker(ray, e5, e2));
}
