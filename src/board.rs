use crate::bits::{bit_set, contains, lemma_has_ops, put, single};
use crate::points::all_roles_spec;
use crate::types::{Color, Piece, Role, Square};
use shakmaty::Bitboard;
use vstd::prelude::*;

verus! {

/// A board snapshot: one bitboard per role and one per color.
///
/// Every square holds at most one role and at most one color, and it holds a
/// role exactly when it holds a color.
#[derive(Clone, Copy, Debug, PartialEq, Eq, Structural, Hash)]
pub struct Board {
    pawns: u64,
    knights: u64,
    bishops: u64,
    rooks: u64,
    queens: u64,
    kings: u64,
    white: u64,
    black: u64,
}

spec fn count(b: bool) -> int {
    if b {
        1
    } else {
        0
    }
}

impl Board {
    /// The bitboard of one role.
    pub closed spec fn role_bits(self, r: Role) -> u64 {
        match r {
            Role::Pawn => self.pawns,
            Role::Knight => self.knights,
            Role::Bishop => self.bishops,
            Role::Rook => self.rooks,
            Role::Queen => self.queens,
            Role::King => self.kings,
        }
    }

    /// The bitboard of one color.
    pub closed spec fn color_bits(self, c: Color) -> u64 {
        match c {
            Color::White => self.white,
            Color::Black => self.black,
        }
    }

    /// The bitboard of every occupied square.
    pub closed spec fn occupied_bits(self) -> u64 {
        self.white | self.black
    }

    pub closed spec fn square_consistent(self, s: int) -> bool {
        let roles = count(bit_set(self.pawns, s)) + count(bit_set(self.knights, s)) + count(
            bit_set(self.bishops, s),
        ) + count(bit_set(self.rooks, s)) + count(bit_set(self.queens, s)) + count(
            bit_set(self.kings, s),
        );
        &&& !(bit_set(self.white, s) && bit_set(self.black, s))
        &&& roles <= 1
        &&& (roles == 1) == (bit_set(self.white, s) || bit_set(self.black, s))
    }

    /// The bitboards describe pieces: no square holds two roles or two colors,
    /// and the squares that hold a role are those that hold a color.
    #[verifier::type_invariant]
    pub closed spec fn consistent(self) -> bool {
        forall|s: int| 0 <= s < 64 ==> #[trigger] self.square_consistent(s)
    }

    pub closed spec fn piece_spec(self, s: int) -> Option<Piece> {
        if bit_set(self.white, s) || bit_set(self.black, s) {
            let color = if bit_set(self.white, s) {
                Color::White
            } else {
                Color::Black
            };
            let role = if bit_set(self.pawns, s) {
                Role::Pawn
            } else if bit_set(self.knights, s) {
                Role::Knight
            } else if bit_set(self.bishops, s) {
                Role::Bishop
            } else if bit_set(self.rooks, s) {
                Role::Rook
            } else if bit_set(self.queens, s) {
                Role::Queen
            } else {
                Role::King
            };
            Some(Piece { color, role })
        } else {
            None
        }
    }

    /// The piece on a square, `None` when it is empty or off the board.
    pub open spec fn at(self, sq: Square) -> Option<Piece> {
        if sq.0 < 64 {
            self@[sq.0 as int]
        } else {
            None
        }
    }

    /// The color of the piece on the square with index `s`, if any.
    pub open spec fn color_at(self, s: int) -> Option<Color> {
        if 0 <= s < 64 && self@[s] is Some {
            Some(self@[s].unwrap().color)
        } else {
            None
        }
    }

    /// The role of the piece on the square with index `s`, if any.
    pub open spec fn role_at(self, s: int) -> Option<Role> {
        if 0 <= s < 64 && self@[s] is Some {
            Some(self@[s].unwrap().role)
        } else {
            None
        }
    }

    /// The board with square `s` emptied.
    pub closed spec fn without(self, s: u8) -> Board {
        if s < 64 {
            Board {
                pawns: self.pawns & !single(s),
                knights: self.knights & !single(s),
                bishops: self.bishops & !single(s),
                rooks: self.rooks & !single(s),
                queens: self.queens & !single(s),
                kings: self.kings & !single(s),
                white: self.white & !single(s),
                black: self.black & !single(s),
            }
        } else {
            self
        }
    }

    /// On a consistent board, each bitboard holds exactly the squares of its role or color.
    pub proof fn lemma_square(self, s: int)
        requires
            self.consistent(),
            0 <= s < 64,
        ensures
            forall|c: Color| #[trigger]
                bit_set(self.color_bits(c), s) == (self.color_at(s) == Some(c)),
            forall|r: Role| #[trigger] bit_set(self.role_bits(r), s) == (self.role_at(s) == Some(r)),
            bit_set(self.occupied_bits(), s) == (self@[s] is Some),
    {
        assert(self.square_consistent(s));
        lemma_has_ops(self.white, self.black);
    }

    /// The view has one entry per square.
    pub proof fn lemma_view_len(self)
        ensures
            self@.len() == 64,
    {
    }

    /// A bitboard within the squares of one color holds only pieces of that color.
    pub proof fn lemma_within_color(self, r: u64, c: Color)
        requires
            self.consistent(),
            r & self.color_bits(c) == r,
        ensures
            forall|s: int| #[trigger] bit_set(r, s) ==> self.color_at(s) == Some(c),
    {
        lemma_has_ops(r, self.color_bits(c));
        assert forall|s: int| #[trigger] bit_set(r, s) implies self.color_at(s) == Some(c) by {
            self.lemma_square(s);
            assert(bit_set(r & self.color_bits(c), s));
        }
    }

    /// An empty board.
    pub fn empty() -> (b: Board)
        ensures
            b@.len() == 64,
            forall|s: int| 0 <= s < 64 ==> #[trigger] b@[s] == None::<Piece>,
    {
        proof {
            lemma_has_ops(0, 0);
        }
        Board { pawns: 0, knights: 0, bishops: 0, rooks: 0, queens: 0, kings: 0, white: 0, black: 0 }
    }

    /// The piece on `sq`, if any.
    pub fn piece_at(&self, sq: Square) -> (r: Option<Piece>)
        ensures
            r == self.at(sq),
    {
        if sq.0 >= 64 {
            return None;
        }
        let s = sq.0;
        let white = contains(self.white, s);
        if !white && !contains(self.black, s) {
            return None;
        }
        let color = if white {
            Color::White
        } else {
            Color::Black
        };
        let role = if contains(self.pawns, s) {
            Role::Pawn
        } else if contains(self.knights, s) {
            Role::Knight
        } else if contains(self.bishops, s) {
            Role::Bishop
        } else if contains(self.rooks, s) {
            Role::Rook
        } else if contains(self.queens, s) {
            Role::Queen
        } else {
            Role::King
        };
        Some(Piece { color, role })
    }

    /// Places `piece` on `sq`, replacing whatever stood there.
    pub fn set_piece_at(&mut self, sq: Square, piece: Piece)
        requires
            sq.on_board(),
        ensures
            final(self)@ == old(self)@.update(sq.0 as int, Some(piece)),
    {
        proof {
            use_type_invariant(&*self);
        }
        let ghost pre = *self;
        let s = sq.0;
        let pawns = put(self.pawns, piece.role == Role::Pawn, s);
        let knights = put(self.knights, piece.role == Role::Knight, s);
        let bishops = put(self.bishops, piece.role == Role::Bishop, s);
        let rooks = put(self.rooks, piece.role == Role::Rook, s);
        let queens = put(self.queens, piece.role == Role::Queen, s);
        let kings = put(self.kings, piece.role == Role::King, s);
        let white = put(self.white, piece.color == Color::White, s);
        let black = put(self.black, piece.color == Color::Black, s);
        let ghost g = Board { pawns, knights, bishops, rooks, queens, kings, white, black };
        assert forall|i: int| 0 <= i < 64 implies #[trigger] g.square_consistent(i) by {
            if i != s {
                assert(pre.square_consistent(i));
            }
        }
        let next = Board { pawns, knights, bishops, rooks, queens, kings, white, black };
        *self = next;
        assert(self@ =~= pre@.update(s as int, Some(piece)));
    }

    /// Empties `sq`; a square off the board leaves the board as it is.
    pub fn remove_piece_at(&mut self, sq: Square)
        ensures
            *final(self) == old(self).without(sq.0),
            final(self)@ == (if sq.on_board() {
                old(self)@.update(sq.0 as int, None)
            } else {
                old(self)@
            }),
    {
        if sq.0 >= 64 {
            return ;
        }
        proof {
            use_type_invariant(&*self);
        }
        let ghost pre = *self;
        let s = sq.0;
        let pawns = put(self.pawns, false, s);
        let knights = put(self.knights, false, s);
        let bishops = put(self.bishops, false, s);
        let rooks = put(self.rooks, false, s);
        let queens = put(self.queens, false, s);
        let kings = put(self.kings, false, s);
        let white = put(self.white, false, s);
        let black = put(self.black, false, s);
        let ghost g = Board { pawns, knights, bishops, rooks, queens, kings, white, black };
        assert forall|i: int| 0 <= i < 64 implies #[trigger] g.square_consistent(i) by {
            assert(pre.square_consistent(i));
        }
        let next = Board { pawns, knights, bishops, rooks, queens, kings, white, black };
        *self = next;
        assert(self@ =~= pre@.update(s as int, None));
    }

    /// The squares of the pieces of color `c`.
    pub fn by_color(&self, c: Color) -> (r: u64)
        ensures
            r == self.color_bits(c),
            forall|s: int| #[trigger] bit_set(r, s) == (self.color_at(s) == Some(c)),
    {
        proof {
            use_type_invariant(&*self);
            assert forall|s: int| #[trigger]
                bit_set(self.color_bits(c), s) == (self.color_at(s) == Some(c)) by {
                if 0 <= s < 64 {
                    self.lemma_square(s);
                }
            }
        }
        match c {
            Color::White => self.white,
            Color::Black => self.black,
        }
    }

    /// The squares of the pieces of role `r`.
    pub fn by_role(&self, r: Role) -> (b: u64)
        ensures
            b == self.role_bits(r),
            forall|s: int| #[trigger] bit_set(b, s) == (self.role_at(s) == Some(r)),
    {
        proof {
            use_type_invariant(&*self);
            assert forall|s: int| #[trigger]
                bit_set(self.role_bits(r), s) == (self.role_at(s) == Some(r)) by {
                if 0 <= s < 64 {
                    self.lemma_square(s);
                }
            }
        }
        match r {
            Role::Pawn => self.pawns,
            Role::Knight => self.knights,
            Role::Bishop => self.bishops,
            Role::Rook => self.rooks,
            Role::Queen => self.queens,
            Role::King => self.kings,
        }
    }

    /// The occupied squares.
    pub fn occupied(&self) -> (r: u64)
        ensures
            r == self.occupied_bits(),
            forall|s: int| #[trigger] bit_set(r, s) == (0 <= s < 64 && self@[s] is Some),
    {
        proof {
            use_type_invariant(&*self);
            assert forall|s: int| #[trigger]
                bit_set(self.occupied_bits(), s) == (0 <= s < 64 && self@[s] is Some) by {
                if 0 <= s < 64 {
                    self.lemma_square(s);
                }
            }
        }
        self.white | self.black
    }

    /// The squares whose pieces have one of the roles in `roles`.
    fn by_roles(&self, roles: &Vec<Role>) -> (r: u64)
        ensures
            forall|s: int| #[trigger]
                bit_set(r, s) == (self.role_at(s) is Some && roles@.contains(
                    self.role_at(s).unwrap(),
                )),
    {
        let mut acc: u64 = 0;
        let mut i: usize = 0;
        proof {
            lemma_has_ops(0, 0);
        }
        while i < roles.len()
            invariant
                i <= roles@.len(),
                forall|s: int| #[trigger]
                    bit_set(acc, s) == (self.role_at(s) is Some && roles@.take(i as int).contains(
                        self.role_at(s).unwrap(),
                    )),
            decreases roles@.len() - i,
        {
            let bb = self.by_role(roles[i]);
            proof {
                lemma_has_ops(acc, bb);
                assert(roles@.take(i + 1) =~= roles@.take(i as int).push(roles@[i as int]));
            }
            let ghost prev = roles@.take(i as int);
            acc = acc | bb;
            i = i + 1;
            proof {
                assert forall|s: int| #[trigger]
                    bit_set(acc, s) == (self.role_at(s) is Some && roles@.take(i as int).contains(
                        self.role_at(s).unwrap(),
                    )) by {
                    if self.role_at(s) is Some {
                        let x = self.role_at(s).unwrap();
                        let cur = roles@.take(i as int);
                        assert(cur =~= prev.push(roles@[i - 1]));
                        if cur.contains(x) {
                            let j = choose|j: int| 0 <= j < cur.len() && cur[j] == x;
                            if j < i - 1 {
                                assert(prev[j] == x);
                            }
                        }
                        if prev.contains(x) {
                            let j = choose|j: int| 0 <= j < prev.len() && prev[j] == x;
                            assert(cur[j] == x);
                        }
                        if x == roles@[i - 1] {
                            assert(cur[i - 1] == x);
                        }
                        assert(cur.contains(x) == (prev.contains(x) || x == roles@[i - 1]));
                    }
                }
            }
        }
        assert(roles@.take(i as int) =~= roles@);
        acc
    }

    /// The squares whose pieces outrank role `r`.
    pub fn by_higher_valued_roles(&self, r: Role) -> (b: u64)
        ensures
            forall|s: int| #[trigger]
                bit_set(b, s) == (self.role_at(s) is Some && r.is_higher_value_spec(
                    self.role_at(s).unwrap(),
                )),
    {
        let roles = r.higher_value_roles();
        proof {
            lemma_filter_of_all_roles(|x: Role| r.is_higher_value_spec(x));
        }
        self.by_roles(&roles)
    }

    /// The squares whose pieces rank below role `r`.
    pub fn by_lower_valued_roles(&self, r: Role) -> (b: u64)
        ensures
            forall|s: int| #[trigger]
                bit_set(b, s) == (self.role_at(s) is Some && r.is_lower_value_spec(
                    self.role_at(s).unwrap(),
                )),
    {
        let roles = r.lower_value_roles();
        proof {
            lemma_filter_of_all_roles(|x: Role| r.is_lower_value_spec(x));
        }
        self.by_roles(&roles)
    }
}

/// Filtering the list of every role keeps exactly the roles that pass.
proof fn lemma_filter_of_all_roles(pred: spec_fn(Role) -> bool)
    ensures
        forall|x: Role| #[trigger] all_roles_spec().filter(pred).contains(x) == pred(x),
{
    broadcast use vstd::seq_lib::group_filter_ensures;

    let all = all_roles_spec();
    assert forall|x: Role| #[trigger] all.filter(pred).contains(x) == pred(x) by {
        let i: int = match x {
            Role::Pawn => 0,
            Role::Knight => 1,
            Role::Bishop => 2,
            Role::Rook => 3,
            Role::Queen => 4,
            Role::King => 5,
        };
        assert(all[i] == x);
        if all.filter(pred).contains(x) {
            let j = choose|j: int| 0 <= j < all.filter(pred).len() && all.filter(pred)[j] == x;
            assert(pred(all.filter(pred)[j]));
        }
    }
}

/// The squares from which pieces of `attacker` attack `sq` when the occupied
/// squares are `occupied`, as shakmaty's `Board::attacks_to` computes them.
pub uninterp spec fn attackers_of(b: Board, sq: u8, attacker: Color, occupied: u64) -> u64;

/// The squares that the piece on `sq` attacks, as shakmaty's `Board::attacks_from` computes them.
pub uninterp spec fn attacks_from_of(b: Board, sq: u8) -> u64;

/// The squares strictly between two squares on a shared rank, file or
/// diagonal, as shakmaty's `attacks::between` computes them.
pub uninterp spec fn between_of(a: u8, b: u8) -> u64;

/// Relies on shakmaty's `Board::from_bitboards`, which accepts consistent
/// bitboards, and `Board::attacks_to`, whose result is masked by
/// `by_color(attacker)`.
#[verifier::external_body]
pub(crate) fn attackers_to(b: &Board, sq: Square, attacker: Color, occupied: u64) -> (r: u64)
    requires
        b.consistent(),
        sq.on_board(),
    ensures
        r == attackers_of(*b, sq.0, attacker, occupied),
        r & b.color_bits(attacker) == r,
{
    let roles = shakmaty::ByRole {
        pawn: Bitboard(b.pawns),
        knight: Bitboard(b.knights),
        bishop: Bitboard(b.bishops),
        rook: Bitboard(b.rooks),
        queen: Bitboard(b.queens),
        king: Bitboard(b.kings),
    };
    let colors = shakmaty::ByColor { black: Bitboard(b.black), white: Bitboard(b.white) };
    let color = match attacker {
        Color::White => shakmaty::Color::White,
        Color::Black => shakmaty::Color::Black,
    };
    let board = shakmaty::Board::from_bitboards(roles, colors);
    board.attacks_to(shakmaty::Square::new(sq.0 as u32), color, Bitboard(occupied)).0
}

/// Relies on shakmaty's `Board::from_bitboards`, which accepts consistent
/// bitboards, and `Board::attacks_from`.
#[verifier::external_body]
pub(crate) fn attacks_from(b: &Board, sq: Square) -> (r: u64)
    requires
        b.consistent(),
        sq.on_board(),
    ensures
        r == attacks_from_of(*b, sq.0),
{
    let roles = shakmaty::ByRole {
        pawn: Bitboard(b.pawns),
        knight: Bitboard(b.knights),
        bishop: Bitboard(b.bishops),
        rook: Bitboard(b.rooks),
        queen: Bitboard(b.queens),
        king: Bitboard(b.kings),
    };
    let colors = shakmaty::ByColor { black: Bitboard(b.black), white: Bitboard(b.white) };
    let board = shakmaty::Board::from_bitboards(roles, colors);
    board.attacks_from(shakmaty::Square::new(sq.0 as u32)).0
}

/// Relies on shakmaty's `attacks::between`: the squares strictly between `a`
/// and `b`, empty when they share no rank, file or diagonal.
#[verifier::external_body]
pub(crate) fn between(a: Square, b: Square) -> (r: u64)
    requires
        a.on_board(),
        b.on_board(),
    ensures
        r == between_of(a.0, b.0),
{
    shakmaty::attacks::between(shakmaty::Square::new(a.0 as u32), shakmaty::Square::new(b.0 as u32)).0
}

impl View for Board {
    type V = Seq<Option<Piece>>;

    /// The piece on each of the 64 squares, by index.
    closed spec fn view(&self) -> Seq<Option<Piece>> {
        Seq::new(64, |s: int| self.piece_spec(s))
    }
}

} // verus!
