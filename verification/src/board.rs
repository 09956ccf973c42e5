//! The board: pieces held as one bitboard per side and piece kind, the
//! castling rights, and the moves that change them.
use vstd::prelude::*;
use core::ops::Not;
use crate::bits::sq_bb;

verus! {

pub type Bitboard = u64;

#[derive(Clone, Copy, PartialEq, Eq, Debug, Structural)]
pub enum Side {
    White,
    Black,
}

impl Not for Side {
    type Output = Side;

    fn not(self) -> (r: Side)
        ensures
            r == opposite(self),
    {
        match self {
            Side::White => Side::Black,
            Side::Black => Side::White,
        }
    }
}

impl vstd::std_specs::ops::NotSpecImpl for Side {
    open spec fn obeys_not_spec() -> bool {
        true
    }

    open spec fn not_req(self) -> bool {
        true
    }

    open spec fn not_spec(self) -> Side {
        opposite(self)
    }
}

pub open spec fn opposite(s: Side) -> Side {
    match s {
        Side::White => Side::Black,
        Side::Black => Side::White,
    }
}

#[derive(Clone, Copy, PartialEq, Eq, Debug, Structural)]
pub enum Piece {
    King,
    Queen,
    Rook,
    Bishop,
    Knight,
    Pawn,
    Empty,
}

/// Position of a piece kind in a side's array of bitboards.
pub open spec fn piece_index(p: Piece) -> int {
    match p {
        Piece::King => 0,
        Piece::Queen => 1,
        Piece::Rook => 2,
        Piece::Bishop => 3,
        Piece::Knight => 4,
        Piece::Pawn => 5,
        Piece::Empty => 6,
    }
}

/// The piece kind stored at position `i` of a side's array of bitboards.
pub open spec fn piece_at_index(i: int) -> Piece {
    if i == 0 {
        Piece::King
    } else if i == 1 {
        Piece::Queen
    } else if i == 2 {
        Piece::Rook
    } else if i == 3 {
        Piece::Bishop
    } else if i == 4 {
        Piece::Knight
    } else if i == 5 {
        Piece::Pawn
    } else {
        Piece::Empty
    }
}

impl Piece {
    /// Position of the piece kind in a side's array of bitboards.
    pub fn index(self) -> (r: usize)
        ensures
            r == piece_index(self),
    {
        match self {
            Piece::King => 0,
            Piece::Queen => 1,
            Piece::Rook => 2,
            Piece::Bishop => 3,
            Piece::Knight => 4,
            Piece::Pawn => 5,
            Piece::Empty => 6,
        }
    }
}

pub fn piece_from_index(idx: usize) -> (p: Piece)
    requires
        idx < 6,
    ensures
        p == piece_at_index(idx as int),
        piece_index(p) == idx,
{
    match idx {
        0 => Piece::King,
        1 => Piece::Queen,
        2 => Piece::Rook,
        3 => Piece::Bishop,
        4 => Piece::Knight,
        _ => Piece::Pawn,
    }
}

/// Castling rights, one bit each: white king side, white queen side,
/// black king side, black queen side.
#[derive(Clone, Copy, Debug, PartialEq, Eq, Structural)]
pub struct Castling(pub u8);

/// Rights bits of a side.
pub open spec fn side_rights(s: Side) -> u8 {
    match s {
        Side::White => 0b11u8,
        Side::Black => 0b1100u8,
    }
}

/// The right that is lost when a rook leaves, or is taken on, square `sq`.
pub open spec fn rook_right(sq: int) -> u8 {
    if sq == 0 {
        0b10u8
    } else if sq == 7 {
        0b1u8
    } else if sq == 56 {
        0b1000u8
    } else if sq == 63 {
        0b100u8
    } else {
        0u8
    }
}

/// Squares between king and rook that must be empty to castle: king side, queen side.
pub open spec fn castle_path(s: Side) -> (Bitboard, Bitboard) {
    match s {
        Side::White => (0x60u64, 0xeu64),
        Side::Black => (0x6000000000000000u64, 0xe00000000000000u64),
    }
}

pub const WHITE_KING_MASK: Bitboard = 0x60;

pub const WHITE_QUEEN_MASK: Bitboard = 0xe;

pub const BLACK_KING_MASK: Bitboard = 0x6000000000000000;

pub const BLACK_QUEEN_MASK: Bitboard = 0xe00000000000000;

impl Castling {
    /// All four rights.
    pub fn new() -> (c: Castling)
        ensures
            c.0 == 0b1111u8,
    {
        Castling(0b00001111)
    }

    /// The king side and queen side rights of `side`.
    pub fn get_side(&self, side: Side) -> (r: [bool; 2])
        ensures
            side == Side::White ==> r@ == seq![self.0 & 1u8 != 0, self.0 & 2u8 != 0],
            side == Side::Black ==> r@ == seq![self.0 & 4u8 != 0, self.0 & 8u8 != 0],
    {
        let c = self.0;
        match side {
            Side::White => [c & 0b1 != 0, c & 0b10 != 0],
            Side::Black => [c & 0b100 != 0, c & 0b1000 != 0],
        }
    }

    /// The squares that must be empty for `side` to castle, king side then queen side.
    pub fn get_side_mask(side: Side) -> (r: [Bitboard; 2])
        ensures
            r@ == seq![castle_path(side).0, castle_path(side).1],
    {
        match side {
            Side::White => [WHITE_KING_MASK, WHITE_QUEEN_MASK],
            Side::Black => [BLACK_KING_MASK, BLACK_QUEEN_MASK],
        }
    }

    /// Drops both rights of `side`.
    pub fn set_side_zero(&mut self, side: Side)
        ensures
            final(self).0 == old(self).0 & !side_rights(side),
    {
        self.0 &= !match side {
            Side::White => 0b11u8,
            Side::Black => 0b1100u8,
        };
    }

    /// Drops the right tied to the rook on corner square `from`, if any.
    pub fn set_zero_from_rook(&mut self, from: u8)
        ensures
            final(self).0 == old(self).0 & !rook_right(from as int),
    {
        self.0 &= !match from {
            0 => 0b10u8,
            7 => 0b1u8,
            56 => 0b1000u8,
            63 => 0b100u8,
            _ => 0b0u8,
        };
    }
}

/// Rook squares of a castling move by the king's destination: (from, to).
pub open spec fn castle_rook(sq: int) -> (Bitboard, Bitboard) {
    if sq == 2 {
        (1u64, 8u64)
    } else if sq == 6 {
        (128u64, 32u64)
    } else if sq == 58 {
        (0x100000000000000u64, 0x800000000000000u64)
    } else if sq == 62 {
        (0x8000000000000000u64, 0x2000000000000000u64)
    } else {
        (0u64, 0u64)
    }
}

/// (from, to) bitboards of the rook when the king castles to `sq`.
pub fn rook_castle_masks(sq: usize) -> (r: (Bitboard, Bitboard))
    ensures
        r == castle_rook(sq as int),
{
    match sq {
        2 => (1, 8),
        6 => (128, 32),
        58 => (0x100000000000000, 0x800000000000000),
        62 => (0x8000000000000000, 0x2000000000000000),
        _ => (0, 0),
    }
}

#[derive(Clone, Copy, PartialEq, Eq, Debug, Structural)]
pub enum GameState {
    Normal,
    WhiteCheckmate,
    BlackCheckmate,
    Stalemate,
    Insufficient,
    Threefold,
    FiftyMove,
}

/// What `make_move` saves so that `unmake_move` can restore it.
#[derive(Clone, Copy, Debug, PartialEq, Eq, Structural)]
pub struct UndoInfo {
    pub prev_castle: Castling,
    pub prev_en_passant: Bitboard,
    pub prev_half_move: usize,
}

impl UndoInfo {
    pub fn new(prev_castle: Castling, prev_en_passant: Bitboard, prev_half_move: usize) -> (u:
        UndoInfo)
        ensures
            u == (UndoInfo { prev_castle, prev_en_passant, prev_half_move }),
    {
        UndoInfo { prev_castle, prev_en_passant, prev_half_move }
    }
}

#[derive(Clone, Copy, Debug, PartialEq, Eq, Structural)]
pub struct Move {
    pub from: u8,
    pub to: u8,
    pub piece: Piece,
    pub promotion: Option<Piece>,
    pub is_castle: bool,
    pub is_en_passant: bool,
    pub capture: Option<Piece>,
}

/// A quiet move of `piece` from `from` to `to`.
pub open spec fn plain_move(from: u8, to: u8, piece: Piece, promotion: Option<Piece>) -> Move {
    Move {
        from,
        to,
        piece,
        promotion,
        is_castle: false,
        is_en_passant: false,
        capture: None,
    }
}

impl Move {
    pub fn new(from: u8, to: u8, piece: Piece, promotion: Option<Piece>) -> (m: Move)
        ensures
            m == plain_move(from, to, piece, promotion),
    {
        Move {
            from,
            to,
            piece,
            promotion,
            is_castle: false,
            is_en_passant: false,
            capture: None,
        }
    }

    pub fn castle(self) -> (m: Move)
        ensures
            m == (Move { is_castle: true, ..self }),
    {
        let mut s = self;
        s.is_castle = true;
        s
    }

    pub fn en_passant(self, en_passant: bool) -> (m: Move)
        ensures
            m == (Move { is_en_passant: en_passant, ..self }),
    {
        let mut s = self;
        s.is_en_passant = en_passant;
        s
    }

    pub fn set_capture(&mut self, piece: Piece)
        ensures
            *final(self) == (Move { capture: Some(piece), ..*old(self) }),
    {
        self.capture = Some(piece);
    }
}

/// A list of at most 256 moves.
pub struct MoveList {
    moves: Vec<Move>,
}

impl View for MoveList {
    type V = Seq<Move>;

    closed spec fn view(&self) -> Seq<Move> {
        self.moves@
    }
}

/// Capacity of a move list.
pub open spec fn move_list_cap() -> int {
    256
}

impl MoveList {
    pub fn new() -> (l: MoveList)
        ensures
            l@ == Seq::<Move>::empty(),
    {
        MoveList { moves: Vec::new() }
    }

    pub fn push(&mut self, m: Move)
        requires
            old(self)@.len() < move_list_cap(),
        ensures
            final(self)@ == old(self)@.push(m),
    {
        self.moves.push(m);
    }

    pub fn pop(&mut self) -> (m: Move)
        requires
            old(self)@.len() > 0,
        ensures
            m == old(self)@.last(),
            final(self)@ == old(self)@.drop_last(),
    {
        self.moves.pop().unwrap()
    }

    pub fn get(&mut self, idx: usize) -> (r: Option<&mut Move>)
        ensures
            idx >= old(self)@.len() ==> r is None && final(self)@ == old(self)@,
            idx < old(self)@.len() ==> r is Some && *r->0 == old(self)@[idx as int]
                && final(self)@ == old(self)@.update(idx as int, *final(r->0)),
    {
        if idx >= self.moves.len() {
            return None;
        }
        Some(&mut self.moves[idx])
    }

    pub fn end(&self) -> (n: usize)
        ensures
            n == self@.len(),
    {
        self.moves.len()
    }
}


#[derive(Clone, Debug, PartialEq, Eq)]
pub struct Board {
    pub side: Side,
    pub castling: Castling,
    pub en_passant: Bitboard,
    pub white: [Bitboard; 6],
    pub black: [Bitboard; 6],
    pub white_bb: Bitboard,
    pub black_bb: Bitboard,
    pub half_move: usize,
    pub full_move: usize,
    pub state: GameState,
}

/// `a` with entry `i` replaced by `v`.
pub open spec fn upd(a: [Bitboard; 6], i: int, v: Bitboard) -> [Bitboard; 6] {
    vstd::array::spec_array_update(a, i, v)
}

/// Union of the six bitboards of a side.
pub open spec fn union6(a: [Bitboard; 6]) -> Bitboard {
    a[0] | a[1] | a[2] | a[3] | a[4] | a[5]
}

/// No square is in two of the six bitboards.
pub open spec fn disjoint6(a: [Bitboard; 6]) -> bool {
    forall|i: int, j: int| 0 <= i < j < 6 ==> #[trigger] (a[i] & a[j]) == 0
}

impl Board {
    /// Piece bitboards of side `s`.
    pub open spec fn pieces(self, s: Side) -> [Bitboard; 6] {
        match s {
            Side::White => self.white,
            Side::Black => self.black,
        }
    }

    /// All squares held by side `s`, as the board records them.
    pub open spec fn occupancy(self, s: Side) -> Bitboard {
        match s {
            Side::White => self.white_bb,
            Side::Black => self.black_bb,
        }
    }

    /// The board with the piece bitboards of `s` replaced.
    pub open spec fn with_pieces(self, s: Side, a: [Bitboard; 6]) -> Board {
        match s {
            Side::White => Board { white: a, ..self },
            Side::Black => Board { black: a, ..self },
        }
    }

    /// The board with the occupancy of `s` replaced.
    pub open spec fn with_occupancy(self, s: Side, v: Bitboard) -> Board {
        match s {
            Side::White => Board { white_bb: v, ..self },
            Side::Black => Board { black_bb: v, ..self },
        }
    }

    /// The bitboards agree with each other: each side's occupancy is the union of
    /// its pieces, and no square holds two pieces.
    pub open spec fn wf(self) -> bool {
        &&& self.white_bb == union6(self.white)
        &&& self.black_bb == union6(self.black)
        &&& disjoint6(self.white)
        &&& disjoint6(self.black)
        &&& self.white_bb & self.black_bb == 0
    }
}

/// Square of the piece taken by `m` when `s` plays it: the destination, or the
/// square behind it for an en passant capture.
pub open spec fn capture_square(s: Side, m: Move) -> Bitboard {
    let t = sq_bb(m.to as int);
    if m.is_en_passant {
        match s {
            Side::White => t >> 8u64,
            Side::Black => t << 8u64,
        }
    } else {
        t
    }
}

/// First of the bitboards `o[i..]` that meets `t`; 6 when none does.
pub open spec fn first_hit(o: [Bitboard; 6], t: Bitboard, i: int) -> int
    decreases 6 - i,
{
    if i >= 6 || i < 0 {
        6
    } else if o[i] & t != 0 {
        i
    } else {
        first_hit(o, t, i + 1)
    }
}

/// Index of the opposing piece kind that `m` takes; 6 when it takes nothing.
pub open spec fn taken_index(b: Board, m: Move) -> int {
    let t = capture_square(b.side, m);
    if t & b.occupancy(opposite(b.side)) != 0 {
        first_hit(b.pieces(opposite(b.side)), t, 0)
    } else {
        6
    }
}

/// The mover's piece bitboards after `m`.
pub open spec fn moved_pieces(p: [Bitboard; 6], m: Move) -> [Bitboard; 6] {
    let f = sq_bb(m.from as int);
    let t = sq_bb(m.to as int);
    let i = piece_index(m.piece);
    let p1 = upd(p, i, (p[i] & !f) | t);
    let p2 = match m.promotion {
        Some(q) => {
            let p1b = upd(p1, i, p1[i] & !t);
            upd(p1b, piece_index(q), p1b[piece_index(q)] | t)
        },
        None => p1,
    };
    if m.is_castle {
        let (fr, tr) = castle_rook(m.to as int);
        upd(p2, 2, (p2[2] & !fr) | tr)
    } else {
        p2
    }
}

/// The mover's occupancy after `m`.
pub open spec fn moved_occupancy(o: Bitboard, m: Move) -> Bitboard {
    let o1 = (o & !sq_bb(m.from as int)) | sq_bb(m.to as int);
    if m.is_castle {
        let (fr, tr) = castle_rook(m.to as int);
        (o1 & !fr) | tr
    } else {
        o1
    }
}

/// True when `m` is a pawn move of two ranks.
pub open spec fn is_double_push(m: Move) -> bool {
    m.piece == Piece::Pawn && (m.to as int - m.from as int == 16 || m.from as int - m.to as int
        == 16)
}

/// Castling rights after `m` is played on `b`.
pub open spec fn moved_rights(b: Board, m: Move) -> u8 {
    let s = b.side;
    let c0 = b.castling.0;
    let c1 = if m.piece == Piece::King {
        c0 & !side_rights(s)
    } else if m.piece == Piece::Rook {
        c0 & !rook_right(m.from as int)
    } else {
        c0
    };
    let hit = capture_square(s, m) & b.occupancy(opposite(s)) != 0;
    let c2 = if hit {
        c1 & !rook_right(m.to as int)
    } else {
        c1
    };
    if m.is_castle {
        c2 & !side_rights(s)
    } else {
        c2
    }
}

/// The board after `make_move(m)` on `b`.
pub open spec fn after_move(b: Board, m: Move) -> Board {
    let s = b.side;
    let o = opposite(s);
    let t = capture_square(s, m);
    let hit = t & b.occupancy(o) != 0;
    let k = taken_index(b, m);
    let mover = moved_pieces(b.pieces(s), m);
    let mover_occ = moved_occupancy(b.occupancy(s), m);
    let opp = if k < 6 {
        upd(b.pieces(o), k, b.pieces(o)[k] & !t)
    } else {
        b.pieces(o)
    };
    let opp_occ = if hit {
        b.occupancy(o) & !t
    } else {
        b.occupancy(o)
    };
    let half = if k < 6 || m.piece == Piece::Pawn {
        0
    } else {
        (b.half_move + 1) as usize
    };
    Board {
        side: o,
        castling: Castling(moved_rights(b, m)),
        en_passant: if is_double_push(m) {
            sq_bb((m.to as int + m.from as int) / 2)
        } else {
            0
        },
        white: if s == Side::White {
            mover
        } else {
            opp
        },
        black: if s == Side::White {
            opp
        } else {
            mover
        },
        white_bb: if s == Side::White {
            mover_occ
        } else {
            opp_occ
        },
        black_bb: if s == Side::White {
            opp_occ
        } else {
            mover_occ
        },
        half_move: half,
        full_move: if s == Side::Black {
            (b.full_move + 1) as usize
        } else {
            b.full_move
        },
        state: if half >= 50 {
            GameState::FiftyMove
        } else {
            b.state
        },
    }
}

/// `m` as `make_move` leaves it: with the piece it took recorded.
pub open spec fn moved(b: Board, m: Move) -> Move {
    let k = taken_index(b, m);
    Move {
        capture: if k < 6 {
            Some(piece_at_index(k))
        } else {
            m.capture
        },
        ..m
    }
}

/// What `make_move` returns for `b`.
pub open spec fn undo_of(b: Board) -> UndoInfo {
    UndoInfo { prev_castle: b.castling, prev_en_passant: b.en_passant, prev_half_move: b.half_move }
}

/// The board after `unmake_move(m, u)` on `b`.
pub open spec fn unmade(b: Board, m: Move, u: UndoInfo) -> Board {
    let s = opposite(b.side);
    let o = b.side;
    let f = sq_bb(m.from as int);
    let t = sq_bb(m.to as int);
    let i = piece_index(m.piece);
    let p = b.pieces(s);
    let p1 = upd(p, i, (p[i] & !t) | f);
    let p2 = match m.promotion {
        Some(q) => upd(p1, piece_index(q), p1[piece_index(q)] & !t),
        None => p1,
    };
    let (fr, tr) = castle_rook(m.to as int);
    let mover = if m.is_castle {
        upd(p2, 2, (p2[2] & !tr) | fr)
    } else {
        p2
    };
    let occ1 = (b.occupancy(s) & !t) | f;
    let mover_occ = if m.is_castle {
        (occ1 & !tr) | fr
    } else {
        occ1
    };
    let ct = capture_square(s, m);
    let opp = match m.capture {
        Some(c) => upd(b.pieces(o), piece_index(c), b.pieces(o)[piece_index(c)] | ct),
        None => b.pieces(o),
    };
    let opp_occ = match m.capture {
        Some(c) => b.occupancy(o) | ct,
        None => b.occupancy(o),
    };
    Board {
        side: s,
        castling: u.prev_castle,
        en_passant: u.prev_en_passant,
        white: if s == Side::White {
            mover
        } else {
            opp
        },
        black: if s == Side::White {
            opp
        } else {
            mover
        },
        white_bb: if s == Side::White {
            mover_occ
        } else {
            opp_occ
        },
        black_bb: if s == Side::White {
            opp_occ
        } else {
            mover_occ
        },
        half_move: u.prev_half_move,
        full_move: if s == Side::Black {
            (b.full_move - 1) as usize
        } else {
            b.full_move
        },
        state: GameState::Normal,
    }
}

/// The squares and piece kinds of `m` index the board's arrays.
pub open spec fn move_in_range(m: Move) -> bool {
    &&& m.from < 64
    &&& m.to < 64
    &&& piece_index(m.piece) < 6
    &&& (m.promotion matches Some(q) ==> piece_index(q) < 6)
    &&& (m.capture matches Some(c) ==> piece_index(c) < 6)
}

/// `make_move(m)` on `b` neither indexes out of range nor overflows a counter.
pub open spec fn can_make(b: Board, m: Move) -> bool {
    &&& move_in_range(m)
    &&& b.half_move < usize::MAX
    &&& (b.side == Side::Black ==> b.full_move < usize::MAX)
}

/// `unmake_move(m, _)` on `b` neither indexes out of range nor underflows a counter.
pub open spec fn can_unmake(b: Board, m: Move) -> bool {
    &&& move_in_range(m)
    &&& (b.side == Side::White ==> b.full_move > 0)
}

/// `m` moves a piece of the side to move from where it stands to a square that
/// side does not hold; a castling king move has its rook at home and the
/// rook's target free; a recorded capture has something to take.
pub open spec fn move_fits(b: Board, m: Move) -> bool {
    let s = b.side;
    &&& move_in_range(m)
    &&& b.pieces(s)[piece_index(m.piece)] & sq_bb(m.from as int) != 0
    &&& b.occupancy(s) & sq_bb(m.to as int) == 0
    &&& (m.capture is Some ==> capture_square(s, m) & b.occupancy(opposite(s)) != 0)
    &&& (m.is_castle ==> {
        &&& m.piece == Piece::King
        &&& m.promotion is None
        &&& (castle_rook(m.to as int).0 != 0 ==> b.pieces(s)[2] & castle_rook(m.to as int).0 != 0
            && b.occupancy(s) & castle_rook(m.to as int).1 == 0)
    })
}

impl Board {
    pub fn side_pieces(&self) -> (r: [Bitboard; 6])
        ensures
            r == self.pieces(self.side),
    {
        match self.side {
            Side::White => self.white,
            Side::Black => self.black,
        }
    }

    pub fn opp_pieces(&self) -> (r: [Bitboard; 6])
        ensures
            r == self.pieces(opposite(self.side)),
    {
        match self.side {
            Side::Black => self.white,
            Side::White => self.black,
        }
    }

    pub fn side_bb(&self) -> (r: Bitboard)
        ensures
            r == self.occupancy(self.side),
    {
        match self.side {
            Side::White => self.white_bb,
            Side::Black => self.black_bb,
        }
    }

    pub fn opp_bb(&self) -> (r: Bitboard)
        ensures
            r == self.occupancy(opposite(self.side)),
    {
        match self.side {
            Side::White => self.black_bb,
            Side::Black => self.white_bb,
        }
    }

    pub fn side_pieces_mut(&mut self) -> (r: &mut [Bitboard; 6])
        ensures
            *r == old(self).pieces(old(self).side),
            *final(self) == old(self).with_pieces(old(self).side, *final(r)),
    {
        match self.side {
            Side::White => &mut self.white,
            Side::Black => &mut self.black,
        }
    }

    pub fn opp_pieces_mut(&mut self) -> (r: &mut [Bitboard; 6])
        ensures
            *r == old(self).pieces(opposite(old(self).side)),
            *final(self) == old(self).with_pieces(opposite(old(self).side), *final(r)),
    {
        match self.side {
            Side::Black => &mut self.white,
            Side::White => &mut self.black,
        }
    }

    pub fn side_bb_mut(&mut self) -> (r: &mut Bitboard)
        ensures
            *r == old(self).occupancy(old(self).side),
            *final(self) == old(self).with_occupancy(old(self).side, *final(r)),
    {
        match self.side {
            Side::White => &mut self.white_bb,
            Side::Black => &mut self.black_bb,
        }
    }

    pub fn opp_bb_mut(&mut self) -> (r: &mut Bitboard)
        ensures
            *r == old(self).occupancy(opposite(old(self).side)),
            *final(self) == old(self).with_occupancy(opposite(old(self).side), *final(r)),
    {
        match self.side {
            Side::White => &mut self.black_bb,
            Side::Black => &mut self.white_bb,
        }
    }

    pub fn get_side(&self, side: Side) -> (r: &[Bitboard; 6])
        ensures
            *r == self.pieces(side),
    {
        match side {
            Side::White => &self.white,
            Side::Black => &self.black,
        }
    }
}

/// Index of the first of `o` that meets `t`; 6 when none does.
fn first_hit_index(o: &[Bitboard; 6], t: Bitboard) -> (k: usize)
    ensures
        k == first_hit(*o, t, 0),
{
    let mut i: usize = 0;
    while i < 6
        invariant
            i <= 6,
            first_hit(*o, t, 0) == first_hit(*o, t, i as int),
        decreases 6 - i,
    {
        if o[i] & t != 0 {
            return i;
        }
        i += 1;
    }
    6
}

/// What a diagram of `b` shows on square `sq`: the kind and side of the piece
/// there, or an empty (white) square. A white piece is looked for among
/// white's bitboards, any other among black's.
pub open spec fn shown_at(b: Board, sq: int) -> (Piece, Side) {
    let t = sq_bb(sq);
    if t & (b.white_bb | b.black_bb) == 0 {
        (Piece::Empty, Side::White)
    } else if t & b.white_bb != 0 {
        (piece_at_index(first_hit(b.white, t, 0)), Side::White)
    } else if first_hit(b.black, t, 0) < 6 {
        (piece_at_index(first_hit(b.black, t, 0)), Side::Black)
    } else {
        (Piece::Empty, Side::White)
    }
}

impl Board {
    /// What a diagram of the board shows on each square, from a1 to h8.
    pub fn diagram(&self) -> (r: Vec<(Piece, Side)>)
        ensures
            r@.len() == 64,
            forall|sq: int| 0 <= sq < 64 ==> #[trigger] r@[sq] == shown_at(*self, sq),
    {
        let pbb = self.white_bb | self.black_bb;
        let mut out: Vec<(Piece, Side)> = Vec::new();
        let mut sq: usize = 0;
        while sq < 64
            invariant
                sq <= 64,
                pbb == self.white_bb | self.black_bb,
                out@.len() == sq,
                forall|j: int| 0 <= j < sq ==> #[trigger] out@[j] == shown_at(*self, j),
            decreases 64 - sq,
        {
            let bb: Bitboard = 1u64 << (sq as u64);
            let mut shown = (Piece::Empty, Side::White);
            if bb & pbb != 0 {
                if bb & self.white_bb != 0 {
                    let i = first_hit_index(&self.white, bb);
                    if i < 6 {
                        shown = (piece_from_index(i), Side::White);
                    }
                } else {
                    let i = first_hit_index(&self.black, bb);
                    if i < 6 {
                        shown = (piece_from_index(i), Side::Black);
                    }
                }
            }
            out.push(shown);
            sq += 1;
        }
        out
    }
}

/// The mover's piece bitboards after its piece goes from `m.from` to `m.to`
/// (promoted if `m` says so), before any castling rook moves.
pub open spec fn stepped_pieces(p: [Bitboard; 6], m: Move) -> [Bitboard; 6] {
    let f = sq_bb(m.from as int);
    let t = sq_bb(m.to as int);
    let i = piece_index(m.piece);
    let p1 = upd(p, i, (p[i] & !f) | t);
    match m.promotion {
        Some(q) => {
            let p1b = upd(p1, i, p1[i] & !t);
            upd(p1b, piece_index(q), p1b[piece_index(q)] | t)
        },
        None => p1,
    }
}

/// The board after the side to move takes what stands on `t`, if anything.
pub open spec fn after_capture(b: Board, t: Bitboard) -> Board {
    let o = opposite(b.side);
    let k = first_hit(b.pieces(o), t, 0);
    if t & b.occupancy(o) != 0 {
        let b1 = if k < 6 {
            Board { half_move: 0, ..b.with_pieces(o, upd(b.pieces(o), k, b.pieces(o)[k] & !t)) }
        } else {
            b
        };
        b1.with_occupancy(o, b.occupancy(o) & !t)
    } else {
        b
    }
}

impl Board {
    /// Moves the mover's piece from `m.from` to `m.to`, promoting it if `m` says so.
    fn step_piece(&mut self, m: &Move)
        requires
            move_in_range(*m),
        ensures
            *final(self) == old(self).with_pieces(
                old(self).side,
                stepped_pieces(old(self).pieces(old(self).side), *m),
            ).with_occupancy(
                old(self).side,
                (old(self).occupancy(old(self).side) & !sq_bb(m.from as int)) | sq_bb(m.to as int),
            ),
    {
        let pi = m.piece.index();
        let from: Bitboard = 1u64 << (m.from as u64);
        let to: Bitboard = 1u64 << (m.to as u64);
        {
            let pieces = self.side_pieces_mut();
            pieces[pi] = (pieces[pi] & !from) | to;
        }
        if let Some(promotion) = m.promotion {
            let pieces = self.side_pieces_mut();
            pieces[pi] = pieces[pi] & !to;
            let qi = promotion.index();
            pieces[qi] = pieces[qi] | to;
        }
        {
            let occ = self.side_bb_mut();
            *occ = (*occ & !from) | to;
        }
    }

    /// Takes the opposing piece on `to`, if any: clears it, records it in `m`,
    /// and drops the right of a rook taken on its corner `m.to`.
    fn take_piece(&mut self, m: &mut Move, to: Bitboard)
        ensures
            *final(self) == (Board {
                castling: if to & old(self).occupancy(opposite(old(self).side)) != 0 {
                    Castling(old(self).castling.0 & !rook_right(old(m).to as int))
                } else {
                    old(self).castling
                },
                ..after_capture(*old(self), to)
            }),
            *final(m) == (Move {
                capture: if to & old(self).occupancy(opposite(old(self).side)) != 0 && first_hit(
                    old(self).pieces(opposite(old(self).side)),
                    to,
                    0,
                ) < 6 {
                    Some(
                        piece_at_index(
                            first_hit(old(self).pieces(opposite(old(self).side)), to, 0),
                        ),
                    )
                } else {
                    old(m).capture
                },
                ..*old(m)
            }),
    {
        if to & self.opp_bb() != 0 {
            let opp = self.opp_pieces();
            let k = first_hit_index(&opp, to);
            if k < 6 {
                m.set_capture(piece_from_index(k));
                let pieces = self.opp_pieces_mut();
                pieces[k] = pieces[k] & !to;
                self.half_move = 0;
            }
            {
                let occ = self.opp_bb_mut();
                *occ = *occ & !to;
            }
            self.castling.set_zero_from_rook(m.to);
        }
    }

    /// Moves the rook of a castling king move that ends on `to`.
    fn castle_rook_step(&mut self, to: u8)
        ensures
            *final(self) == (Board {
                castling: Castling(old(self).castling.0 & !side_rights(old(self).side)),
                ..old(self).with_pieces(
                    old(self).side,
                    upd(
                        old(self).pieces(old(self).side),
                        2,
                        (old(self).pieces(old(self).side)[2] & !castle_rook(to as int).0)
                            | castle_rook(to as int).1,
                    ),
                ).with_occupancy(
                    old(self).side,
                    (old(self).occupancy(old(self).side) & !castle_rook(to as int).0)
                        | castle_rook(to as int).1,
                )
            }),
    {
        let (from_rook, to_rook) = rook_castle_masks(to as usize);
        {
            let pieces = self.side_pieces_mut();
            pieces[2] = (pieces[2] & !from_rook) | to_rook;
        }
        {
            let occ = self.side_bb_mut();
            *occ = (*occ & !from_rook) | to_rook;
        }
        let s = self.side;
        self.castling.set_side_zero(s);
    }

    /// Plays `m` for the side to move, recording in `m` the piece it takes, and
    /// returns what `unmake_move` needs to take it back.
    pub fn make_move(&mut self, m: &mut Move) -> (undo: UndoInfo)
        requires
            can_make(*old(self), *old(m)),
        ensures
            *final(self) == after_move(*old(self), *old(m)),
            *final(m) == moved(*old(self), *old(m)),
            undo == undo_of(*old(self)),
    {
        let ghost b0 = *self;
        let undo = UndoInfo::new(self.castling, self.en_passant, self.half_move);
        self.half_move += 1;
        self.en_passant = 0;
        self.step_piece(m);
        match m.piece {
            Piece::King => {
                let s = self.side;
                self.castling.set_side_zero(s);
            },
            Piece::Rook => {
                self.castling.set_zero_from_rook(m.from);
            },
            Piece::Pawn => {
                self.half_move = 0;
                let diff = if m.to > m.from {
                    m.to - m.from
                } else {
                    m.from - m.to
                };
                if diff == 16 {
                    self.en_passant = 1u64 << (((m.to + m.from) / 2) as u64);
                }
            },
            _ => {},
        }
        let mut to: Bitboard = 1u64 << (m.to as u64);
        if m.is_en_passant {
            match self.side {
                Side::White => {
                    to = to >> 8u64;
                },
                Side::Black => {
                    to = to << 8u64;
                },
            }
        }
        let ghost b1 = *self;
        assert(to == capture_square(b0.side, *m));
        self.take_piece(m, to);
        let ghost b2 = *self;
        if m.is_castle {
            self.castle_rook_step(m.to);
        }
        let ghost b3 = *self;
        self.side = self.side.not();
        if self.side == Side::White {
            self.full_move += 1;
        }
        if self.half_move >= 50 {
            self.state = GameState::FiftyMove;
        }
        proof {
            let a = after_move(b0, *old(m));
            assert(self.castling == a.castling);
            assert(self.white =~= a.white);
            assert(self.black =~= a.black);
            assert(self.white_bb == a.white_bb);
            assert(self.black_bb == a.black_bb);
            assert(self.half_move == a.half_move);
        }
        undo
    }
}

impl Board {
    /// Puts the mover's piece back from `m.to` on `m.from`, undoing a promotion.
    fn unstep_piece(&mut self, m: &Move)
        requires
            move_in_range(*m),
        ensures
            *final(self) == old(self).with_pieces(
                old(self).side,
                ({
                    let p = old(self).pieces(old(self).side);
                    let i = piece_index(m.piece);
                    let t = sq_bb(m.to as int);
                    let p1 = upd(p, i, (p[i] & !t) | sq_bb(m.from as int));
                    match m.promotion {
                        Some(q) => upd(p1, piece_index(q), p1[piece_index(q)] & !t),
                        None => p1,
                    }
                }),
            ).with_occupancy(
                old(self).side,
                (old(self).occupancy(old(self).side) & !sq_bb(m.to as int)) | sq_bb(m.from as int),
            ),
    {
        let pi = m.piece.index();
        let from: Bitboard = 1u64 << (m.from as u64);
        let to: Bitboard = 1u64 << (m.to as u64);
        {
            let pieces = self.side_pieces_mut();
            pieces[pi] = (pieces[pi] & !to) | from;
        }
        {
            let occ = self.side_bb_mut();
            *occ = (*occ & !to) | from;
        }
        if let Some(promotion) = m.promotion {
            let pieces = self.side_pieces_mut();
            let qi = promotion.index();
            pieces[qi] = pieces[qi] & !to;
        }
    }

    /// Takes back the move `m` that `make_move` played and that returned `undo`.
    pub fn unmake_move(&mut self, m: &Move, undo: &UndoInfo)
        requires
            can_unmake(*old(self), *m),
        ensures
            *final(self) == unmade(*old(self), *m, *undo),
    {
        let ghost b0 = *self;
        self.en_passant = undo.prev_en_passant;
        self.castling = undo.prev_castle;
        self.half_move = undo.prev_half_move;
        self.side = self.side.not();
        self.state = GameState::Normal;
        if self.side == Side::Black {
            self.full_move -= 1;
        }
        self.unstep_piece(m);
        if let Some(capture) = m.capture {
            let mut to: Bitboard = 1u64 << (m.to as u64);
            if m.is_en_passant {
                match self.side {
                    Side::White => {
                        to = to >> 8u64;
                    },
                    Side::Black => {
                        to = to << 8u64;
                    },
                }
            }
            {
                let occ = self.opp_bb_mut();
                *occ = *occ | to;
            }
            let ci = capture.index();
            let pieces = self.opp_pieces_mut();
            pieces[ci] = pieces[ci] | to;
        }
        if m.is_castle {
            let (from_rook, to_rook) = rook_castle_masks(m.to as usize);
            {
                let pieces = self.side_pieces_mut();
                pieces[2] = (pieces[2] & !to_rook) | from_rook;
            }
            {
                let occ = self.side_bb_mut();
                *occ = (*occ & !to_rook) | from_rook;
            }
        }
        proof {
            let a = unmade(b0, *m, *undo);
            assert(self.white =~= a.white);
            assert(self.black =~= a.black);
            assert(self.white_bb == a.white_bb);
            assert(self.black_bb == a.black_bb);
        }
    }
}

/// White's pieces in the initial position, by kind.
pub open spec fn start_white() -> Seq<Bitboard> {
    seq![16u64, 8u64, 129u64, 36u64, 66u64, 65280u64]
}

/// Black's pieces in the initial position, by kind.
pub open spec fn start_black() -> Seq<Bitboard> {
    seq![
        1152921504606846976u64,
        576460752303423488u64,
        9295429630892703744u64,
        2594073385365405696u64,
        4755801206503243776u64,
        71776119061217280u64,
    ]
}

impl Board {
    /// The initial position, white to move, all castling rights.
    pub fn new() -> (b: Board)
        ensures
            b.side == Side::White,
            b.castling == Castling(0b1111),
            b.en_passant == 0,
            b.white@ == start_white(),
            b.black@ == start_black(),
            b.white_bb == 65535,
            b.black_bb == 18446462598732840960,
            b.half_move == 0,
            b.full_move == 0,
            b.state == GameState::Normal,
    {
        let b = Board {
            side: Side::White,
            castling: Castling::new(),
            en_passant: 0,
            white: [16, 8, 129, 36, 66, 65280],
            black: [
                1152921504606846976,
                576460752303423488,
                9295429630892703744,
                2594073385365405696,
                4755801206503243776,
                71776119061217280,
            ],
            white_bb: 65535,
            black_bb: 18446462598732840960,
            half_move: 0,
            full_move: 0,
            state: GameState::Normal,
        };
        proof {
            assert(b.white@ =~= start_white());
            assert(b.black@ =~= start_black());
        }
        b
    }
}

} // verus!
