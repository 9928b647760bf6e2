//! Tiny opening "book": sound, recognised first moves so the engine does not
//! burn clock (and does not always start identically) in the opening, without
//! needing an external theory database. It only covers each side's **first**
//! move (history length 0 or 1) — every move it can return is a textbook
//! opening, so there is no deep-theory correctness risk; afterwards the search
//! takes over.
use vstd::prelude::*;

use crate::board::{file_of, file_spec, forward, forward_spec, rank_of, rank_spec, Color, Move, Piece, PieceKind};
use crate::game::GameState;
use crate::board::lemma_coords_sq;
use crate::moves::{
    elephant_at, elephant_order, from_sorted, kind_rule, legal_filter, legal_move, legal_moves, pseudo_list,
};

verus! {

/// The book weight of `m` for `side` (0: not a book move):
/// - 中炮 / 当头炮: a cannon slides along its rank onto the central file (50);
/// - 起马: a back-rank horse from file 1 or 7 steps to file 2 or 6 (25);
/// - 飞相 / 飞象: an elephant to the central file (20);
/// - 兵三/七进一: a soldier on file 2 or 6 advances one rank (10).
pub open spec fn book_weight(cells: Seq<Option<Piece>>, side: Color, m: Move) -> u32 {
    let back = if side == Color::Red {
        9int
    } else {
        0int
    };
    let ff = file_spec(m.from as int);
    let fr = rank_spec(m.from as int);
    let tf = file_spec(m.to as int);
    let tr = rank_spec(m.to as int);
    match cells[m.from as int] {
        Some(p) => match p.kind {
            PieceKind::Cannon => if fr == tr && tf == 4 {
                50
            } else {
                0
            },
            PieceKind::Horse => if fr == back && (ff == 1 || ff == 7) && (tf == 2 || tf == 6) {
                25
            } else {
                0
            },
            PieceKind::Elephant => if tf == 4 {
                20
            } else {
                0
            },
            PieceKind::Soldier => if (ff == 2 || ff == 6) && tr - fr == forward_spec(side) && tf
                == ff {
                10
            } else {
                0
            },
            _ => 0,
        },
        None => 0,
    }
}

/// `l` lists every legal move of `side` once, by nondecreasing origin square:
/// the order `legal_moves` gives.
pub open spec fn legal_listing(cells: Seq<Option<Piece>>, side: Color, l: Seq<Move>) -> bool {
    &&& forall|k: int| 0 <= k < l.len() ==> legal_move(cells, side, #[trigger] l[k])
    &&& forall|m: Move| #[trigger] legal_move(cells, side, m) ==> l.contains(m)
    &&& l.no_duplicates()
    &&& from_sorted(l)
    &&& elephant_order(cells, l)
}

/// The book candidates among `l`, in order, each with its weight.
pub open spec fn book_cands(cells: Seq<Option<Piece>>, side: Color, l: Seq<Move>) -> Seq<(Move, u32)>
    decreases l.len(),
{
    if l.len() == 0 {
        Seq::empty()
    } else {
        let c = book_cands(cells, side, l.drop_last());
        let w = book_weight(cells, side, l.last());
        if w > 0 {
            c.push((l.last(), w))
        } else {
            c
        }
    }
}

/// Legal moves listed once each, by origin square, an elephant's central
/// moves by decreasing destination.
pub open spec fn ordered_legal(cells: Seq<Option<Piece>>, side: Color, l: Seq<Move>) -> bool {
    &&& forall|k: int| 0 <= k < l.len() ==> legal_move(cells, side, #[trigger] l[k])
    &&& l.no_duplicates()
    &&& from_sorted(l)
    &&& elephant_order(cells, l)
}

/// `x` comes before `y` among book candidates: a lower origin square, or on
/// one square a higher destination.
pub open spec fn cand_before(x: Move, y: Move) -> bool {
    x.from < y.from || (x.from == y.from && x.to > y.to)
}

/// Moves in strictly increasing candidate order.
pub open spec fn cand_sorted(c: Seq<Move>) -> bool {
    forall|k1: int, k2: int| 0 <= k1 < k2 < c.len() ==> cand_before(#[trigger] c[k1], #[trigger] c[k2])
}

/// The moves of weighted candidates.
pub open spec fn cand_moves(c: Seq<(Move, u32)>) -> Seq<Move> {
    Seq::new(c.len(), |k: int| c[k].0)
}

/// Two distinct book moves from one square can only be an elephant's two
/// moves onto the central file.
proof fn lemma_book_same_square(cells: Seq<Option<Piece>>, side: Color, m1: Move, m2: Move)
    requires
        legal_move(cells, side, m1),
        legal_move(cells, side, m2),
        m1.from == m2.from,
        m1 != m2,
        book_weight(cells, side, m1) > 0,
        book_weight(cells, side, m2) > 0,
    ensures
        elephant_at(cells, m1.from as int),
        file_spec(m1.to as int) == 4,
        file_spec(m2.to as int) == 4,
{
    reveal(kind_rule);
    lemma_coords_sq(m1.to as int);
    lemma_coords_sq(m2.to as int);
    lemma_coords_sq(m1.from as int);
}

/// The book candidates of an ordered listing come in candidate order, each
/// a move of the listing.
proof fn lemma_cands_sorted(cells: Seq<Option<Piece>>, side: Color, l: Seq<Move>)
    requires
        ordered_legal(cells, side, l),
    ensures
        cand_sorted(cand_moves(book_cands(cells, side, l))),
        forall|k: int|
            0 <= k < book_cands(cells, side, l).len() ==> l.contains(
                (#[trigger] book_cands(cells, side, l)[k]).0,
            ) && book_cands(cells, side, l)[k].1 == book_weight(cells, side, book_cands(cells, side, l)[k].0)
                && book_cands(cells, side, l)[k].1 > 0,
        forall|m: Move|
            l.contains(m) && book_weight(cells, side, m) > 0 ==> #[trigger] cand_moves(
                book_cands(cells, side, l),
            ).contains(m),
    decreases l.len(),
{
    if l.len() > 0 {
        let p = l.drop_last();
        assert(ordered_legal(cells, side, p)) by {
            assert forall|k: int| 0 <= k < p.len() implies legal_move(cells, side, #[trigger] p[k]) by {
                assert(p[k] == l[k]);
            }
            assert forall|k1: int, k2: int| 0 <= k1 < k2 < p.len() implies #[trigger] p[k1].from
                <= #[trigger] p[k2].from by {
                assert(p[k1] == l[k1] && p[k2] == l[k2]);
            }
            assert forall|k1: int, k2: int|
                0 <= k1 < k2 < p.len() && (#[trigger] p[k1]).from == (#[trigger] p[k2]).from
                    && elephant_at(cells, p[k1].from as int) && file_spec(p[k1].to as int) == 4
                    && file_spec(p[k2].to as int) == 4 implies p[k1].to > p[k2].to by {
                assert(p[k1] == l[k1] && p[k2] == l[k2]);
            }
        }
        lemma_cands_sorted(cells, side, p);
        let c0 = book_cands(cells, side, p);
        let c = book_cands(cells, side, l);
        let last = l.last();
        assert forall|k: int| 0 <= k < c0.len() implies #[trigger] cand_before(c0[k].0, last)
            || book_weight(cells, side, last) == 0 by {
            if book_weight(cells, side, last) > 0 {
                let j = choose|j: int| 0 <= j < p.len() && p[j] == c0[k].0;
                assert(l[j] == p[j]);
                assert(l[j].from <= l[l.len() - 1].from);
                if l[j].from == last.from {
                    assert(l[j] != l[l.len() - 1]);
                    lemma_book_same_square(cells, side, l[j], last);
                }
            }
        }
        if book_weight(cells, side, last) > 0 {
            assert(c == c0.push((last, book_weight(cells, side, last))));
            assert(cand_moves(c) =~= cand_moves(c0).push(last));
            assert forall|k1: int, k2: int| 0 <= k1 < k2 < cand_moves(c).len() implies cand_before(
                #[trigger] cand_moves(c)[k1],
                #[trigger] cand_moves(c)[k2],
            ) by {
                if k2 < c0.len() {
                    assert(cand_moves(c)[k1] == cand_moves(c0)[k1]);
                    assert(cand_moves(c)[k2] == cand_moves(c0)[k2]);
                } else {
                    assert(cand_moves(c)[k1] == c0[k1].0);
                }
            }
            assert forall|k: int| 0 <= k < c.len() implies l.contains((#[trigger] c[k]).0) && c[k].1
                == book_weight(cells, side, c[k].0) && c[k].1 > 0 by {
                if k < c0.len() {
                    assert(c[k] == c0[k]);
                    let j = choose|j: int| 0 <= j < p.len() && p[j] == c0[k].0;
                    assert(l[j] == p[j]);
                } else {
                    assert(l[l.len() - 1] == last);
                }
            }
            assert forall|m: Move| l.contains(m) && book_weight(cells, side, m) > 0 implies #[trigger] cand_moves(c).contains(m) by {
                let j = choose|j: int| 0 <= j < l.len() && l[j] == m;
                if j < l.len() - 1 {
                    assert(p[j] == m);
                    assert(p.contains(m));
                    assert(cand_moves(c0).contains(m));
                    let k = choose|k: int| 0 <= k < cand_moves(c0).len() && cand_moves(c0)[k] == m;
                    assert(cand_moves(c)[k] == m);
                } else {
                    assert(cand_moves(c)[c0.len() as int] == m);
                }
            }
        } else {
            assert(c == c0);
            assert forall|m: Move| l.contains(m) && book_weight(cells, side, m) > 0 implies #[trigger] cand_moves(c).contains(m) by {
                let j = choose|j: int| 0 <= j < l.len() && l[j] == m;
                assert(j < l.len() - 1);
                assert(p[j] == m);
                assert(p.contains(m));
                assert(cand_moves(c0).contains(m));
            }
            assert forall|k: int| 0 <= k < c.len() implies l.contains((#[trigger] c[k]).0) by {
                let j = choose|j: int| 0 <= j < p.len() && p[j] == c0[k].0;
                assert(l[j] == p[j]);
            }
        }
    }
}

/// Two sequences in strictly increasing candidate order with the same moves
/// are the same sequence.
proof fn lemma_sorted_unique(a: Seq<Move>, b: Seq<Move>)
    requires
        cand_sorted(a),
        cand_sorted(b),
        forall|m: Move| a.contains(m) <==> b.contains(m),
    ensures
        a == b,
    decreases a.len(),
{
    if a.len() == 0 {
        if b.len() > 0 {
            assert(b.contains(b[0]));
        }
        assert(a =~= b);
    } else {
        assert(a.contains(a[0]));
        assert(b.len() > 0);
        assert(b.contains(b[0]));
        let i = choose|i: int| 0 <= i < b.len() && b[i] == a[0];
        let j = choose|j: int| 0 <= j < a.len() && a[j] == b[0];
        if i > 0 {
            assert(cand_before(b[0], b[i]));
            if j > 0 {
                assert(cand_before(a[0], a[j]));
            }
        }
        assert(a[0] == b[0]);
        let a1 = a.subrange(1, a.len() as int);
        let b1 = b.subrange(1, b.len() as int);
        assert forall|k1: int, k2: int| 0 <= k1 < k2 < a1.len() implies cand_before(
            #[trigger] a1[k1],
            #[trigger] a1[k2],
        ) by {
            assert(a1[k1] == a[k1 + 1] && a1[k2] == a[k2 + 1]);
        }
        assert forall|k1: int, k2: int| 0 <= k1 < k2 < b1.len() implies cand_before(
            #[trigger] b1[k1],
            #[trigger] b1[k2],
        ) by {
            assert(b1[k1] == b[k1 + 1] && b1[k2] == b[k2 + 1]);
        }
        assert forall|m: Move| a1.contains(m) <==> b1.contains(m) by {
            if a1.contains(m) {
                let k = choose|k: int| 0 <= k < a1.len() && a1[k] == m;
                assert(a[k + 1] == m);
                assert(cand_before(a[0], a[k + 1]));
                assert(b.contains(m));
                let q = choose|q: int| 0 <= q < b.len() && b[q] == m;
                assert(q != 0);
                assert(b1[q - 1] == m);
            }
            if b1.contains(m) {
                let k = choose|k: int| 0 <= k < b1.len() && b1[k] == m;
                assert(b[k + 1] == m);
                assert(cand_before(b[0], b[k + 1]));
                assert(a.contains(m));
                let q = choose|q: int| 0 <= q < a.len() && a[q] == m;
                assert(q != 0);
                assert(a1[q - 1] == m);
            }
        }
        lemma_sorted_unique(a1, b1);
        assert(a =~= seq![a[0]] + a1);
        assert(b =~= seq![b[0]] + b1);
    }
}

/// Every listing of the legal moves in the order `legal_moves` gives has the
/// same book candidates.
pub proof fn lemma_book_cands_unique(cells: Seq<Option<Piece>>, side: Color, l1: Seq<Move>, l2: Seq<Move>)
    requires
        legal_listing(cells, side, l1),
        legal_listing(cells, side, l2),
    ensures
        book_cands(cells, side, l1) == book_cands(cells, side, l2),
{
    lemma_cands_sorted(cells, side, l1);
    lemma_cands_sorted(cells, side, l2);
    let c1 = book_cands(cells, side, l1);
    let c2 = book_cands(cells, side, l2);
    assert forall|m: Move| cand_moves(c1).contains(m) <==> cand_moves(c2).contains(m) by {
        if cand_moves(c1).contains(m) {
            let k = choose|k: int| 0 <= k < cand_moves(c1).len() && cand_moves(c1)[k] == m;
            assert(c1[k].0 == m);
            assert(l1.contains(m));
            assert(legal_move(cells, side, m));
            assert(l2.contains(m));
        }
        if cand_moves(c2).contains(m) {
            let k = choose|k: int| 0 <= k < cand_moves(c2).len() && cand_moves(c2)[k] == m;
            assert(c2[k].0 == m);
            assert(l2.contains(m));
            assert(legal_move(cells, side, m));
            assert(l1.contains(m));
        }
    }
    lemma_sorted_unique(cand_moves(c1), cand_moves(c2));
    assert forall|k: int| 0 <= k < c1.len() implies c1[k] == c2[k] by {
        assert(cand_moves(c1)[k] == cand_moves(c2)[k]);
    }
    assert(c1 =~= c2);
}

/// The sum of the weights.
pub open spec fn weight_total(c: Seq<(Move, u32)>) -> int
    decreases c.len(),
{
    if c.len() == 0 {
        0
    } else {
        weight_total(c.drop_last()) + c.last().1
    }
}

/// Walking the candidates from entry `j` with `p` left: the first whose
/// weight exceeds what is left, or the last one.
pub open spec fn weighted_from(c: Seq<(Move, u32)>, j: int, p: int) -> Move
    decreases c.len() - j,
{
    if j >= c.len() - 1 {
        c[c.len() - 1].0
    } else if p < c[j].1 {
        c[j].0
    } else {
        weighted_from(c, j + 1, p - c[j].1)
    }
}

/// The weighted pick for the random word `rnd`: the candidate whose share of
/// the total weight holds `rnd % total`.
pub open spec fn weighted_choice(c: Seq<(Move, u32)>, rnd: u64) -> Move {
    weighted_from(c, 0, (rnd as int) % weight_total(c))
}

/// Pick from weighted candidates with the random word `rnd`: candidate `k`
/// takes the `k`-th share of `rnd % total`.
pub fn weighted_pick(cands: &Vec<(Move, u32)>, rnd: u64) -> (m: Move)
    requires
        cands@.len() > 0,
        forall|k: int| 0 <= k < cands@.len() ==> (#[trigger] cands@[k]).1 > 0,
    ensures
        m == weighted_choice(cands@, rnd),
        exists|k: int| 0 <= k < cands@.len() && (#[trigger] cands@[k]).0 == m,
{
    let ghost c = cands@;
    let mut total: u128 = 0;
    let mut i: usize = 0;
    while i < cands.len()
        invariant
            0 <= i <= c.len(),
            c == cands@,
            total == weight_total(c.subrange(0, i as int)),
            total <= i * 0x1_0000_0000,
        decreases c.len() - i,
    {
        proof {
            assert(c.subrange(0, i + 1).drop_last() =~= c.subrange(0, i as int));
        }
        total = total + cands[i].1 as u128;
        i = i + 1;
    }
    proof {
        assert(c.subrange(0, c.len() as int) =~= c);
        assert(c.subrange(0, 1).drop_last() =~= Seq::<(Move, u32)>::empty());
        lemma_total_positive(c);
    }
    assert(total > 0);
    let ghost p0 = (rnd as int) % weight_total(c);
    let mut pick: u128 = (rnd as u128) % total;
    let mut j: usize = 0;
    while j < cands.len() - 1
        invariant
            0 <= j < c.len(),
            c == cands@,
            weighted_from(c, 0, p0) == weighted_from(c, j as int, pick as int),
            p0 == (rnd as int) % weight_total(c),
        decreases c.len() - j,
    {
        let (mv, w) = cands[j];
        if pick < w as u128 {
            assert(weighted_from(c, j as int, pick as int) == c[j as int].0);
            return mv;
        }
        pick = pick - w as u128;
        j = j + 1;
    }
    cands[cands.len() - 1].0
}

proof fn lemma_total_positive(c: Seq<(Move, u32)>)
    requires
        forall|k: int| 0 <= k < c.len() ==> (#[trigger] c[k]).1 > 0,
    ensures
        weight_total(c) >= 0,
        c.len() > 0 ==> weight_total(c) > 0,
    decreases c.len(),
{
    if c.len() > 0 {
        assert forall|k: int| 0 <= k < c.drop_last().len() implies (#[trigger] c.drop_last()[k]).1
            > 0 by {
            assert(c.drop_last()[k] == c[k]);
        }
        lemma_total_positive(c.drop_last());
        assert(c.last().1 > 0);
    }
}

/// A weighted-random principled opening move, or `None` (not in book / no
/// candidate matched → fall back to search). `rnd` is a random word supplied
/// by the caller so the engine keeps sole ownership of its RNG.
pub fn book_move(state: &GameState, rnd: u64) -> (r: Option<Move>)
    ensures
        r is Some <==> state.history@.len() < 2 && exists|m: Move|
            legal_move(state.board.cells@, state.side_to_move, m) && #[trigger] book_weight(
                state.board.cells@,
                state.side_to_move,
                m,
            ) > 0,
        r matches Some(m) ==> legal_move(state.board.cells@, state.side_to_move, m) && book_weight(
            state.board.cells@,
            state.side_to_move,
            m,
        ) > 0,
        r matches Some(m) ==> exists|l: Seq<Move>|
            #[trigger] legal_listing(state.board.cells@, state.side_to_move, l) && m == weighted_choice(
                book_cands(state.board.cells@, state.side_to_move, l),
                rnd,
            ),
        r matches Some(m) ==> m == weighted_choice(
            book_cands(
                state.board.cells@,
                state.side_to_move,
                legal_filter(
                    state.board.cells@,
                    state.side_to_move,
                    pseudo_list(state.board.cells@, state.side_to_move),
                ),
            ),
            rnd,
        ),
        r matches Some(m) ==> forall|l: Seq<Move>|
            #[trigger] legal_listing(state.board.cells@, state.side_to_move, l) ==> m == weighted_choice(
                book_cands(state.board.cells@, state.side_to_move, l),
                rnd,
            ),
{
    if state.history.len() >= 2 {
        return None;  // first move per side only
    }
    let side = state.side_to_move;
    let ghost cells = state.board.cells@;
    let mut board = state.board;
    let back: i32 = if side == Color::Red {
        9
    } else {
        0
    };
    let fwd = forward(side);
    let moves = legal_moves(&mut board, side);
    let mut cands: Vec<(Move, u32)> = Vec::new();
    let mut i: usize = 0;
    while i < moves.len()
        invariant
            0 <= i <= moves@.len(),
            cells == state.board.cells@,
            side == state.side_to_move,
            back == (if side == Color::Red {
                9int
            } else {
                0int
            }),
            fwd == forward_spec(side),
            forall|k: int| 0 <= k < moves@.len() ==> legal_move(cells, side, #[trigger] moves@[k]),
            forall|k: int|
                0 <= k < cands@.len() ==> legal_move(cells, side, (#[trigger] cands@[k]).0)
                    && cands@[k].1 == book_weight(cells, side, cands@[k].0) && cands@[k].1 > 0,
            forall|k: int|
                0 <= k < i && #[trigger] book_weight(cells, side, moves@[k]) > 0 ==> cands@.len()
                    > 0,
            cands@ == book_cands(cells, side, moves@.subrange(0, i as int)),
        decreases moves@.len() - i,
    {
        proof {
            assert(moves@.subrange(0, i + 1).drop_last() =~= moves@.subrange(0, i as int));
        }
        let m = moves[i];
        proof {
            assert(legal_move(cells, side, moves@[i as int]));
        }
        match state.board.get(m.from) {
            Some(p) => {
                let ff = file_of(m.from);
                let fr = rank_of(m.from);
                let tf = file_of(m.to);
                let tr = rank_of(m.to);
                let w: u32 = match p.kind {
                    // 中炮 / 当头炮: cannon slides onto the central file. The
                    // single most popular and strongest Xiangqi opening.
                    PieceKind::Cannon => if fr == tr && tf == 4 {
                        50
                    } else {
                        0
                    },
                    // 起马 / 屏风马 component: a back-rank knight steps toward
                    // the centre (马二进三 / 马八进七).
                    PieceKind::Horse => if fr == back && (ff == 1 || ff == 7) && (tf == 2 || tf
                        == 6) {
                        25
                    } else {
                        0
                    },
                    // 飞相 / 飞象: elephant to the central point.
                    PieceKind::Elephant => if tf == 4 {
                        20
                    } else {
                        0
                    },
                    // 兵三/七进一: a flank soldier advances one rank.
                    PieceKind::Soldier => if (ff == 2 || ff == 6) && tr - fr == fwd && tf == ff {
                        10
                    } else {
                        0
                    },
                    _ => 0,
                };
                assert(w == book_weight(cells, side, m));
                if w > 0 {
                    cands.push((m, w));
                }
            },
            None => {
                assert(book_weight(cells, side, m) == 0);
            },
        }
        i = i + 1;
    }
    if cands.len() == 0 {
        proof {
            assert forall|m: Move|
                legal_move(cells, side, m) implies !(#[trigger] book_weight(cells, side, m) > 0) by {
                if book_weight(cells, side, m) > 0 {
                    assert(moves@.contains(m));
                    let k = choose|k: int| 0 <= k < moves@.len() && moves@[k] == m;
                    assert(book_weight(cells, side, moves@[k]) > 0);
                }
            }
        }
        return None;
    }
    proof {
        assert(moves@.subrange(0, moves@.len() as int) =~= moves@);
        assert(legal_listing(cells, side, moves@));
    }
    let m = weighted_pick(&cands, rnd);
    proof {
        let k = choose|k: int| 0 <= k < cands@.len() && (#[trigger] cands@[k]).0 == m;
        assert(legal_move(cells, side, cands@[k].0));
        assert forall|l: Seq<Move>| #[trigger] legal_listing(cells, side, l) implies m
            == weighted_choice(book_cands(cells, side, l), rnd) by {
            lemma_book_cands_unique(cells, side, l, moves@);
        }
    }
    Some(m)
}

} // verus!
