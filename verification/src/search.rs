//! The backtracking search. `solve` explores candidate moves in Warnsdorff
//! order, depth first, and either returns a complete tour or reports that no
//! tour extends the given path.
//!
//! The contract of `solve` pins its outcome to the mathematical recursion
//! `search_from(size, path)`, a function of the board size and the path
//! alone. Two calls with the same inputs therefore have the same outcome,
//! tour included, and a search can never observe another search's board.
//! On top of that, a returned tour is proved valid (`extends_to_tour`), and
//! `None` is proved to mean that no valid tour extends the path at all.

use vstd::prelude::*;

use crate::board::Board;
use crate::board::Point;
use crate::board::in_bounds;
use crate::board::lemma_square_index_bounds;
use crate::board::lemma_square_index_injective;
use crate::board::square_index;
use crate::moves::allowed_from;
use crate::moves::allowed_moves;
use crate::moves::is_knight_step;
use crate::moves::knight_targets;
use crate::moves::lemma_knight_steps_in_targets;
use crate::moves::lemma_knight_targets_are_steps;
use crate::moves::lemma_legal_filter_membership;
use crate::moves::offsets_fit;
use crate::moves::square_legal;
use crate::order::lemma_ordered_by_key_membership;
use crate::order::ordered_by_key;
use crate::order::sort_moves;
use vstd::seq_lib::seq_to_set_is_finite;
use vstd::set_lib::lemma_int_range;
use vstd::set_lib::lemma_subset_equality;
use vstd::set_lib::set_int_range;

verus! {

/// A self-avoiding chain of knight moves on an N x N board: every square in
/// bounds, no square repeated, consecutive squares a knight step apart.
pub open spec fn partial_tour(size: int, t: Seq<Point>) -> bool {
    &&& forall|i: int| 0 <= i < t.len() ==> in_bounds(size, #[trigger] t[i])
    &&& forall|i: int, j: int| 0 <= i < j < t.len() ==> t[i] != t[j]
    &&& forall|i: int| 1 <= i < t.len() ==> is_knight_step(t[i - 1], #[trigger] t[i])
}

/// `t` is a complete knight's tour of the board that begins with `path`.
pub open spec fn extends_to_tour(size: int, path: Seq<Point>, t: Seq<Point>) -> bool {
    &&& t.len() == size * size
    &&& path.len() <= t.len()
    &&& t.take(path.len() as int) == path
    &&& partial_tour(size, t)
}

/// The outcome of the backtracking search from `path`: the first complete
/// tour found when candidates are tried in Warnsdorff order, or `None` once
/// every candidate is exhausted. A function of `size` and `path` alone.
pub open spec fn search_from(size: int, path: Seq<Point>) -> Option<Seq<Point>>
    decreases size * size - path.len(), 1int, 0int,
{
    if path.len() >= size * size {
        Some(path)
    } else {
        search_candidates(
            size,
            path,
            ordered_by_key(
                size,
                path.to_set(),
                allowed_from(size, path.to_set(), path.last()),
            ),
            0,
        )
    }
}

/// Tries the candidates `moves[k..]` in order, committing to the first one
/// whose recursive search succeeds.
pub open spec fn search_candidates(size: int, path: Seq<Point>, moves: Seq<Point>, k: int) -> Option<
    Seq<Point>,
>
    decreases size * size - path.len(), 0int, moves.len() - k,
{
    if path.len() >= size * size || k >= moves.len() {
        None
    } else {
        match search_from(size, path.push(moves[k])) {
            Some(t) => Some(t),
            None => search_candidates(size, path, moves, k + 1),
        }
    }
}

/// An independent copy of a list of squares.
fn copy_points(v: &Vec<Point>) -> (r: Vec<Point>)
    ensures
        r@ == v@,
{
    let mut r: Vec<Point> = Vec::new();
    let mut i: usize = 0;
    while i < v.len()
        invariant
            i <= v@.len(),
            r@ == v@.take(i as int),
        decreases v@.len() - i,
    {
        r.push(v[i]);
        proof {
            assert(v@.take(i as int + 1) =~= v@.take(i as int).push(v@[i as int]));
        }
        i += 1;
    }
    proof {
        assert(v@.take(v@.len() as int) =~= v@);
    }
    r
}

/// Appending a square to a path inserts it into the path's square set.
proof fn lemma_push_to_set(path: Seq<Point>, m: Point)
    ensures
        path.push(m).to_set() == path.to_set().insert(m),
{
    assert forall|q: Point|
        path.push(m).to_set().contains(q) == path.to_set().insert(m).contains(q) by {
        if path.push(m).contains(q) {
            let i = choose|i: int| 0 <= i < path.push(m).len() && path.push(m)[i] == q;
            if i < path.len() {
                assert(path[i] == q);
            }
        }
        if path.contains(q) {
            let i = choose|i: int| 0 <= i < path.len() && path[i] == q;
            assert(path.push(m)[i] == q);
        }
        if q == m {
            assert(path.push(m)[path.len() as int] == q);
        }
    }
    assert(path.push(m).to_set() =~= path.to_set().insert(m));
}

/// Exhaustive depth-first search with Warnsdorff ordering and backtracking.
///
/// Requires a well-formed board whose visited squares are exactly the squares
/// of `path`, a nonempty self-avoiding `path` of knight moves. Returns the
/// outcome `search_from` prescribes: `Some` carries a complete valid tour
/// beginning with `path`; `None` means no valid tour extends `path`.
pub fn solve(board: &Board, path: &Vec<Point>) -> (r: Option<Vec<Point>>)
    requires
        board.wf(),
        1 <= path@.len(),
        path@.len() <= board.spec_size() * board.spec_size(),
        partial_tour(board.spec_size(), path@),
        board.visited_set() == path@.to_set(),
    ensures
        (r matches Some(t) ==> search_from(board.spec_size(), path@) == Some(t@)
            && extends_to_tour(board.spec_size(), path@, t@)),
        (r is None ==> search_from(board.spec_size(), path@) is None && forall|t: Seq<Point>|
            !extends_to_tour(board.spec_size(), path@, t)),
    decreases board.spec_size() * board.spec_size() - path@.len(),
{
    let ghost size = board.spec_size();
    proof {
        board.lemma_wf_bounds();
    }
    let n = board.size();
    if path.len() >= n * n {
        let r = copy_points(path);
        proof {
            assert(path@.take(path@.len() as int) =~= path@);
            assert(extends_to_tour(size, path@, path@));
            assert(search_from(size, path@) == Some(path@));
        }
        return Some(r);
    }
    let last = path[path.len() - 1];
    let ghost vis = board.visited_set();
    proof {
        assert(last == path@[path@.len() - 1]);
        assert(in_bounds(size, path@[path@.len() - 1]));
        assert(offsets_fit(last));
    }
    let mut moves = allowed_moves(board, &last);
    let ghost allowed = allowed_from(size, vis, last);
    proof {
        lemma_legal_filter_membership(size, vis, knight_targets(last));
        assert forall|i: int| 0 <= i < moves@.len() implies in_bounds(
            size,
            #[trigger] moves@[i],
        ) by {
            assert(moves@.contains(moves@[i]));
        }
    }
    sort_moves(board, &mut moves);
    let ghost smoves = ordered_by_key(size, vis, allowed);
    proof {
        assert(moves@ == smoves);
        assert(search_from(size, path@) == search_candidates(size, path@, smoves, 0));
    }
    let mut k: usize = 0;
    while k < moves.len()
        invariant
            board.wf(),
            size == board.spec_size(),
            vis == board.visited_set(),
            vis == path@.to_set(),
            1 <= path@.len(),
            path@.len() < size * size,
            partial_tour(size, path@),
            allowed == allowed_from(size, vis, path@[path@.len() - 1]),
            smoves == ordered_by_key(size, vis, allowed),
            moves@ == smoves,
            k <= smoves.len(),
            search_candidates(size, path@, smoves, k as int) == search_from(size, path@),
            forall|t: Seq<Point>, j: int|
                #![trigger extends_to_tour(size, path@, t), smoves[j]]
                extends_to_tour(size, path@, t) && 0 <= j < k as int ==> t[path@.len() as int]
                    != smoves[j],
        decreases smoves.len() - k,
    {
        let m = moves[k];
        proof {
            board.lemma_wf_bounds();
            let plast = path@[path@.len() - 1];
            assert(in_bounds(size, plast));
            assert(offsets_fit(plast));
            assert(smoves[k as int] == m);
            assert(smoves.contains(m));
            lemma_ordered_by_key_membership(size, vis, allowed);
            assert(allowed.contains(m));
            lemma_legal_filter_membership(size, vis, knight_targets(plast));
            assert(knight_targets(plast).contains(m) && square_legal(size, vis, m));
            lemma_knight_targets_are_steps(plast);
            assert(is_knight_step(plast, m));
        }
        let mut new_path = copy_points(path);
        new_path.push(m);
        let mut new_board = board.duplicate();
        new_board.visit(&m);
        proof {
            assert(new_path@ == path@.push(m));
            lemma_push_to_set(path@, m);
            assert(new_board.visited_set() == new_path@.to_set());
            let np = new_path@;
            assert forall|i: int| 0 <= i < np.len() implies in_bounds(size, #[trigger] np[i]) by {
                if i < path@.len() {
                    assert(np[i] == path@[i]);
                } else {
                    assert(np[i] == m);
                }
            }
            assert forall|i: int, j: int| 0 <= i < j < np.len() implies np[i] != np[j] by {
                if j < path@.len() {
                    assert(np[i] == path@[i] && np[j] == path@[j]);
                } else {
                    assert(np[j] == m);
                    assert(np[i] == path@[i]);
                    assert(path@.contains(path@[i]));
                    assert(!vis.contains(m));
                }
            }
            assert forall|i: int| 1 <= i < np.len() implies is_knight_step(
                np[i - 1],
                #[trigger] np[i],
            ) by {
                if i < path@.len() {
                    assert(np[i] == path@[i] && np[i - 1] == path@[i - 1]);
                } else {
                    assert(np[i] == m && np[i - 1] == path@[path@.len() - 1]);
                }
            }
            assert(partial_tour(size, np));
        }
        let res = solve(&new_board, &new_path);
        match res {
            Some(t) => {
                proof {
                    assert(search_from(size, new_path@) == Some(t@));
                    assert(search_candidates(size, path@, smoves, k as int) == Some(t@));
                    assert(search_from(size, path@) == Some(t@));
                    assert(extends_to_tour(size, new_path@, t@));
                    assert forall|i: int| 0 <= i < path@.len() implies t@.take(
                        path@.len() as int,
                    )[i] == path@[i] by {
                        assert(t@.take(new_path@.len() as int)[i] == t@[i]);
                        assert(new_path@[i] == path@[i]);
                    }
                    assert(t@.take(path@.len() as int) =~= path@);
                    assert(extends_to_tour(size, path@, t@));
                }
                return Some(t);
            },
            None => {},
        }
        proof {
            assert(search_from(size, new_path@) is None);
            assert(search_candidates(size, path@, smoves, k as int) == search_candidates(
                size,
                path@,
                smoves,
                k as int + 1,
            ));
            assert forall|t: Seq<Point>, j: int|
                #![trigger extends_to_tour(size, path@, t), smoves[j]]
                extends_to_tour(size, path@, t) && 0 <= j < (k + 1) as int implies t[path@.len() as int]
                != smoves[j] by {
                assert(extends_to_tour(size, path@, t));
                if j == k as int {
                    if t[path@.len() as int] == smoves[j] {
                        let pl = path@.len() as int;
                        assert(pl < t.len());
                        assert forall|i: int| 0 <= i < new_path@.len() implies t.take(
                            new_path@.len() as int,
                        )[i] == new_path@[i] by {
                            if i < pl {
                                assert(t.take(pl)[i] == t[i]);
                                assert(new_path@[i] == path@[i]);
                            } else {
                                assert(t[pl] == m);
                                assert(new_path@[i] == m);
                            }
                        }
                        assert(t.take(new_path@.len() as int) =~= new_path@);
                        assert(extends_to_tour(size, new_path@, t));
                        assert(false);
                    }
                }
            }
        }
        k += 1;
    }
    proof {
        assert(k as int == smoves.len());
        assert(search_candidates(size, path@, smoves, k as int) is None);
        assert(search_from(size, path@) is None);
        assert forall|t: Seq<Point>| !extends_to_tour(size, path@, t) by {
            if extends_to_tour(size, path@, t) {
                let pl = path@.len() as int;
                let q = t[pl];
                assert(in_bounds(size, t[pl]));
                assert(t.take(pl)[pl - 1] == t[pl - 1]);
                assert(t[pl - 1] == path@[pl - 1]);
                assert(is_knight_step(t[pl - 1], t[pl]));
                assert(!path@.contains(q)) by {
                    if path@.contains(q) {
                        let i = choose|i: int| 0 <= i < path@.len() && path@[i] == q;
                        assert(t.take(pl)[i] == t[i]);
                        assert(t[i] == q);
                        assert(t[i] != t[pl]);
                    }
                }
                let plast = path@[pl - 1];
                assert(in_bounds(size, plast));
                assert(offsets_fit(plast));
                lemma_knight_steps_in_targets(plast, q);
                lemma_legal_filter_membership(size, vis, knight_targets(plast));
                assert(square_legal(size, vis, q));
                assert(allowed.contains(q));
                lemma_ordered_by_key_membership(size, vis, allowed);
                assert(smoves.contains(q));
                let j = choose|j: int| 0 <= j < smoves.len() && smoves[j] == q;
                assert(t[pl] != smoves[j]);
                assert(false);
            }
        }
    }
    None
}

/// A complete tour visits every square of the board: a self-avoiding chain of
/// N * N in-bounds squares can omit none of the N * N squares.
pub proof fn lemma_tour_covers_board(size: int, t: Seq<Point>)
    requires
        0 < size,
        t.len() == size * size,
        partial_tour(size, t),
    ensures
        forall|q: Point| in_bounds(size, q) ==> #[trigger] t.contains(q),
{
    broadcast use seq_to_set_is_finite;

    let f = |q: Point| square_index(size, q);
    let s = t.map_values(f);
    assert forall|i: int, j: int|
        0 <= i < s.len() && 0 <= j < s.len() && i != j implies s[i] != s[j] by {
        assert(s[i] == square_index(size, t[i]));
        assert(s[j] == square_index(size, t[j]));
        assert(t[i] != t[j]);
        if square_index(size, t[i]) == square_index(size, t[j]) {
            lemma_square_index_injective(size, t[i], t[j]);
        }
    }
    assert(s.no_duplicates());
    s.unique_seq_to_set();
    assert(0 <= size * size) by (nonlinear_arith)
        requires
            0 < size,
    ;
    lemma_int_range(0, size * size);
    assert forall|x: int| s.to_set().contains(x) implies set_int_range(0, size * size).contains(
        x,
    ) by {
        let i = choose|i: int| 0 <= i < s.len() && s[i] == x;
        lemma_square_index_bounds(size, t[i]);
    }
    assert(s.to_set().subset_of(set_int_range(0, size * size)));
    lemma_subset_equality(s.to_set(), set_int_range(0, size * size));
    assert forall|q: Point| in_bounds(size, q) implies #[trigger] t.contains(q) by {
        lemma_square_index_bounds(size, q);
        let x = square_index(size, q);
        assert(set_int_range(0, size * size).contains(x));
        assert(s.to_set().contains(x));
        assert(s.contains(x));
        let i = choose|i: int| 0 <= i < s.len() && s[i] == x;
        assert(square_index(size, t[i]) == x);
        lemma_square_index_injective(size, t[i], q);
        assert(t[i] == q);
    }
}

} // verus!
