//! Move generation: the eight knight offsets in a fixed canonical order, and
//! the legality filter that keeps only in-bounds, unvisited targets.

use vstd::prelude::*;

use crate::board::Board;
use crate::board::Point;
use crate::board::in_bounds;

verus! {

/// The coordinates of `p` are at least two steps away from the `i32` limits,
/// so every knight offset from `p` can be computed without overflow.
pub open spec fn offsets_fit(p: Point) -> bool {
    &&& i32::MIN + 2 <= p.0 as int
    &&& p.0 as int <= i32::MAX - 2
    &&& i32::MIN + 2 <= p.1 as int
    &&& p.1 as int <= i32::MAX - 2
}

/// The eight knight targets of `p`, in canonical enumeration order.
pub open spec fn knight_targets(p: Point) -> Seq<Point> {
    seq![
        ((p.0 + 1) as i32, (p.1 + 2) as i32),
        ((p.0 + 2) as i32, (p.1 + 1) as i32),
        ((p.0 + 2) as i32, (p.1 - 1) as i32),
        ((p.0 + 1) as i32, (p.1 - 2) as i32),
        ((p.0 - 1) as i32, (p.1 - 2) as i32),
        ((p.0 - 2) as i32, (p.1 - 1) as i32),
        ((p.0 - 2) as i32, (p.1 + 1) as i32),
        ((p.0 - 1) as i32, (p.1 + 2) as i32),
    ]
}

/// One coordinate differs by 1 and the other by 2: a legal knight move.
pub open spec fn is_knight_step(a: Point, b: Point) -> bool {
    let dx = if a.0 as int <= b.0 as int {
        b.0 as int - a.0 as int
    } else {
        a.0 as int - b.0 as int
    };
    let dy = if a.1 as int <= b.1 as int {
        b.1 as int - a.1 as int
    } else {
        a.1 as int - b.1 as int
    };
    (dx == 1 && dy == 2) || (dx == 2 && dy == 1)
}

/// Every enumerated knight target is a legal knight step from `p`.
pub proof fn lemma_knight_targets_are_steps(p: Point)
    requires
        offsets_fit(p),
    ensures
        forall|q: Point| #[trigger] knight_targets(p).contains(q) ==> is_knight_step(p, q),
{
    let s = knight_targets(p);
    assert forall|q: Point| #[trigger] s.contains(q) implies is_knight_step(p, q) by {
        let i = choose|i: int| 0 <= i < s.len() && s[i] == q;
        assert(is_knight_step(p, s[0]));
        assert(is_knight_step(p, s[1]));
        assert(is_knight_step(p, s[2]));
        assert(is_knight_step(p, s[3]));
        assert(is_knight_step(p, s[4]));
        assert(is_knight_step(p, s[5]));
        assert(is_knight_step(p, s[6]));
        assert(is_knight_step(p, s[7]));
    }
}

/// Conversely, every legal knight step from `p` appears among its targets.
pub proof fn lemma_knight_steps_in_targets(p: Point, q: Point)
    requires
        offsets_fit(p),
        is_knight_step(p, q),
    ensures
        knight_targets(p).contains(q),
{
    let s = knight_targets(p);
    if q.0 as int == p.0 + 1 && q.1 as int == p.1 + 2 {
        assert(s[0] == q);
    } else if q.0 as int == p.0 + 2 && q.1 as int == p.1 + 1 {
        assert(s[1] == q);
    } else if q.0 as int == p.0 + 2 && q.1 as int == p.1 - 1 {
        assert(s[2] == q);
    } else if q.0 as int == p.0 + 1 && q.1 as int == p.1 - 2 {
        assert(s[3] == q);
    } else if q.0 as int == p.0 - 1 && q.1 as int == p.1 - 2 {
        assert(s[4] == q);
    } else if q.0 as int == p.0 - 2 && q.1 as int == p.1 - 1 {
        assert(s[5] == q);
    } else if q.0 as int == p.0 - 2 && q.1 as int == p.1 + 1 {
        assert(s[6] == q);
    } else {
        assert(q.0 as int == p.0 - 1 && q.1 as int == p.1 + 2);
        assert(s[7] == q);
    }
}

/// A candidate square the solver may move to: on the board and not yet visited.
pub open spec fn square_legal(size: int, vis: Set<Point>, q: Point) -> bool {
    in_bounds(size, q) && !vis.contains(q)
}

/// The subsequence of `s` whose squares are legal, in the order of `s`.
pub open spec fn legal_filter(size: int, vis: Set<Point>, s: Seq<Point>) -> Seq<Point>
    decreases s.len(),
{
    if s.len() == 0 {
        Seq::empty()
    } else {
        let rest = legal_filter(size, vis, s.drop_last());
        if square_legal(size, vis, s.last()) {
            rest.push(s.last())
        } else {
            rest
        }
    }
}

/// The legal knight moves out of `from`, in canonical order.
pub open spec fn allowed_from(size: int, vis: Set<Point>, from: Point) -> Seq<Point> {
    legal_filter(size, vis, knight_targets(from))
}

/// A square passes the legality filter iff it occurs in the input and is legal.
pub proof fn lemma_legal_filter_membership(size: int, vis: Set<Point>, s: Seq<Point>)
    ensures
        forall|q: Point| #[trigger]
            legal_filter(size, vis, s).contains(q) <==> s.contains(q) && square_legal(
                size,
                vis,
                q,
            ),
    decreases s.len(),
{
    if s.len() == 0 {
    } else {
        lemma_legal_filter_membership(size, vis, s.drop_last());
        let f = legal_filter(size, vis, s);
        let rest = legal_filter(size, vis, s.drop_last());
        assert forall|q: Point| #[trigger]
            f.contains(q) <==> s.contains(q) && square_legal(size, vis, q) by {
            if f.contains(q) {
                let i = choose|i: int| 0 <= i < f.len() && f[i] == q;
                if square_legal(size, vis, s.last()) && i == f.len() - 1 {
                    assert(s.contains(s.last()));
                } else {
                    assert(rest.contains(q));
                    assert(s.drop_last().contains(q));
                    let j = choose|j: int| 0 <= j < s.drop_last().len() && s.drop_last()[j] == q;
                    assert(s[j] == q);
                }
            }
            if s.contains(q) && square_legal(size, vis, q) {
                let i = choose|i: int| 0 <= i < s.len() && s[i] == q;
                if i == s.len() - 1 {
                    assert(f[f.len() - 1] == q);
                } else {
                    assert(s.drop_last()[i] == q);
                    assert(s.drop_last().contains(q));
                    assert(rest.contains(q));
                    let j = choose|j: int| 0 <= j < rest.len() && rest[j] == q;
                    assert(f[j] == q);
                }
            }
        }
    }
}

/// A square all of whose knight targets are already visited has no legal move.
pub proof fn lemma_allowed_empty_when_surrounded(size: int, vis: Set<Point>, from: Point)
    requires
        forall|q: Point| #[trigger] knight_targets(from).contains(q) ==> vis.contains(q),
    ensures
        allowed_from(size, vis, from).len() == 0,
{
    lemma_legal_filter_membership(size, vis, knight_targets(from));
    let a = allowed_from(size, vis, from);
    if a.len() > 0 {
        assert(a.contains(a[0]));
    }
}

/// From any corner of an empty board of size at least 5, exactly two of the
/// eight knight targets are legal: the two that point inward.
pub proof fn lemma_corner_has_two_moves(size: int)
    requires
        5 <= size,
        size + 2 <= i32::MAX as int,
    ensures
        allowed_from(size, Set::empty(), (0, 0)) =~= seq![(1i32, 2i32), (2i32, 1i32)],
        allowed_from(size, Set::empty(), (0, (size - 1) as i32)).len() == 2,
        allowed_from(size, Set::empty(), ((size - 1) as i32, 0)).len() == 2,
        allowed_from(size, Set::empty(), ((size - 1) as i32, (size - 1) as i32)).len() == 2,
{
    let vis = Set::<Point>::empty();
    let m = (size - 1) as i32;
    reveal_with_fuel(legal_filter, 9);
    {
        let s = knight_targets((0, 0));
        let s2 = s.drop_last();
        let s3 = s2.drop_last();
        let s4 = s3.drop_last();
        let s5 = s4.drop_last();
        let s6 = s5.drop_last();
        let s7 = s6.drop_last();
        let s8 = s7.drop_last();
        assert(s8 =~= seq![(1i32, 2i32)]);
        assert(s8.drop_last() =~= Seq::<Point>::empty());
        assert(legal_filter(size, vis, s8) =~= seq![(1i32, 2i32)]);
        assert(legal_filter(size, vis, s7) =~= seq![(1i32, 2i32), (2i32, 1i32)]);
        assert(!square_legal(size, vis, s6.last()) && !square_legal(size, vis, s5.last())
            && !square_legal(size, vis, s4.last()) && !square_legal(size, vis, s3.last())
            && !square_legal(size, vis, s2.last()) && !square_legal(size, vis, s.last()));
        assert(legal_filter(size, vis, s) =~= seq![(1i32, 2i32), (2i32, 1i32)]);
    }
    {
        let s = knight_targets((0, m));
        let s2 = s.drop_last();
        let s3 = s2.drop_last();
        let s4 = s3.drop_last();
        let s5 = s4.drop_last();
        let s6 = s5.drop_last();
        let s7 = s6.drop_last();
        let s8 = s7.drop_last();
        assert(s8 =~= seq![s[0]]);
        assert(s8.drop_last() =~= Seq::<Point>::empty());
        assert(!square_legal(size, vis, s[0]) && !square_legal(size, vis, s7.last()));
        assert(legal_filter(size, vis, s7) =~= Seq::<Point>::empty());
        assert(square_legal(size, vis, s6.last()) && square_legal(size, vis, s5.last()));
        assert(legal_filter(size, vis, s5) =~= seq![s[2], s[3]]);
        assert(!square_legal(size, vis, s4.last()) && !square_legal(size, vis, s3.last())
            && !square_legal(size, vis, s2.last()) && !square_legal(size, vis, s.last()));
        assert(legal_filter(size, vis, s) =~= seq![s[2], s[3]]);
    }
    {
        let s = knight_targets((m, 0));
        let s2 = s.drop_last();
        let s3 = s2.drop_last();
        let s4 = s3.drop_last();
        let s5 = s4.drop_last();
        let s6 = s5.drop_last();
        let s7 = s6.drop_last();
        let s8 = s7.drop_last();
        assert(s8 =~= seq![s[0]]);
        assert(s8.drop_last() =~= Seq::<Point>::empty());
        assert(!square_legal(size, vis, s[0]) && !square_legal(size, vis, s7.last())
            && !square_legal(size, vis, s6.last()) && !square_legal(size, vis, s5.last())
            && !square_legal(size, vis, s4.last()) && !square_legal(size, vis, s3.last()));
        assert(legal_filter(size, vis, s3) =~= Seq::<Point>::empty());
        assert(square_legal(size, vis, s2.last()) && square_legal(size, vis, s.last()));
        assert(legal_filter(size, vis, s) =~= seq![s[6], s[7]]);
    }
    {
        let s = knight_targets((m, m));
        let s2 = s.drop_last();
        let s3 = s2.drop_last();
        let s4 = s3.drop_last();
        let s5 = s4.drop_last();
        let s6 = s5.drop_last();
        let s7 = s6.drop_last();
        let s8 = s7.drop_last();
        assert(s8 =~= seq![s[0]]);
        assert(s8.drop_last() =~= Seq::<Point>::empty());
        assert(!square_legal(size, vis, s[0]) && !square_legal(size, vis, s7.last())
            && !square_legal(size, vis, s6.last()) && !square_legal(size, vis, s5.last()));
        assert(legal_filter(size, vis, s5) =~= Seq::<Point>::empty());
        assert(square_legal(size, vis, s4.last()) && square_legal(size, vis, s3.last()));
        assert(legal_filter(size, vis, s3) =~= seq![s[4], s[5]]);
        assert(!square_legal(size, vis, s2.last()) && !square_legal(size, vis, s.last()));
        assert(legal_filter(size, vis, s) =~= seq![s[4], s[5]]);
    }
}

/// The eight knight moves out of `p`, in canonical order, without any
/// filtering for board edges.
pub fn knight_moves(p: &Point) -> (r: Vec<Point>)
    requires
        offsets_fit(*p),
    ensures
        r@ == knight_targets(*p),
        r@.len() == 8,
{
    let (x, y) = *p;
    let mut r: Vec<Point> = Vec::new();
    r.push((x + 1, y + 2));
    r.push((x + 2, y + 1));
    r.push((x + 2, y - 1));
    r.push((x + 1, y - 2));
    r.push((x - 1, y - 2));
    r.push((x - 2, y - 1));
    r.push((x - 2, y + 1));
    r.push((x - 1, y + 2));
    proof {
        assert(r@ =~= knight_targets(*p));
    }
    r
}

/// The knight moves out of `from` that land on the board and on an unvisited
/// square, in canonical order.
pub fn allowed_moves(b: &Board, from: &Point) -> (r: Vec<Point>)
    requires
        b.wf(),
        offsets_fit(*from),
    ensures
        r@ == allowed_from(b.spec_size(), b.visited_set(), *from),
{
    let size = b.size();
    let km = knight_moves(from);
    let mut r: Vec<Point> = Vec::new();
    let mut i: usize = 0;
    while i < km.len()
        invariant
            b.wf(),
            size as int == b.spec_size(),
            km@ == knight_targets(*from),
            i <= km@.len(),
            r@ == legal_filter(b.spec_size(), b.visited_set(), km@.take(i as int)),
        decreases km@.len() - i,
    {
        let q = km[i];
        if q.0 >= 0 && (q.0 as usize) < size && q.1 >= 0 && (q.1 as usize) < size {
            if !b.visited(&q) {
                r.push(q);
            }
        }
        proof {
            let pre = km@.take(i as int);
            let cur = km@.take(i as int + 1);
            assert(cur.drop_last() =~= pre);
            assert(cur.last() == km@[i as int]);
        }
        i += 1;
    }
    proof {
        assert(km@.take(km@.len() as int) =~= km@);
    }
    r
}

} // verus!
