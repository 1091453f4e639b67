//! Warnsdorff's rule: candidate moves are ordered ascending by how many
//! onward legal moves each would have, computed against the board state
//! before the candidate is applied. Ties keep their canonical input order
//! (a stable insertion sort), so the search order is fully deterministic.

use vstd::prelude::*;

use crate::board::Board;
use crate::board::Point;
use crate::board::in_bounds;
use crate::moves::allowed_from;
use crate::moves::allowed_moves;
use crate::moves::offsets_fit;

verus! {

/// The Warnsdorff key of a candidate move: its count of onward legal moves.
pub open spec fn move_key(size: int, vis: Set<Point>, m: Point) -> int {
    allowed_from(size, vis, m).len() as int
}

/// `x` placed into `s` after every element whose key is at most `key(x)`.
pub open spec fn insert_by_key(size: int, vis: Set<Point>, s: Seq<Point>, x: Point) -> Seq<Point>
    decreases s.len(),
{
    if s.len() == 0 {
        seq![x]
    } else if move_key(size, vis, s.first()) <= move_key(size, vis, x) {
        seq![s.first()] + insert_by_key(size, vis, s.drop_first(), x)
    } else {
        seq![x] + s
    }
}

/// `s` stably sorted ascending by the Warnsdorff key: a later element is
/// inserted after every earlier element of equal or smaller key.
pub open spec fn ordered_by_key(size: int, vis: Set<Point>, s: Seq<Point>) -> Seq<Point>
    decreases s.len(),
{
    if s.len() == 0 {
        Seq::empty()
    } else {
        insert_by_key(size, vis, ordered_by_key(size, vis, s.drop_last()), s.last())
    }
}

/// Inserting at the position `j` that first exceeds the key of `x` is exactly
/// what `insert_by_key` computes.
proof fn lemma_insert_by_key_at(size: int, vis: Set<Point>, s: Seq<Point>, x: Point, j: int)
    requires
        0 <= j <= s.len(),
        forall|i: int| 0 <= i < j ==> move_key(size, vis, #[trigger] s[i]) <= move_key(
            size,
            vis,
            x,
        ),
        j < s.len() ==> move_key(size, vis, s[j]) > move_key(size, vis, x),
    ensures
        insert_by_key(size, vis, s, x) == s.insert(j, x),
    decreases j,
{
    if j == 0 {
        if s.len() == 0 {
            assert(insert_by_key(size, vis, s, x) =~= s.insert(0, x));
        } else {
            assert(insert_by_key(size, vis, s, x) == seq![x] + s);
            assert(seq![x] + s =~= s.insert(0, x));
        }
    } else {
        assert(s[0] == s.first());
        lemma_insert_by_key_at(size, vis, s.drop_first(), x, j - 1);
        assert(seq![s.first()] + s.drop_first().insert(j - 1, x) =~= s.insert(j, x));
    }
}

/// Insertion adds `x` and keeps everything that was already there.
proof fn lemma_insert_by_key_membership(size: int, vis: Set<Point>, s: Seq<Point>, x: Point)
    ensures
        forall|q: Point| #[trigger]
            insert_by_key(size, vis, s, x).contains(q) <==> s.contains(q) || q == x,
    decreases s.len(),
{
    let f = insert_by_key(size, vis, s, x);
    if s.len() == 0 {
        assert forall|q: Point| #[trigger] f.contains(q) <==> s.contains(q) || q == x by {
            if f.contains(q) {
                let i = choose|i: int| 0 <= i < f.len() && f[i] == q;
            }
            if q == x {
                assert(f[0] == q);
            }
        }
    } else if move_key(size, vis, s.first()) <= move_key(size, vis, x) {
        lemma_insert_by_key_membership(size, vis, s.drop_first(), x);
        let rest = insert_by_key(size, vis, s.drop_first(), x);
        assert forall|q: Point| #[trigger] f.contains(q) <==> s.contains(q) || q == x by {
            if f.contains(q) {
                let i = choose|i: int| 0 <= i < f.len() && f[i] == q;
                if i == 0 {
                    assert(s[0] == q);
                } else {
                    assert(rest[i - 1] == q);
                    assert(rest.contains(q));
                    if s.drop_first().contains(q) {
                        let j = choose|j: int|
                            0 <= j < s.drop_first().len() && s.drop_first()[j] == q;
                        assert(s[j + 1] == q);
                    }
                }
            }
            if s.contains(q) {
                let i = choose|i: int| 0 <= i < s.len() && s[i] == q;
                if i == 0 {
                    assert(f[0] == q);
                } else {
                    assert(s.drop_first()[i - 1] == q);
                    assert(s.drop_first().contains(q));
                    assert(rest.contains(q));
                    let j = choose|j: int| 0 <= j < rest.len() && rest[j] == q;
                    assert(f[j + 1] == q);
                }
            }
            if q == x {
                assert(rest.contains(q));
                let j = choose|j: int| 0 <= j < rest.len() && rest[j] == q;
                assert(f[j + 1] == q);
            }
        }
    } else {
        assert forall|q: Point| #[trigger] f.contains(q) <==> s.contains(q) || q == x by {
            if f.contains(q) {
                let i = choose|i: int| 0 <= i < f.len() && f[i] == q;
                if i > 0 {
                    assert(s[i - 1] == q);
                }
            }
            if s.contains(q) {
                let i = choose|i: int| 0 <= i < s.len() && s[i] == q;
                assert(f[i + 1] == q);
            }
            if q == x {
                assert(f[0] == q);
            }
        }
    }
}

/// `s` is ascending in the Warnsdorff key.
pub open spec fn sorted_by_key(size: int, vis: Set<Point>, s: Seq<Point>) -> bool {
    forall|i: int, j: int| 0 <= i < j < s.len() ==> move_key(size, vis, #[trigger] s[i])
        <= move_key(size, vis, #[trigger] s[j])
}

/// Insertion at the first position whose key exceeds the new element's key
/// keeps the sequence ascending.
proof fn lemma_insert_by_key_sorted(size: int, vis: Set<Point>, s: Seq<Point>, x: Point)
    requires
        sorted_by_key(size, vis, s),
    ensures
        sorted_by_key(size, vis, insert_by_key(size, vis, s, x)),
    decreases s.len(),
{
    let f = insert_by_key(size, vis, s, x);
    if s.len() == 0 {
    } else if move_key(size, vis, s.first()) <= move_key(size, vis, x) {
        assert forall|i: int, j: int|
            0 <= i < j < s.drop_first().len() implies move_key(
            size,
            vis,
            #[trigger] s.drop_first()[i],
        ) <= move_key(size, vis, #[trigger] s.drop_first()[j]) by {
            assert(s.drop_first()[i] == s[i + 1] && s.drop_first()[j] == s[j + 1]);
        }
        lemma_insert_by_key_sorted(size, vis, s.drop_first(), x);
        lemma_insert_by_key_membership(size, vis, s.drop_first(), x);
        let rest = insert_by_key(size, vis, s.drop_first(), x);
        assert forall|i: int, j: int| 0 <= i < j < f.len() implies move_key(
            size,
            vis,
            #[trigger] f[i],
        ) <= move_key(size, vis, #[trigger] f[j]) by {
            if i == 0 {
                assert(f[0] == s.first());
                assert(f[j] == rest[j - 1]);
                assert(rest.contains(rest[j - 1]));
                if s.drop_first().contains(rest[j - 1]) {
                    let m = choose|m: int|
                        0 <= m < s.drop_first().len() && s.drop_first()[m] == rest[j - 1];
                    assert(s[m + 1] == rest[j - 1]);
                    assert(move_key(size, vis, s[0]) <= move_key(size, vis, s[m + 1]));
                }
            } else {
                assert(f[i] == rest[i - 1] && f[j] == rest[j - 1]);
            }
        }
    } else {
        assert forall|i: int, j: int| 0 <= i < j < f.len() implies move_key(
            size,
            vis,
            #[trigger] f[i],
        ) <= move_key(size, vis, #[trigger] f[j]) by {
            if i == 0 {
                assert(f[0] == x);
                assert(f[j] == s[j - 1]);
                if j > 1 {
                    assert(move_key(size, vis, s[0]) <= move_key(size, vis, s[j - 1]));
                }
            } else {
                assert(f[i] == s[i - 1] && f[j] == s[j - 1]);
            }
        }
    }
}

/// The Warnsdorff ordering is ascending in the key: a candidate with fewer
/// onward moves is always tried before one with more.
pub proof fn lemma_ordered_by_key_sorted(size: int, vis: Set<Point>, s: Seq<Point>)
    ensures
        sorted_by_key(size, vis, ordered_by_key(size, vis, s)),
    decreases s.len(),
{
    if s.len() == 0 {
    } else {
        lemma_ordered_by_key_sorted(size, vis, s.drop_last());
        lemma_insert_by_key_sorted(size, vis, ordered_by_key(size, vis, s.drop_last()), s.last());
    }
}

/// Ordering by key neither adds nor loses candidates.
pub proof fn lemma_ordered_by_key_membership(size: int, vis: Set<Point>, s: Seq<Point>)
    ensures
        forall|q: Point| #[trigger] ordered_by_key(size, vis, s).contains(q) <==> s.contains(q),
    decreases s.len(),
{
    if s.len() == 0 {
    } else {
        lemma_ordered_by_key_membership(size, vis, s.drop_last());
        let rest = ordered_by_key(size, vis, s.drop_last());
        lemma_insert_by_key_membership(size, vis, rest, s.last());
        assert forall|q: Point| #[trigger]
            ordered_by_key(size, vis, s).contains(q) <==> s.contains(q) by {
            if ordered_by_key(size, vis, s).contains(q) {
                if s.drop_last().contains(q) {
                    let j = choose|j: int| 0 <= j < s.drop_last().len() && s.drop_last()[j] == q;
                    assert(s[j] == q);
                } else {
                    assert(q == s.last());
                    assert(s[s.len() - 1] == q);
                }
            }
            if s.contains(q) {
                let i = choose|i: int| 0 <= i < s.len() && s[i] == q;
                if i == s.len() - 1 {
                } else {
                    assert(s.drop_last()[i] == q);
                    assert(s.drop_last().contains(q));
                }
            }
        }
    }
}

/// The number of onward legal moves the candidate `m` would have, against the
/// current board state.
fn move_count(b: &Board, m: &Point) -> (r: usize)
    requires
        b.wf(),
        in_bounds(b.spec_size(), *m),
    ensures
        r as int == move_key(b.spec_size(), b.visited_set(), *m),
{
    proof {
        b.lemma_wf_bounds();
        assert(offsets_fit(*m));
    }
    let onward = allowed_moves(b, m);
    onward.len()
}

/// The first position in `out` whose key exceeds `kx`; `out` is scanned left
/// to right, so equal keys are passed over and stability is preserved.
fn insert_position(b: &Board, out: &Vec<Point>, kx: usize) -> (j: usize)
    requires
        b.wf(),
        forall|i: int| 0 <= i < out@.len() ==> in_bounds(b.spec_size(), #[trigger] out@[i]),
    ensures
        j <= out@.len(),
        forall|i: int| 0 <= i < j ==> move_key(b.spec_size(), b.visited_set(), #[trigger] out@[i])
            <= kx as int,
        j < out@.len() ==> move_key(b.spec_size(), b.visited_set(), out@[j as int]) > kx as int,
{
    let mut j: usize = 0;
    while j < out.len()
        invariant
            b.wf(),
            j <= out@.len(),
            forall|i: int| 0 <= i < out@.len() ==> in_bounds(b.spec_size(), #[trigger] out@[i]),
            forall|i: int| 0 <= i < j ==> move_key(
                b.spec_size(),
                b.visited_set(),
                #[trigger] out@[i],
            ) <= kx as int,
        decreases out@.len() - j,
    {
        let kj = move_count(b, &out[j]);
        if kj > kx {
            return j;
        }
        j += 1;
    }
    j
}

/// Stably sorts the candidate moves ascending by their Warnsdorff key.
pub fn sort_moves(b: &Board, v: &mut Vec<Point>)
    requires
        b.wf(),
        forall|i: int| 0 <= i < old(v)@.len() ==> in_bounds(b.spec_size(), #[trigger] old(v)@[i]),
    ensures
        final(v)@ == ordered_by_key(b.spec_size(), b.visited_set(), old(v)@),
        sorted_by_key(b.spec_size(), b.visited_set(), final(v)@),
{
    proof {
        lemma_ordered_by_key_sorted(b.spec_size(), b.visited_set(), v@);
    }
    let ghost orig = v@;
    let ghost size = b.spec_size();
    let ghost vis = b.visited_set();
    let mut out: Vec<Point> = Vec::new();
    let mut i: usize = 0;
    while i < v.len()
        invariant
            b.wf(),
            size == b.spec_size(),
            vis == b.visited_set(),
            v@ == orig,
            i <= orig.len(),
            forall|k: int| 0 <= k < orig.len() ==> in_bounds(size, #[trigger] orig[k]),
            out@ == ordered_by_key(size, vis, orig.take(i as int)),
            forall|k: int| 0 <= k < out@.len() ==> in_bounds(size, #[trigger] out@[k]),
        decreases orig.len() - i,
    {
        let x = v[i];
        let kx = move_count(b, &x);
        let j = insert_position(b, &out, kx);
        proof {
            lemma_insert_by_key_at(size, vis, out@, x, j as int);
            lemma_insert_by_key_membership(size, vis, out@, x);
        }
        let ghost pre = out@;
        out.insert(j, x);
        proof {
            assert(out@ == insert_by_key(size, vis, pre, x));
            let cur = orig.take(i as int + 1);
            assert(cur.drop_last() =~= orig.take(i as int));
            assert(cur.last() == orig[i as int]);
            assert(out@ == ordered_by_key(size, vis, cur));
            assert forall|k: int| 0 <= k < out@.len() implies in_bounds(
                size,
                #[trigger] out@[k],
            ) by {
                assert(out@.contains(out@[k]));
                if pre.contains(out@[k]) {
                    let m = choose|m: int| 0 <= m < pre.len() && pre[m] == out@[k];
                }
            }
        }
        i += 1;
    }
    proof {
        assert(orig.take(orig.len() as int) =~= orig);
    }
    *v = out;
}

} // verus!
