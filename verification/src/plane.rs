//! Cells of the plane in signed coordinates: quarter turns, shifts and anchored forms.
//!
//! Stored shapes hold non-negative offsets. A quarter turn about the origin leaves that
//! range, so the model of every operation is stated over signed points, and a stored
//! sequence is read through [`points`].

use vstd::prelude::*;

verus! {

/// The signed point that a stored coordinate pair stands for.
pub open spec fn point_of(c: (usize, usize)) -> (int, int) {
    (c.0 as int, c.1 as int)
}

/// The signed points of a stored coordinate sequence, in the same order.
pub open spec fn points(s: Seq<(usize, usize)>) -> Seq<(int, int)> {
    Seq::new(s.len(), |i: int| point_of(s[i]))
}

/// A quarter turn clockwise about the origin.
pub open spec fn quarter_turn(p: (int, int)) -> (int, int) {
    (p.1, -p.0)
}

/// Every point of `s` after a quarter turn clockwise about the origin.
pub open spec fn turned(s: Seq<(int, int)>) -> Seq<(int, int)> {
    Seq::new(s.len(), |i: int| quarter_turn(s[i]))
}

/// `s` after `times` quarter turns clockwise about the origin.
pub open spec fn turned_by(s: Seq<(int, int)>, times: nat) -> Seq<(int, int)>
    decreases times,
{
    if times == 0 {
        s
    } else {
        turned(turned_by(s, (times - 1) as nat))
    }
}

/// Every point of `s` moved by `(dx, dy)`.
pub open spec fn shifted(s: Seq<(int, int)>, dx: int, dy: int) -> Seq<(int, int)> {
    Seq::new(s.len(), |i: int| (s[i].0 + dx, s[i].1 + dy))
}

/// The columns of the points of `s`.
pub open spec fn xs(s: Seq<(int, int)>) -> Seq<int> {
    Seq::new(s.len(), |i: int| s[i].0)
}

/// The rows of the points of `s`.
pub open spec fn ys(s: Seq<(int, int)>) -> Seq<int> {
    Seq::new(s.len(), |i: int| s[i].1)
}

/// `m` occurs in `v` and nothing in `v` is below it.
pub open spec fn is_least(v: Seq<int>, m: int) -> bool {
    &&& exists|i: int| 0 <= i < v.len() && v[i] == m
    &&& forall|i: int| 0 <= i < v.len() ==> m <= v[i]
}

/// `m` occurs in `v` and nothing in `v` is above it.
pub open spec fn is_greatest(v: Seq<int>, m: int) -> bool {
    &&& exists|i: int| 0 <= i < v.len() && v[i] == m
    &&& forall|i: int| 0 <= i < v.len() ==> v[i] <= m
}

/// The least value of a non-empty `v`.
pub open spec fn least(v: Seq<int>) -> int {
    choose|m: int| is_least(v, m)
}

/// The least column of a non-empty `s`.
pub open spec fn min_x(s: Seq<(int, int)>) -> int {
    least(xs(s))
}

/// The least row of a non-empty `s`.
pub open spec fn min_y(s: Seq<(int, int)>) -> int {
    least(ys(s))
}

/// `s` moved so that its least column and its least row are both zero.
pub open spec fn anchored(s: Seq<(int, int)>) -> Seq<(int, int)> {
    shifted(s, -min_x(s), -min_y(s))
}

/// `s` after a quarter turn clockwise, moved back to non-negative offsets.
pub open spec fn rotated(s: Seq<(int, int)>) -> Seq<(int, int)> {
    anchored(turned(s))
}

/// `s` after `times` applications of [`rotated`].
pub open spec fn rotated_by(s: Seq<(int, int)>, times: nat) -> Seq<(int, int)>
    decreases times,
{
    if times == 0 {
        s
    } else {
        rotated(rotated_by(s, (times - 1) as nat))
    }
}

/// Two stored sequences that stand for the same points are the same sequence.
pub proof fn lemma_points_injective(a: Seq<(usize, usize)>, b: Seq<(usize, usize)>)
    requires
        points(a) == points(b),
    ensures
        a == b,
{
    assert(a.len() == points(a).len());
    assert(b.len() == points(b).len());
    assert forall|i: int| 0 <= i < a.len() implies a[i] == b[i] by {
        assert(points(a)[i] == point_of(a[i]));
        assert(points(b)[i] == point_of(b[i]));
    }
    assert(a =~= b);
}

/// A non-empty sequence of integers has a least value.
pub proof fn lemma_least_exists(v: Seq<int>)
    requires
        v.len() > 0,
    ensures
        is_least(v, least(v)),
    decreases v.len(),
{
    if v.len() == 1 {
        assert(v[0] == v[0]);
        assert(is_least(v, v[0]));
    } else {
        let w = v.drop_last();
        lemma_least_exists(w);
        let below = least(w);
        let at = choose|i: int| 0 <= i < w.len() && w[i] == below;
        assert(v[at] == w[at]);
        let m = if v.last() < below {
            v.last()
        } else {
            below
        };
        let k = if v.last() < below {
            v.len() - 1
        } else {
            at
        };
        assert(0 <= k < v.len() && v[k] == m);
        assert forall|i: int| 0 <= i < v.len() implies m <= v[i] by {
            if i < w.len() {
                assert(w[i] == v[i]);
            }
        }
        assert(is_least(v, m));
    }
}

/// The least value is the only one that occurs and has nothing below it.
pub proof fn lemma_least_unique(v: Seq<int>, m: int)
    requires
        is_least(v, m),
    ensures
        least(v) == m,
{
    let l = least(v);
    assert(is_least(v, l));
}

/// The least column and the least row of a non-empty shape occur in it and have nothing
/// below them.
pub proof fn lemma_min_attained(s: Seq<(int, int)>)
    requires
        s.len() > 0,
    ensures
        is_least(xs(s), min_x(s)),
        is_least(ys(s), min_y(s)),
{
    lemma_least_exists(xs(s));
    lemma_least_exists(ys(s));
}

/// Moving every point moves the least column and the least row by as much.
pub proof fn lemma_min_of_shifted(s: Seq<(int, int)>, dx: int, dy: int)
    requires
        s.len() > 0,
    ensures
        min_x(shifted(s, dx, dy)) == min_x(s) + dx,
        min_y(shifted(s, dx, dy)) == min_y(s) + dy,
{
    let t = shifted(s, dx, dy);
    lemma_least_exists(xs(s));
    lemma_least_exists(ys(s));
    let i = choose|i: int| 0 <= i < xs(s).len() && xs(s)[i] == min_x(s);
    assert(xs(t)[i] == min_x(s) + dx);
    assert forall|k: int| 0 <= k < xs(t).len() implies min_x(s) + dx <= xs(t)[k] by {
        assert(xs(s)[k] == s[k].0);
    }
    lemma_least_unique(xs(t), min_x(s) + dx);
    let j = choose|j: int| 0 <= j < ys(s).len() && ys(s)[j] == min_y(s);
    assert(ys(t)[j] == min_y(s) + dy);
    assert forall|k: int| 0 <= k < ys(t).len() implies min_y(s) + dy <= ys(t)[k] by {
        assert(ys(s)[k] == s[k].1);
    }
    lemma_least_unique(ys(t), min_y(s) + dy);
}

/// The anchored form does not depend on where the shape lies.
pub proof fn lemma_anchored_of_shifted(s: Seq<(int, int)>, dx: int, dy: int)
    ensures
        anchored(shifted(s, dx, dy)) == anchored(s),
{
    if s.len() > 0 {
        lemma_min_of_shifted(s, dx, dy);
    }
    assert(anchored(shifted(s, dx, dy)) =~= anchored(s));
}

/// In an anchored form the least column and the least row are zero, and no offset is
/// negative.
pub proof fn lemma_anchored_is_anchored(s: Seq<(int, int)>)
    requires
        s.len() > 0,
    ensures
        min_x(anchored(s)) == 0,
        min_y(anchored(s)) == 0,
        forall|i: int| 0 <= i < s.len() ==> anchored(s)[i].0 >= 0 && anchored(s)[i].1 >= 0,
{
    lemma_min_of_shifted(s, -min_x(s), -min_y(s));
    lemma_least_exists(xs(s));
    lemma_least_exists(ys(s));
    assert forall|i: int| 0 <= i < s.len() implies anchored(s)[i].0 >= 0 && anchored(s)[i].1
        >= 0 by {
        assert(xs(s)[i] == s[i].0);
        assert(ys(s)[i] == s[i].1);
    }
}

/// Anchoring twice is anchoring once.
pub proof fn lemma_anchored_idempotent(s: Seq<(int, int)>)
    ensures
        anchored(anchored(s)) == anchored(s),
{
    lemma_anchored_of_shifted(s, -min_x(s), -min_y(s));
}

/// A quarter turn of a moved shape is the quarter turn of the shape, moved.
pub proof fn lemma_turned_of_shifted(s: Seq<(int, int)>, dx: int, dy: int)
    ensures
        turned(shifted(s, dx, dy)) == shifted(turned(s), dy, -dx),
{
    assert(turned(shifted(s, dx, dy)) =~= shifted(turned(s), dy, -dx));
}

/// Shapes with the same anchored form have the same anchored form after a quarter turn.
pub proof fn lemma_rotated_of_same_anchor(a: Seq<(int, int)>, b: Seq<(int, int)>)
    requires
        anchored(a) == anchored(b),
    ensures
        rotated(a) == rotated(b),
{
    let base = anchored(a);
    assert(a =~= shifted(base, min_x(a), min_y(a)));
    assert(b =~= shifted(base, min_x(b), min_y(b)));
    lemma_turned_of_shifted(base, min_x(a), min_y(a));
    lemma_turned_of_shifted(base, min_x(b), min_y(b));
    lemma_anchored_of_shifted(turned(base), min_y(a), -min_x(a));
    lemma_anchored_of_shifted(turned(base), min_y(b), -min_x(b));
}

/// Four quarter turns about the origin bring every point back.
pub proof fn lemma_four_turns(s: Seq<(int, int)>)
    ensures
        turned(turned(turned(turned(s)))) == s,
{
    assert(turned(turned(turned(turned(s)))) =~= s);
}

/// The least column and row after a quarter turn, read off the shape before it: the
/// least column is the old least row, the least row is minus the old greatest column.
pub proof fn lemma_min_of_turned(s: Seq<(int, int)>, low_y: int, high_x: int)
    requires
        is_least(ys(s), low_y),
        is_greatest(xs(s), high_x),
    ensures
        min_x(turned(s)) == low_y,
        min_y(turned(s)) == -high_x,
{
    let t = turned(s);
    let i = choose|i: int| 0 <= i < ys(s).len() && ys(s)[i] == low_y;
    assert(xs(t)[i] == low_y);
    assert forall|k: int| 0 <= k < xs(t).len() implies low_y <= xs(t)[k] by {
        assert(ys(s)[k] == s[k].1);
    }
    lemma_least_unique(xs(t), low_y);
    let j = choose|j: int| 0 <= j < xs(s).len() && xs(s)[j] == high_x;
    assert(ys(t)[j] == -high_x);
    assert forall|k: int| 0 <= k < ys(t).len() implies -high_x <= ys(t)[k] by {
        assert(xs(s)[k] == s[k].0);
    }
    lemma_least_unique(ys(t), -high_x);
}

} // verus!
