//! The identity of a shape up to rotation: its normal form and its canonical key, with
//! the laws that make the key fit to tell shapes apart.
//!
//! The laws that callers lean on are [`lemma_rotation_closure`] (rotating a shape leaves
//! its key alone), [`lemma_key_idempotent`] (a key is its own key),
//! [`lemma_same_key_iff_same_shape`] (equal keys mean equal shapes up to rotation, and
//! nothing else does), [`lemma_key_same_cells`] (order and repeats do not matter),
//! [`lemma_four_rotations`] (four rotations in place restore the anchored shape) and
//! [`lemma_key_in_box`] (a key needs no more room than the shape).

use vstd::prelude::*;
use crate::order::{
    ascending, lemma_lex_asymmetric, lemma_lex_irreflexive, lemma_lex_total,
    lemma_lex_transitive, lemma_sorted_cells_exists, lemma_sorted_cells_of_ascending, lex_lt,
    lex_min, precedes, sorted_cells,
};
use crate::plane::{
    anchored, is_least, lemma_anchored_idempotent, lemma_anchored_is_anchored,
    lemma_anchored_of_shifted, lemma_four_turns, lemma_least_exists, lemma_least_unique,
    lemma_rotated_of_same_anchor, lemma_turned_of_shifted, min_x, min_y, rotated, rotated_by,
    shifted, turned, turned_by, xs, ys,
};

verus! {

/// The anchored form of `s` as a set, written in ascending order: every point once.
pub open spec fn normal_form(s: Seq<(int, int)>) -> Seq<(int, int)> {
    sorted_cells(anchored(s).to_set())
}

/// The smallest of four sequences in dictionary order.
pub open spec fn least_of_four(
    a: Seq<(int, int)>,
    b: Seq<(int, int)>,
    c: Seq<(int, int)>,
    d: Seq<(int, int)>,
) -> Seq<(int, int)> {
    lex_min(lex_min(lex_min(a, b), c), d)
}

/// The canonical key of `s`: the smallest normal form among its four rotations.
pub open spec fn canonical_key(s: Seq<(int, int)>) -> Seq<(int, int)> {
    least_of_four(
        normal_form(s),
        normal_form(turned(s)),
        normal_form(turned(turned(s))),
        normal_form(turned(turned(turned(s)))),
    )
}

/// `r` is one of the four sequences and none of them is smaller.
pub open spec fn is_least_of_four(
    r: Seq<(int, int)>,
    a: Seq<(int, int)>,
    b: Seq<(int, int)>,
    c: Seq<(int, int)>,
    d: Seq<(int, int)>,
) -> bool {
    &&& r == a || r == b || r == c || r == d
    &&& !lex_lt(a, r)
    &&& !lex_lt(b, r)
    &&& !lex_lt(c, r)
    &&& !lex_lt(d, r)
}

/// The smallest of four is one of them, with none of them smaller, and it is the only
/// such sequence.
pub proof fn lemma_least_of_four(
    r: Seq<(int, int)>,
    a: Seq<(int, int)>,
    b: Seq<(int, int)>,
    c: Seq<(int, int)>,
    d: Seq<(int, int)>,
)
    ensures
        is_least_of_four(least_of_four(a, b, c, d), a, b, c, d),
        is_least_of_four(r, a, b, c, d) ==> r == least_of_four(a, b, c, d),
{
    let ab = lex_min(a, b);
    let abc = lex_min(ab, c);
    let m = lex_min(abc, d);
    lemma_lex_irreflexive(a);
    lemma_lex_irreflexive(b);
    lemma_lex_irreflexive(c);
    lemma_lex_irreflexive(d);
    lemma_lex_asymmetric(a, b);
    lemma_lex_asymmetric(ab, c);
    lemma_lex_asymmetric(abc, d);
    assert(!lex_lt(a, ab) && !lex_lt(b, ab));
    assert(!lex_lt(ab, abc) && !lex_lt(c, abc));
    assert(!lex_lt(abc, m) && !lex_lt(d, m));
    if lex_lt(c, m) {
        lemma_lex_total(abc, m);
        if lex_lt(m, abc) {
            lemma_lex_transitive(c, m, abc);
        }
    }
    if lex_lt(ab, m) {
        lemma_lex_total(abc, m);
        if lex_lt(m, abc) {
            lemma_lex_transitive(ab, m, abc);
        }
    }
    if lex_lt(a, m) {
        lemma_lex_total(ab, m);
        if lex_lt(m, ab) {
            lemma_lex_transitive(a, m, ab);
        }
    }
    if lex_lt(b, m) {
        lemma_lex_total(ab, m);
        if lex_lt(m, ab) {
            lemma_lex_transitive(b, m, ab);
        }
    }
    assert(is_least_of_four(m, a, b, c, d));
    if is_least_of_four(r, a, b, c, d) {
        lemma_lex_total(r, m);
    }
}

/// The smallest of four does not depend on which of them is named first.
pub proof fn lemma_least_of_four_cycle(
    a: Seq<(int, int)>,
    b: Seq<(int, int)>,
    c: Seq<(int, int)>,
    d: Seq<(int, int)>,
)
    ensures
        least_of_four(b, c, d, a) == least_of_four(a, b, c, d),
{
    let r = least_of_four(b, c, d, a);
    lemma_least_of_four(r, b, c, d, a);
    lemma_least_of_four(r, a, b, c, d);
}

/// The normal form is ascending and holds exactly the points of the anchored form.
pub proof fn lemma_normal_form(s: Seq<(int, int)>)
    ensures
        ascending(normal_form(s)),
        normal_form(s).to_set() == anchored(s).to_set(),
{
    lemma_sorted_cells_exists(anchored(s));
}

/// The normal form does not depend on where the shape lies.
pub proof fn lemma_normal_form_of_shifted(s: Seq<(int, int)>, dx: int, dy: int)
    ensures
        normal_form(shifted(s, dx, dy)) == normal_form(s),
{
    lemma_anchored_of_shifted(s, dx, dy);
}

/// The canonical key does not depend on where the shape lies.
pub proof fn lemma_key_of_shifted(s: Seq<(int, int)>, dx: int, dy: int)
    ensures
        canonical_key(shifted(s, dx, dy)) == canonical_key(s),
{
    lemma_normal_form_of_shifted(s, dx, dy);
    lemma_turned_of_shifted(s, dx, dy);
    lemma_normal_form_of_shifted(turned(s), dy, -dx);
    lemma_turned_of_shifted(turned(s), dy, -dx);
    lemma_normal_form_of_shifted(turned(turned(s)), -dx, -dy);
    lemma_turned_of_shifted(turned(turned(s)), -dx, -dy);
    lemma_normal_form_of_shifted(turned(turned(turned(s))), -dy, dx);
}

/// The canonical key of a shape and of its quarter turn about the origin are the same.
pub proof fn lemma_key_of_turned(s: Seq<(int, int)>)
    ensures
        canonical_key(turned(s)) == canonical_key(s),
{
    lemma_four_turns(s);
    lemma_least_of_four_cycle(
        normal_form(s),
        normal_form(turned(s)),
        normal_form(turned(turned(s))),
        normal_form(turned(turned(turned(s)))),
    );
}

/// Rotating a shape in place does not change its canonical key.
pub proof fn lemma_key_of_rotated(s: Seq<(int, int)>)
    ensures
        canonical_key(rotated(s)) == canonical_key(s),
{
    let t = turned(s);
    lemma_key_of_shifted(t, -min_x(t), -min_y(t));
    lemma_key_of_turned(s);
}

/// Rotation closure: however often a shape is rotated, its canonical key stays the
/// same. In particular the four rotations of a shape share one key.
pub proof fn lemma_rotation_closure(s: Seq<(int, int)>, times: nat)
    ensures
        canonical_key(rotated_by(s, times)) == canonical_key(s),
    decreases times,
{
    if times > 0 {
        lemma_rotation_closure(s, (times - 1) as nat);
        lemma_key_of_rotated(rotated_by(s, (times - 1) as nat));
    }
}

/// Sequences that hold the same points have the same least column and row.
pub proof fn lemma_min_of_same_cells(a: Seq<(int, int)>, b: Seq<(int, int)>)
    requires
        a.to_set() == b.to_set(),
        a.len() > 0,
    ensures
        b.len() > 0,
        min_x(a) == min_x(b),
        min_y(a) == min_y(b),
{
    assert(a.contains(a[0]));
    assert(a.to_set().contains(a[0]));
    assert(b.to_set().contains(a[0]));
    assert(b.contains(a[0]));
    lemma_least_exists(xs(a));
    lemma_least_exists(ys(a));
    let i = choose|i: int| 0 <= i < xs(a).len() && xs(a)[i] == min_x(a);
    assert(a.contains(a[i]));
    assert(b.to_set().contains(a[i]));
    assert(b.contains(a[i]));
    let i2 = choose|k: int| 0 <= k < b.len() && b[k] == a[i];
    assert(xs(b)[i2] == min_x(a));
    assert forall|k: int| 0 <= k < xs(b).len() implies min_x(a) <= xs(b)[k] by {
        assert(b.contains(b[k]));
        assert(a.to_set().contains(b[k]));
        assert(a.contains(b[k]));
        let k2 = choose|m: int| 0 <= m < a.len() && a[m] == b[k];
        assert(xs(a)[k2] == b[k].0);
    }
    lemma_least_unique(xs(b), min_x(a));
    let j = choose|j: int| 0 <= j < ys(a).len() && ys(a)[j] == min_y(a);
    assert(a.contains(a[j]));
    assert(b.to_set().contains(a[j]));
    assert(b.contains(a[j]));
    let j2 = choose|k: int| 0 <= k < b.len() && b[k] == a[j];
    assert(ys(b)[j2] == min_y(a));
    assert forall|k: int| 0 <= k < ys(b).len() implies min_y(a) <= ys(b)[k] by {
        assert(b.contains(b[k]));
        assert(a.to_set().contains(b[k]));
        assert(a.contains(b[k]));
        let k2 = choose|m: int| 0 <= m < a.len() && a[m] == b[k];
        assert(ys(a)[k2] == b[k].1);
    }
    lemma_least_unique(ys(b), min_y(a));
}

/// Every point of `a`, moved, is a point of `b`, moved, where `b` holds the points of `a`.
proof fn lemma_shifted_cells_within(a: Seq<(int, int)>, b: Seq<(int, int)>, dx: int, dy: int)
    requires
        a.to_set() == b.to_set(),
    ensures
        forall|e: (int, int)|
            shifted(a, dx, dy).to_set().contains(e) ==> shifted(b, dx, dy).to_set().contains(e),
{
    assert forall|e: (int, int)| shifted(a, dx, dy).to_set().contains(e) implies shifted(
        b,
        dx,
        dy,
    ).to_set().contains(e) by {
        let sa = shifted(a, dx, dy);
        let sb = shifted(b, dx, dy);
        assert(sa.contains(e));
        let i = choose|i: int| 0 <= i < sa.len() && sa[i] == e;
        assert(a.contains(a[i]));
        assert(b.to_set().contains(a[i]));
        assert(b.contains(a[i]));
        let j = choose|j: int| 0 <= j < b.len() && b[j] == a[i];
        assert(sb[j] == e);
        assert(sb.contains(e));
    }
}

/// Every point of `a`, turned, is a point of `b`, turned, where `b` holds the points of
/// `a`.
proof fn lemma_turned_cells_within(a: Seq<(int, int)>, b: Seq<(int, int)>)
    requires
        a.to_set() == b.to_set(),
    ensures
        forall|e: (int, int)| turned(a).to_set().contains(e) ==> turned(b).to_set().contains(e),
{
    assert forall|e: (int, int)| turned(a).to_set().contains(e) implies turned(
        b,
    ).to_set().contains(e) by {
        let ta = turned(a);
        let tb = turned(b);
        assert(ta.contains(e));
        let i = choose|i: int| 0 <= i < ta.len() && ta[i] == e;
        assert(a.contains(a[i]));
        assert(b.to_set().contains(a[i]));
        assert(b.contains(a[i]));
        let j = choose|j: int| 0 <= j < b.len() && b[j] == a[i];
        assert(tb[j] == e);
        assert(tb.contains(e));
    }
}

/// Sequences that hold the same points hold the same points after a quarter turn.
pub proof fn lemma_turned_same_cells(a: Seq<(int, int)>, b: Seq<(int, int)>)
    requires
        a.to_set() == b.to_set(),
    ensures
        turned(a).to_set() == turned(b).to_set(),
{
    lemma_turned_cells_within(a, b);
    lemma_turned_cells_within(b, a);
    assert(turned(a).to_set() =~= turned(b).to_set());
}

/// The normal form depends on the points that a sequence holds, not on their order or
/// on how often each is written.
pub proof fn lemma_normal_form_same_cells(a: Seq<(int, int)>, b: Seq<(int, int)>)
    requires
        a.to_set() == b.to_set(),
    ensures
        normal_form(a) == normal_form(b),
{
    if a.len() == 0 {
        if b.len() > 0 {
            assert(b.contains(b[0]));
            assert(a.to_set().contains(b[0]));
            assert(a.contains(b[0]));
        }
        assert(a =~= b);
    } else {
        lemma_min_of_same_cells(a, b);
        lemma_shifted_cells_within(a, b, -min_x(a), -min_y(a));
        lemma_shifted_cells_within(b, a, -min_x(a), -min_y(a));
        assert(anchored(a).to_set() =~= anchored(b).to_set());
    }
}

/// The canonical key depends on the points that a sequence holds, not on their order or
/// on how often each is written.
pub proof fn lemma_key_same_cells(a: Seq<(int, int)>, b: Seq<(int, int)>)
    requires
        a.to_set() == b.to_set(),
    ensures
        canonical_key(a) == canonical_key(b),
{
    lemma_normal_form_same_cells(a, b);
    lemma_turned_same_cells(a, b);
    lemma_normal_form_same_cells(turned(a), turned(b));
    lemma_turned_same_cells(turned(a), turned(b));
    lemma_normal_form_same_cells(turned(turned(a)), turned(turned(b)));
    lemma_turned_same_cells(turned(turned(a)), turned(turned(b)));
    lemma_normal_form_same_cells(turned(turned(turned(a))), turned(turned(turned(b))));
}

/// The canonical key of a normal form is the canonical key of the shape.
pub proof fn lemma_key_of_normal_form(s: Seq<(int, int)>)
    ensures
        canonical_key(normal_form(s)) == canonical_key(s),
{
    lemma_normal_form(s);
    lemma_key_same_cells(normal_form(s), anchored(s));
    lemma_key_of_shifted(s, -min_x(s), -min_y(s));
}

/// The normal form of a normal form is that normal form.
pub proof fn lemma_normal_form_idempotent(s: Seq<(int, int)>)
    ensures
        normal_form(normal_form(s)) == normal_form(s),
{
    lemma_normal_form(s);
    lemma_normal_form_same_cells(normal_form(s), anchored(s));
    lemma_anchored_idempotent(s);
}

/// The rotation of `s` whose normal form is the canonical key of `s`.
pub open spec fn chosen_rotation(s: Seq<(int, int)>) -> Seq<(int, int)> {
    let t1 = turned(s);
    let t2 = turned(t1);
    let t3 = turned(t2);
    if canonical_key(s) == normal_form(s) {
        s
    } else if canonical_key(s) == normal_form(t1) {
        t1
    } else if canonical_key(s) == normal_form(t2) {
        t2
    } else {
        t3
    }
}

/// The canonical key of a shape is the normal form of one of its rotations, and that
/// rotation has the same canonical key.
pub proof fn lemma_key_is_normal_form_of_rotation(s: Seq<(int, int)>)
    ensures
        canonical_key(s) == normal_form(chosen_rotation(s)),
        canonical_key(chosen_rotation(s)) == canonical_key(s),
{
    let t1 = turned(s);
    let t2 = turned(t1);
    let t3 = turned(t2);
    lemma_least_of_four(
        canonical_key(s),
        normal_form(s),
        normal_form(t1),
        normal_form(t2),
        normal_form(t3),
    );
    lemma_key_of_turned(s);
    lemma_key_of_turned(t1);
    lemma_key_of_turned(t2);
}

/// A canonical key is in normal form already: ascending, every point once, with least
/// column and row zero.
pub proof fn lemma_key_is_own_normal_form(s: Seq<(int, int)>)
    ensures
        normal_form(canonical_key(s)) == canonical_key(s),
{
    lemma_key_is_normal_form_of_rotation(s);
    lemma_normal_form_idempotent(chosen_rotation(s));
}

/// Idempotence: the canonical key of a canonical key is that key.
pub proof fn lemma_key_idempotent(s: Seq<(int, int)>)
    ensures
        canonical_key(canonical_key(s)) == canonical_key(s),
{
    lemma_key_is_normal_form_of_rotation(s);
    lemma_key_of_normal_form(chosen_rotation(s));
}

/// Rotating a shape in place any number of times gives the anchored form of the shape
/// turned about the origin as often.
pub proof fn lemma_rotated_by_is_anchored_turn(s: Seq<(int, int)>, times: nat)
    requires
        times > 0,
    ensures
        rotated_by(s, times) == anchored(turned_by(s, times)),
    decreases times,
{
    if times == 1 {
        assert(rotated_by(s, 0) == s);
        assert(turned_by(s, 0) == s);
    } else {
        let before = (times - 1) as nat;
        lemma_rotated_by_is_anchored_turn(s, before);
        lemma_anchored_idempotent(turned_by(s, before));
        lemma_rotated_of_same_anchor(anchored(turned_by(s, before)), turned_by(s, before));
    }
}

/// Round trip: four rotations in place bring a shape back to its anchored form, cell by
/// cell; a shape whose least column and row are zero comes back unchanged.
pub proof fn lemma_four_rotations(s: Seq<(int, int)>)
    ensures
        rotated_by(s, 4) == anchored(s),
        s.len() > 0 && min_x(s) == 0 && min_y(s) == 0 ==> rotated_by(s, 4) == s,
{
    lemma_rotated_by_is_anchored_turn(s, 4);
    reveal_with_fuel(turned_by, 5);
    lemma_four_turns(s);
    if s.len() > 0 && min_x(s) == 0 && min_y(s) == 0 {
        assert(anchored(s) =~= s);
    }
}

/// The canonical key of the single cell at the origin is that cell.
pub proof fn lemma_key_of_single_cell()
    ensures
        canonical_key(seq![(0int, 0int)]) == seq![(0int, 0int)],
{
    let s = seq![(0int, 0int)];
    assert(turned(s) =~= s);
    assert(xs(s)[0] == 0 && ys(s)[0] == 0);
    assert(is_least(xs(s), 0));
    assert(is_least(ys(s), 0));
    lemma_least_unique(xs(s), 0);
    lemma_least_unique(ys(s), 0);
    assert(anchored(s) =~= s);
    assert(ascending(s));
    lemma_sorted_cells_of_ascending(s);
    lemma_lex_irreflexive(s);
}

/// Turning about the origin any number of times does not change the canonical key.
pub proof fn lemma_key_of_turned_by(s: Seq<(int, int)>, times: nat)
    ensures
        canonical_key(turned_by(s, times)) == canonical_key(s),
    decreases times,
{
    if times > 0 {
        lemma_key_of_turned_by(s, (times - 1) as nat);
        lemma_key_of_turned(turned_by(s, (times - 1) as nat));
    }
}

/// Turning `first` times and then `then` times is turning `first + then` times.
pub proof fn lemma_turned_by_sum(s: Seq<(int, int)>, first: nat, then: nat)
    ensures
        turned_by(turned_by(s, first), then) == turned_by(s, first + then),
    decreases then,
{
    if then > 0 {
        lemma_turned_by_sum(s, first, (then - 1) as nat);
    }
}

/// Four more quarter turns change nothing.
pub proof fn lemma_turned_by_four_more(s: Seq<(int, int)>, times: nat)
    ensures
        turned_by(s, times + 4) == turned_by(s, times),
{
    reveal_with_fuel(turned_by, 5);
    lemma_four_turns(turned_by(s, times));
}

/// Shapes with the same normal form have the same normal form after a quarter turn.
pub proof fn lemma_normal_form_of_turned(a: Seq<(int, int)>, b: Seq<(int, int)>)
    requires
        normal_form(a) == normal_form(b),
    ensures
        normal_form(turned(a)) == normal_form(turned(b)),
{
    lemma_normal_form(a);
    lemma_normal_form(b);
    lemma_turned_same_cells(anchored(a), anchored(b));
    lemma_normal_form_same_cells(turned(anchored(a)), turned(anchored(b)));
    lemma_turned_of_shifted(a, -min_x(a), -min_y(a));
    lemma_normal_form_of_shifted(turned(a), -min_y(a), min_x(a));
    lemma_turned_of_shifted(b, -min_x(b), -min_y(b));
    lemma_normal_form_of_shifted(turned(b), -min_y(b), min_x(b));
}

/// Shapes with the same normal form have the same normal form after any number of
/// quarter turns.
pub proof fn lemma_normal_form_of_turned_by(a: Seq<(int, int)>, b: Seq<(int, int)>, times: nat)
    requires
        normal_form(a) == normal_form(b),
    ensures
        normal_form(turned_by(a, times)) == normal_form(turned_by(b, times)),
    decreases times,
{
    if times > 0 {
        lemma_normal_form_of_turned_by(a, b, (times - 1) as nat);
        lemma_normal_form_of_turned(
            turned_by(a, (times - 1) as nat),
            turned_by(b, (times - 1) as nat),
        );
    }
}

/// `a` and `b` are the same shape up to rotation: some rotation of `b` has the normal
/// form of `a`.
pub open spec fn same_shape(a: Seq<(int, int)>, b: Seq<(int, int)>) -> bool {
    exists|times: nat| times < 4 && normal_form(a) == normal_form(#[trigger] turned_by(b, times))
}

/// The number of quarter turns after which `s` is its [`chosen_rotation`].
pub open spec fn chosen_turns(s: Seq<(int, int)>) -> nat {
    if canonical_key(s) == normal_form(s) {
        0
    } else if canonical_key(s) == normal_form(turned(s)) {
        1
    } else if canonical_key(s) == normal_form(turned(turned(s))) {
        2
    } else {
        3
    }
}

/// Two shapes have the same canonical key exactly when they are the same shape up to
/// rotation.
pub proof fn lemma_same_key_iff_same_shape(a: Seq<(int, int)>, b: Seq<(int, int)>)
    ensures
        canonical_key(a) == canonical_key(b) <==> same_shape(a, b),
{
    if same_shape(a, b) {
        let times = choose|times: nat|
            times < 4 && normal_form(a) == normal_form(#[trigger] turned_by(b, times));
        lemma_key_of_normal_form(a);
        lemma_key_of_normal_form(turned_by(b, times));
        lemma_key_of_turned_by(b, times);
    }
    if canonical_key(a) == canonical_key(b) {
        let i = chosen_turns(a);
        let j = chosen_turns(b);
        reveal_with_fuel(turned_by, 4);
        lemma_key_is_normal_form_of_rotation(a);
        lemma_key_is_normal_form_of_rotation(b);
        assert(chosen_rotation(a) == turned_by(a, i));
        assert(chosen_rotation(b) == turned_by(b, j));
        let back = (4 - i) as nat;
        lemma_normal_form_of_turned_by(turned_by(a, i), turned_by(b, j), back);
        lemma_turned_by_sum(a, i, back);
        lemma_turned_by_sum(b, j, back);
        lemma_turned_by_four_more(a, 0);
        assert(turned_by(a, 0) == a);
        assert(normal_form(a) == normal_form(turned_by(b, j + back)));
        if j + back >= 4 {
            lemma_turned_by_four_more(b, (j + back - 4) as nat);
            assert(normal_form(a) == normal_form(turned_by(b, (j + back - 4) as nat)));
        } else {
            assert(normal_form(a) == normal_form(turned_by(b, j + back)));
        }
    }
}

/// The normal form of a non-empty shape has least column and least row zero.
pub proof fn lemma_normal_form_is_anchored(s: Seq<(int, int)>)
    requires
        s.len() > 0,
    ensures
        normal_form(s).len() > 0,
        min_x(normal_form(s)) == 0,
        min_y(normal_form(s)) == 0,
{
    lemma_normal_form(s);
    lemma_anchored_is_anchored(s);
    lemma_min_of_same_cells(anchored(s), normal_form(s));
}

/// Every point of `s` has both offsets in `0..n`.
pub open spec fn in_box(s: Seq<(int, int)>, n: int) -> bool {
    forall|i: int| 0 <= i < s.len() ==> 0 <= (#[trigger] s[i]).0 < n && 0 <= s[i].1 < n
}

/// No two points of `s` are `n` or more columns or rows apart.
pub open spec fn narrower_than(s: Seq<(int, int)>, n: int) -> bool {
    forall|i: int, j: int|
        0 <= i < s.len() && 0 <= j < s.len() ==> (#[trigger] s[i]).0 - (#[trigger] s[j]).0 < n
            && s[i].1 - s[j].1 < n
}

/// A quarter turn keeps the points as close together as they were.
pub proof fn lemma_turned_narrower(s: Seq<(int, int)>, n: int)
    requires
        narrower_than(s, n),
    ensures
        narrower_than(turned(s), n),
{
    let t = turned(s);
    assert forall|i: int, j: int| 0 <= i < t.len() && 0 <= j < t.len() implies (#[trigger] t[i]).0
        - (#[trigger] t[j]).0 < n && t[i].1 - t[j].1 < n by {
        assert(s[i].1 - s[j].1 < n);
        assert(s[j].0 - s[i].0 < n);
    }
}

/// The normal form of a non-empty shape whose points are less than `n` apart lies in the
/// `n` by `n` box and holds no more points than the shape.
pub proof fn lemma_normal_form_in_box(s: Seq<(int, int)>, n: int)
    requires
        s.len() > 0,
        narrower_than(s, n),
    ensures
        in_box(normal_form(s), n),
        0 < normal_form(s).len() <= s.len(),
{
    let a = anchored(s);
    let q = normal_form(s);
    lemma_normal_form(s);
    lemma_least_exists(xs(s));
    lemma_least_exists(ys(s));
    let ix = choose|i: int| 0 <= i < xs(s).len() && xs(s)[i] == min_x(s);
    let iy = choose|i: int| 0 <= i < ys(s).len() && ys(s)[i] == min_y(s);
    assert(s[ix].0 == min_x(s));
    assert(s[iy].1 == min_y(s));
    assert forall|i: int| 0 <= i < a.len() implies 0 <= (#[trigger] a[i]).0 < n && 0 <= a[i].1
        < n by {
        assert(xs(s)[i] == s[i].0);
        assert(ys(s)[i] == s[i].1);
        assert(s[i].0 - s[ix].0 < n);
        assert(s[i].1 - s[iy].1 < n);
    }
    assert forall|i: int| 0 <= i < q.len() implies 0 <= (#[trigger] q[i]).0 < n && 0 <= q[i].1
        < n by {
        assert(q.contains(q[i]));
        assert(a.to_set().contains(q[i]));
        assert(a.contains(q[i]));
        let k = choose|k: int| 0 <= k < a.len() && a[k] == q[i];
        assert(0 <= a[k].0 < n);
    }
    assert(q.no_duplicates()) by {
        assert forall|i: int, j: int| 0 <= i < q.len() && 0 <= j < q.len() && i != j implies q[i]
            != q[j] by {
            if i < j {
                assert(precedes(q[i], q[j]));
            } else {
                assert(precedes(q[j], q[i]));
            }
        }
    }
    q.unique_seq_to_set();
    a.lemma_cardinality_of_set();
    assert(a.contains(a[0]));
    assert(q.to_set().contains(a[0]));
    assert(q.contains(a[0]));
}

/// The canonical key of a non-empty shape that lies in the `n` by `n` box lies in that
/// box too, and holds no more points than the shape.
pub proof fn lemma_key_in_box(s: Seq<(int, int)>, n: int)
    requires
        s.len() > 0,
        in_box(s, n),
    ensures
        in_box(canonical_key(s), n),
        0 < canonical_key(s).len() <= s.len(),
{
    assert(narrower_than(s, n));
    lemma_turned_narrower(s, n);
    lemma_turned_narrower(turned(s), n);
    lemma_turned_narrower(turned(turned(s)), n);
    lemma_key_is_normal_form_of_rotation(s);
    lemma_normal_form_in_box(chosen_rotation(s), n);
}

} // verus!
