//! Shapes as stored coordinate lists: rotation in place, the normal form, the canonical
//! key, and the generation of all keys of a given size.

use vstd::prelude::*;
use vstd::slice::slice_to_vec;
use crate::canonical::{canonical_key, normal_form};
use crate::error::PolyominoError;
use crate::growth::{admits, grown, grows_to, shapes_of_size, with_cell};
use crate::order::{
    agree_before, ascending, lemma_ascending_insert, lemma_lex_decided_at,
    lemma_sorted_cells_of_ascending, lex_lt, lex_min, precedes,
};
use crate::plane::{
    anchored, is_greatest, is_least, lemma_anchored_idempotent, lemma_least_unique,
    lemma_min_attained, lemma_min_of_turned, lemma_rotated_of_same_anchor, min_x, min_y,
    point_of, points, rotated, turned, turned_by, xs, ys,
};

verus! {

/// A shape: the cells that it covers, as offsets from its top-left corner.
pub struct Polyomino {
    blocks: Vec<(usize, usize)>,
}

impl View for Polyomino {
    type V = Seq<(usize, usize)>;

    /// The stored offsets, in the order in which they are stored.
    closed spec fn view(&self) -> Seq<(usize, usize)> {
        self.blocks@
    }
}

impl Polyomino {
    /// A shape that covers the given cells.
    pub fn new(blocks: Vec<(usize, usize)>) -> (shape: Polyomino)
        ensures
            shape@ == blocks@,
    {
        Polyomino { blocks }
    }

    /// Rotates the shape a quarter turn clockwise and moves it back so that its least
    /// column and row are zero. The cells keep their order.
    pub fn rotate(&mut self)
        ensures
            points(final(self)@) == rotated(points(old(self)@)),
    {
        self.blocks = rotate_cells(self.blocks.as_slice());
    }

    /// The cells of the shape, in the order in which they are stored.
    pub fn get_blocks(&self) -> (blocks: Vec<(usize, usize)>)
        ensures
            blocks@ == self@,
    {
        slice_to_vec(self.blocks.as_slice())
    }

    /// The cells of the shape, borrowed.
    pub(crate) fn cells(&self) -> (blocks: &[(usize, usize)])
        ensures
            blocks@ == self@,
    {
        self.blocks.as_slice()
    }
}

/// Whether `a` comes before `b`, by column and then by row.
fn cell_before(a: (usize, usize), b: (usize, usize)) -> (before: bool)
    ensures
        before == precedes(point_of(a), point_of(b)),
{
    a.0 < b.0 || (a.0 == b.0 && a.1 < b.1)
}

/// The least column and the least row of a non-empty list of cells.
fn low_corner(cells: &[(usize, usize)]) -> (low: (usize, usize))
    requires
        cells@.len() > 0,
    ensures
        low.0 == min_x(points(cells@)),
        low.1 == min_y(points(cells@)),
{
    let mut low_x: usize = cells[0].0;
    let mut low_y: usize = cells[0].1;
    let mut i: usize = 1;
    while i < cells.len()
        invariant
            1 <= i <= cells@.len(),
            exists|k: int| 0 <= k < i && cells@[k].0 == low_x,
            exists|k: int| 0 <= k < i && cells@[k].1 == low_y,
            forall|k: int| 0 <= k < i ==> low_x <= cells@[k].0,
            forall|k: int| 0 <= k < i ==> low_y <= cells@[k].1,
        decreases cells@.len() - i,
    {
        if cells[i].0 < low_x {
            low_x = cells[i].0;
        }
        if cells[i].1 < low_y {
            low_y = cells[i].1;
        }
        i = i + 1;
    }
    proof {
        let p = points(cells@);
        let kx = choose|k: int| 0 <= k < i && cells@[k].0 == low_x;
        let ky = choose|k: int| 0 <= k < i && cells@[k].1 == low_y;
        assert(xs(p)[kx] == low_x);
        assert(ys(p)[ky] == low_y);
        assert(is_least(xs(p), low_x as int));
        assert(is_least(ys(p), low_y as int));
        lemma_least_unique(xs(p), low_x as int);
        lemma_least_unique(ys(p), low_y as int);
    }
    (low_x, low_y)
}

/// The greatest column of a non-empty list of cells.
fn high_column(cells: &[(usize, usize)]) -> (high: usize)
    requires
        cells@.len() > 0,
    ensures
        is_greatest(xs(points(cells@)), high as int),
{
    let mut high: usize = cells[0].0;
    let mut i: usize = 1;
    while i < cells.len()
        invariant
            1 <= i <= cells@.len(),
            exists|k: int| 0 <= k < i && cells@[k].0 == high,
            forall|k: int| 0 <= k < i ==> cells@[k].0 <= high,
        decreases cells@.len() - i,
    {
        if cells[i].0 > high {
            high = cells[i].0;
        }
        i = i + 1;
    }
    proof {
        let p = points(cells@);
        let k = choose|k: int| 0 <= k < i && cells@[k].0 == high;
        assert(xs(p)[k] == high);
    }
    high
}

/// The cells after a quarter turn clockwise, moved back to non-negative offsets, in the
/// order of `cells`.
fn rotate_cells(cells: &[(usize, usize)]) -> (turned_cells: Vec<(usize, usize)>)
    ensures
        points(turned_cells@) == rotated(points(cells@)),
{
    let mut out: Vec<(usize, usize)> = Vec::new();
    if cells.len() == 0 {
        assert(points(out@) =~= rotated(points(cells@)));
        return out;
    }
    let low = low_corner(cells);
    let high = high_column(cells);
    let ghost p = points(cells@);
    proof {
        lemma_min_attained(p);
        lemma_min_of_turned(p, low.1 as int, high as int);
    }
    let mut i: usize = 0;
    while i < cells.len()
        invariant
            0 <= i <= cells@.len(),
            p == points(cells@),
            out@.len() == i,
            is_least(ys(p), low.1 as int),
            is_greatest(xs(p), high as int),
            min_x(turned(p)) == low.1,
            min_y(turned(p)) == -high,
            forall|k: int| 0 <= k < i ==> point_of(out@[k]) == rotated(p)[k],
        decreases cells@.len() - i,
    {
        let c = cells[i];
        proof {
            assert(ys(p)[i as int] == c.1);
            assert(xs(p)[i as int] == c.0);
        }
        out.push((c.1 - low.1, high - c.0));
        i = i + 1;
    }
    assert(points(out@) =~= rotated(p));
    out
}

/// Puts `cell` at its place in an ascending list, unless the list holds it already.
fn insert_cell(sorted: &mut Vec<(usize, usize)>, cell: (usize, usize))
    requires
        ascending(points(old(sorted)@)),
    ensures
        ascending(points(final(sorted)@)),
        points(final(sorted)@).to_set() == points(old(sorted)@).to_set().insert(point_of(cell)),
{
    let ghost before = points(sorted@);
    let mut at: usize = 0;
    while at < sorted.len() && cell_before(sorted[at], cell)
        invariant
            0 <= at <= sorted@.len(),
            forall|k: int| 0 <= k < at ==> precedes(point_of(sorted@[k]), point_of(cell)),
        decreases sorted@.len() - at,
    {
        at = at + 1;
    }
    if at < sorted.len() && sorted[at].0 == cell.0 && sorted[at].1 == cell.1 {
        proof {
            assert(before[at as int] == point_of(cell));
            assert(before.contains(point_of(cell)));
            assert(before.to_set() =~= before.to_set().insert(point_of(cell)));
        }
    } else {
        sorted.insert(at, cell);
        proof {
            assert forall|k: int| 0 <= k < at implies precedes(before[k], point_of(cell)) by {
                assert(before[k] == point_of(old(sorted)@[k]));
            }
            if at < before.len() {
                assert(before[at as int] == point_of(old(sorted)@[at as int]));
            }
            lemma_ascending_insert(before, at as int, point_of(cell));
            assert(points(sorted@) =~= before.insert(at as int, point_of(cell)));
        }
    }
}

/// Whether `a` is smaller than `b` in dictionary order.
fn lex_less(a: &[(usize, usize)], b: &[(usize, usize)]) -> (less: bool)
    ensures
        less == lex_lt(points(a@), points(b@)),
{
    let mut i: usize = 0;
    while i < a.len() && i < b.len()
        invariant
            agree_before(points(a@), points(b@), i as int),
        decreases a@.len() - i,
    {
        if a[i].0 != b[i].0 || a[i].1 != b[i].1 {
            proof {
                lemma_lex_decided_at(points(a@), points(b@), i as int);
            }
            return cell_before(a[i], b[i]);
        }
        i = i + 1;
    }
    proof {
        lemma_lex_decided_at(points(a@), points(b@), i as int);
    }
    i < b.len()
}

/// The normal form of a shape: its cells moved so that the least column and the least
/// row are zero, every cell once, in ascending order. A shape without cells is refused.
pub fn normalize(pento: &[(usize, usize)]) -> (result: Result<Vec<(usize, usize)>, PolyominoError>)
    ensures
        match result {
            Ok(cells) => {
                &&& pento@.len() > 0
                &&& points(cells@) == normal_form(points(pento@))
                &&& ascending(points(cells@))
                &&& points(cells@).to_set() == anchored(points(pento@)).to_set()
            },
            Err(e) => pento@.len() == 0 && e == PolyominoError::InvalidShape,
        },
{
    if pento.len() == 0 {
        return Err(PolyominoError::InvalidShape);
    }
    let low = low_corner(pento);
    let ghost p = points(pento@);
    let ghost target = anchored(p);
    let mut out: Vec<(usize, usize)> = Vec::new();
    let mut i: usize = 0;
    proof {
        lemma_min_attained(p);
        assert(target.take(0).to_set() =~= points(out@).to_set());
    }
    while i < pento.len()
        invariant
            0 <= i <= pento@.len(),
            p == points(pento@),
            target == anchored(p),
            low.0 == min_x(p),
            low.1 == min_y(p),
            is_least(xs(p), min_x(p)),
            is_least(ys(p), min_y(p)),
            ascending(points(out@)),
            points(out@).to_set() == target.take(i as int).to_set(),
        decreases pento@.len() - i,
    {
        let c = pento[i];
        proof {
            assert(xs(p)[i as int] == c.0);
            assert(ys(p)[i as int] == c.1);
        }
        let moved = (c.0 - low.0, c.1 - low.1);
        insert_cell(&mut out, moved);
        proof {
            assert(point_of(moved) == target[i as int]);
            assert(target.take(i + 1) =~= target.take(i as int).push(target[i as int]));
            target.take(i as int).lemma_push_to_set_commute(target[i as int]);
        }
        i = i + 1;
    }
    proof {
        assert(target.take(i as int) =~= target);
        lemma_sorted_cells_of_ascending(points(out@));
    }
    Ok(out)
}

/// The smallest normal form among the rotations of `p` by no more than `turns` quarter
/// turns.
spec fn smallest_upto(p: Seq<(int, int)>, turns: nat) -> Seq<(int, int)>
    decreases turns,
{
    if turns == 0 {
        normal_form(p)
    } else {
        lex_min(smallest_upto(p, (turns - 1) as nat), normal_form(turned_by(p, turns)))
    }
}

/// The canonical key is the smallest normal form among the rotations by no more than
/// three quarter turns.
proof fn lemma_key_is_smallest(p: Seq<(int, int)>)
    ensures
        canonical_key(p) == smallest_upto(p, 3),
{
    reveal_with_fuel(smallest_upto, 4);
    reveal_with_fuel(turned_by, 4);
}

/// The canonical key of a shape: the smallest, in dictionary order, of the normal forms
/// of its four rotations. A shape without cells is refused.
pub fn canonicalize(pento: &[(usize, usize)]) -> (result: Result<
    Vec<(usize, usize)>,
    PolyominoError,
>)
    ensures
        match result {
            Ok(key) => pento@.len() > 0 && points(key@) == canonical_key(points(pento@)),
            Err(e) => pento@.len() == 0 && e == PolyominoError::InvalidShape,
        },
{
    let mut best = match normalize(pento) {
        Ok(cells) => cells,
        Err(e) => {
            return Err(e);
        },
    };
    let ghost p = points(pento@);
    let mut work = slice_to_vec(pento);
    let mut turn: usize = 0;
    while turn < 3
        invariant
            turn <= 3,
            p == points(pento@),
            work@.len() == p.len(),
            p.len() > 0,
            anchored(points(work@)) == anchored(turned_by(p, turn as nat)),
            points(best@) == smallest_upto(p, turn as nat),
        decreases 3 - turn,
    {
        proof {
            lemma_rotated_of_same_anchor(points(work@), turned_by(p, turn as nat));
            lemma_anchored_idempotent(turned(turned_by(p, turn as nat)));
        }
        work = rotate_cells(work.as_slice());
        turn = turn + 1;
        assert(work@.len() == points(work@).len());
        match normalize(work.as_slice()) {
            Ok(cells) => {
                if lex_less(cells.as_slice(), best.as_slice()) {
                    best = cells;
                }
            },
            Err(e) => {
                return Err(e);
            },
        }
    }
    proof {
        lemma_key_is_smallest(p);
    }
    Ok(best)
}

/// The keys that a list of stored shapes stands for.
pub open spec fn keys_of(shapes: Seq<Vec<(usize, usize)>>) -> Set<Seq<(int, int)>> {
    Set::new(
        |key: Seq<(int, int)>| exists|j: int| 0 <= j < shapes.len() && points(shapes[j]@) == key,
    )
}

/// No two entries of the list stand for the same shape.
pub open spec fn distinct_keys(shapes: Seq<Vec<(usize, usize)>>) -> bool {
    forall|i: int, j: int| 0 <= i < j < shapes.len() ==> points(shapes[i]@) != points(shapes[j]@)
}

/// `(i, x, y)` comes before `(ci, cx, cy)` in the order in which offsets are tried.
spec fn tried_before(i: int, x: int, y: int, ci: int, cx: int, cy: int) -> bool {
    i < ci || (i == ci && (x < cx || (x == cx && y < cy)))
}

/// The keys that `p` grows to through the offsets tried before `(ci, cx, cy)`.
spec fn tried(p: Seq<(int, int)>, n: int, ci: int, cx: int, cy: int) -> Set<
    Seq<(int, int)>,
> {
    Set::new(
        |key: Seq<(int, int)>|
            exists|i: int, x: int, y: int|
                admits(p, i, x, y, n) && tried_before(i, x, y, ci, cx, cy) && key == canonical_key(
                    #[trigger] with_cell(p, i, x, y),
                ),
    )
}

/// Whether two lists hold the same cells in the same order.
fn same_cells(a: &[(usize, usize)], b: &[(usize, usize)]) -> (same: bool)
    ensures
        same == (points(a@) == points(b@)),
{
    if a.len() != b.len() {
        assert(points(a@).len() != points(b@).len());
        return false;
    }
    let mut i: usize = 0;
    while i < a.len()
        invariant
            0 <= i <= a@.len(),
            a@.len() == b@.len(),
            forall|k: int| 0 <= k < i ==> a@[k] == b@[k],
        decreases a@.len() - i,
    {
        if a[i].0 != b[i].0 || a[i].1 != b[i].1 {
            assert(points(a@)[i as int] != points(b@)[i as int]);
            return false;
        }
        i = i + 1;
    }
    assert(points(a@) =~= points(b@));
    true
}

/// Adds `key` to a list of distinct keys, unless the list holds it already.
fn insert_key(keys: &mut Vec<Vec<(usize, usize)>>, key: Vec<(usize, usize)>)
    requires
        distinct_keys(old(keys)@),
    ensures
        distinct_keys(final(keys)@),
        keys_of(final(keys)@) == keys_of(old(keys)@).insert(points(key@)),
{
    let mut j: usize = 0;
    while j < keys.len()
        invariant
            0 <= j <= keys@.len(),
            keys@ == old(keys)@,
            distinct_keys(keys@),
            forall|k: int| 0 <= k < j ==> points(keys@[k]@) != points(key@),
        decreases keys@.len() - j,
    {
        if same_cells(keys[j].as_slice(), key.as_slice()) {
            assert(keys_of(keys@).contains(points(key@)));
            assert(keys_of(keys@) =~= keys_of(old(keys)@).insert(points(key@)));
            return ;
        }
        j = j + 1;
    }
    let ghost wanted = points(key@);
    keys.push(key);
    proof {
        assert forall|k: Seq<(int, int)>| keys_of(keys@).contains(k) <==> keys_of(
            old(keys)@,
        ).insert(wanted).contains(k) by {
            if keys_of(keys@).contains(k) {
                let at = choose|at: int| 0 <= at < keys@.len() && points(keys@[at]@) == k;
                if at < old(keys)@.len() {
                    assert(points(old(keys)@[at]@) == k);
                }
            }
            if keys_of(old(keys)@).contains(k) {
                let at = choose|at: int| 0 <= at < old(keys)@.len() && points(old(keys)@[at]@) == k;
                assert(points(keys@[at]@) == k);
            }
            if k == wanted {
                assert(points(keys@[keys@.len() - 1]@) == k);
            }
        }
        assert(keys_of(keys@) =~= keys_of(old(keys)@).insert(wanted));
    }
}

/// Trying one more offset adds its key if the offset is admitted, and nothing otherwise.
proof fn lemma_tried_step(p: Seq<(int, int)>, n: int, i: int, x: int, y: int)
    ensures
        tried(p, n, i, x, y + 1) == if admits(p, i, x, y, n) {
            tried(p, n, i, x, y).insert(canonical_key(with_cell(p, i, x, y)))
        } else {
            tried(p, n, i, x, y)
        },
{
    let before = tried(p, n, i, x, y);
    let after = tried(p, n, i, x, y + 1);
    let goal = if admits(p, i, x, y, n) {
        before.insert(canonical_key(with_cell(p, i, x, y)))
    } else {
        before
    };
    assert forall|k: Seq<(int, int)>| after.contains(k) <==> goal.contains(k) by {
        if after.contains(k) {
            let (a, b, c) = choose|a: int, b: int, c: int|
                admits(p, a, b, c, n) && tried_before(a, b, c, i, x, y + 1) && k == canonical_key(
                    #[trigger] with_cell(p, a, b, c),
                );
            if a == i && b == x && c == y {
            } else {
                assert(tried_before(a, b, c, i, x, y));
                assert(before.contains(k));
            }
        }
        if before.contains(k) {
            let (a, b, c) = choose|a: int, b: int, c: int|
                admits(p, a, b, c, n) && tried_before(a, b, c, i, x, y) && k == canonical_key(
                    #[trigger] with_cell(p, a, b, c),
                );
            assert(tried_before(a, b, c, i, x, y + 1));
        }
        if admits(p, i, x, y, n) && k == canonical_key(with_cell(p, i, x, y)) {
            assert(tried_before(i, x, y, i, x, y + 1));
        }
    }
    assert(after =~= goal);
}

/// Moving on to the next column or the next cell, once no admitted offset is left in
/// between, leaves the keys tried so far as they are.
proof fn lemma_tried_skip(
    p: Seq<(int, int)>,
    n: int,
    i: int,
    x: int,
    y: int,
    ni: int,
    nx: int,
    ny: int,
)
    requires
        forall|a: int, b: int, c: int|
            admits(p, a, b, c, n) && #[trigger] tried_before(a, b, c, ni, nx, ny) ==> tried_before(
                a,
                b,
                c,
                i,
                x,
                y,
            ),
        forall|a: int, b: int, c: int|
            admits(p, a, b, c, n) && #[trigger] tried_before(a, b, c, i, x, y) ==> tried_before(
                a,
                b,
                c,
                ni,
                nx,
                ny,
            ),
    ensures
        tried(p, n, ni, nx, ny) == tried(p, n, i, x, y),
{
    let before = tried(p, n, i, x, y);
    let after = tried(p, n, ni, nx, ny);
    assert forall|k: Seq<(int, int)>| after.contains(k) <==> before.contains(k) by {
        if after.contains(k) {
            let (a, b, c) = choose|a: int, b: int, c: int|
                admits(p, a, b, c, n) && tried_before(a, b, c, ni, nx, ny) && k == canonical_key(
                    #[trigger] with_cell(p, a, b, c),
                );
            assert(tried_before(a, b, c, i, x, y));
        }
        if before.contains(k) {
            let (a, b, c) = choose|a: int, b: int, c: int|
                admits(p, a, b, c, n) && tried_before(a, b, c, i, x, y) && k == canonical_key(
                    #[trigger] with_cell(p, a, b, c),
                );
            assert(tried_before(a, b, c, ni, nx, ny));
        }
    }
    assert(after =~= before);
}

/// Adds to `keys` every key that `shape` grows to, for shapes of size `n`.
fn add_grown(keys: &mut Vec<Vec<(usize, usize)>>, shape: &[(usize, usize)], n: usize)
    requires
        distinct_keys(old(keys)@),
    ensures
        distinct_keys(final(keys)@),
        forall|key: Seq<(int, int)>|
            keys_of(final(keys)@).contains(key) <==> (keys_of(old(keys)@).contains(key) || grows_to(
                points(shape@),
                n as int,
                key,
            )),
{
    let ghost p = points(shape@);
    let ghost start = keys_of(keys@);
    let mut i: usize = 0;
    proof {
        assert(tried(p, n as int, 0, 0, 0) =~= Set::empty());
        assert(keys_of(keys@) =~= start.union(tried(p, n as int, 0, 0, 0)));
    }
    while i < shape.len()
        invariant
            0 <= i <= shape@.len(),
            p == points(shape@),
            start == keys_of(old(keys)@),
            distinct_keys(keys@),
            keys_of(keys@) == start.union(tried(p, n as int, i as int, 0, 0)),
        decreases shape@.len() - i,
    {
        let (dx, dy) = shape[i];
        assert(p[i as int] == (dx as int, dy as int));
        let mut x: usize = 0;
        while x < n
            invariant
                0 <= i < shape@.len(),
                0 <= x <= n,
                p == points(shape@),
                p[i as int] == (dx as int, dy as int),
                distinct_keys(keys@),
                keys_of(keys@) == start.union(tried(p, n as int, i as int, x as int, 0)),
            decreases n - x,
        {
            let mut y: usize = 0;
            while y < n
                invariant
                    0 <= i < shape@.len(),
                    0 <= x < n,
                    0 <= y <= n,
                    p == points(shape@),
                    p[i as int] == (dx as int, dy as int),
                    distinct_keys(keys@),
                    keys_of(keys@) == start.union(tried(p, n as int, i as int, x as int, y as int)),
                decreases n - y,
            {
                proof {
                    lemma_tried_step(p, n as int, i as int, x as int, y as int);
                }
                if dx < n && x < n - dx && dy < n && y < n - dy {
                    let mut grown_shape = slice_to_vec(shape);
                    grown_shape.push((x + dx, y + dy));
                    assert(points(grown_shape@) =~= with_cell(p, i as int, x as int, y as int));
                    match canonicalize(grown_shape.as_slice()) {
                        Ok(key) => {
                            insert_key(keys, key);
                        },
                        Err(_) => {},
                    }
                    assert(keys_of(keys@) =~= start.union(
                        tried(p, n as int, i as int, x as int, y as int + 1),
                    ));
                }
                y = y + 1;
            }
            proof {
                lemma_tried_skip(p, n as int, i as int, x as int, n as int, i as int, x as int + 1, 0);
            }
            x = x + 1;
        }
        proof {
            lemma_tried_skip(p, n as int, i as int, n as int, 0, i as int + 1, 0, 0);
        }
        i = i + 1;
    }
    proof {
        assert forall|key: Seq<(int, int)>|
            tried(p, n as int, i as int, 0, 0).contains(key) <==> grows_to(p, n as int, key) by {
            if tried(p, n as int, i as int, 0, 0).contains(key) {
                let (a, b, c) = choose|a: int, b: int, c: int|
                    admits(p, a, b, c, n as int) && tried_before(a, b, c, i as int, 0, 0) && key
                        == canonical_key(#[trigger] with_cell(p, a, b, c));
            }
            if grows_to(p, n as int, key) {
                let (a, b, c) = choose|a: int, b: int, c: int|
                    admits(p, a, b, c, n as int) && key == canonical_key(
                        #[trigger] with_cell(p, a, b, c),
                    );
                assert(tried_before(a, b, c, i as int, 0, 0));
            }
        }
    }
}

/// The keys that the shapes of `prev` grow to, for shapes of size `n`, each once.
fn grow(prev: &Vec<Vec<(usize, usize)>>, n: usize) -> (next: Vec<Vec<(usize, usize)>>)
    ensures
        distinct_keys(next@),
        keys_of(next@) == grown(keys_of(prev@), n as int),
{
    let mut next: Vec<Vec<(usize, usize)>> = Vec::new();
    let mut j: usize = 0;
    while j < prev.len()
        invariant
            0 <= j <= prev@.len(),
            distinct_keys(next@),
            forall|key: Seq<(int, int)>|
                keys_of(next@).contains(key) <==> exists|k: int|
                    0 <= k < j && grows_to(points(#[trigger] prev@[k]@), n as int, key),
        decreases prev@.len() - j,
    {
        let ghost before = keys_of(next@);
        add_grown(&mut next, prev[j].as_slice(), n);
        proof {
            assert forall|key: Seq<(int, int)>|
                keys_of(next@).contains(key) <==> exists|k: int|
                    0 <= k < j + 1 && grows_to(points(#[trigger] prev@[k]@), n as int, key) by {
                if keys_of(next@).contains(key) {
                    if before.contains(key) {
                        let k = choose|k: int|
                            0 <= k < j && grows_to(points(#[trigger] prev@[k]@), n as int, key);
                        assert(0 <= k < j + 1);
                    } else {
                        assert(grows_to(points(prev@[j as int]@), n as int, key));
                    }
                }
                if exists|k: int|
                    0 <= k < j + 1 && grows_to(points(#[trigger] prev@[k]@), n as int, key) {
                    let k = choose|k: int|
                        0 <= k < j + 1 && grows_to(points(#[trigger] prev@[k]@), n as int, key);
                    if k < j {
                        assert(before.contains(key));
                    }
                }
            }
        }
        j = j + 1;
    }
    proof {
        assert forall|key: Seq<(int, int)>|
            keys_of(next@).contains(key) <==> grown(keys_of(prev@), n as int).contains(key) by {
            if keys_of(next@).contains(key) {
                let k = choose|k: int|
                    0 <= k < j && grows_to(points(#[trigger] prev@[k]@), n as int, key);
                assert(keys_of(prev@).contains(points(prev@[k]@)));
            }
            if grown(keys_of(prev@), n as int).contains(key) {
                let q = choose|q: Seq<(int, int)>| keys_of(prev@).contains(q) && grows_to(q, n as int, key);
                let k = choose|k: int| 0 <= k < prev@.len() && points(prev@[k]@) == q;
                assert(grows_to(points(prev@[k]@), n as int, key));
            }
        }
        assert(keys_of(next@) =~= grown(keys_of(prev@), n as int));
    }
    next
}

/// All canonical keys of size `n`, each once, in no particular order. Size zero is
/// refused.
pub fn generate_pentominoes(n: usize) -> (result: Result<Vec<Vec<(usize, usize)>>, PolyominoError>)
    ensures
        match result {
            Ok(shapes) => {
                &&& n > 0
                &&& keys_of(shapes@) == shapes_of_size(n as nat)
                &&& distinct_keys(shapes@)
            },
            Err(e) => n == 0 && e == PolyominoError::InvalidSize,
        },
{
    if n == 0 {
        return Err(PolyominoError::InvalidSize);
    }
    let mut single: Vec<(usize, usize)> = Vec::new();
    single.push((0, 0));
    let mut current: Vec<Vec<(usize, usize)>> = Vec::new();
    current.push(single);
    proof {
        assert(points(current@[0]@) =~= seq![(0int, 0int)]);
        assert(keys_of(current@) =~= shapes_of_size(1));
    }
    let mut size: usize = 1;
    while size < n
        invariant
            1 <= size <= n,
            distinct_keys(current@),
            keys_of(current@) == shapes_of_size(size as nat),
        decreases n - size,
    {
        size = size + 1;
        current = grow(&current, size);
    }
    Ok(current)
}

} // verus!
