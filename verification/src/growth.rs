//! Which canonical keys there are of each size: how a shape grows by one cell, and what
//! holds of every key that comes of it.

use vstd::prelude::*;
use crate::canonical::{
    canonical_key, in_box, lemma_key_idempotent, lemma_key_in_box, lemma_key_of_single_cell,
    lemma_key_same_cells,
};

verus! {

/// The shape `p` with one more cell, `(x, y)` away from its cell `i`.
pub open spec fn with_cell(p: Seq<(int, int)>, i: int, x: int, y: int) -> Seq<(int, int)> {
    p.push((x + p[i].0, y + p[i].1))
}

/// Whether, for shapes of size `n`, the offset `(x, y)` from cell `i` of `p` is tried:
/// the offset is within `0..=n` both ways and the new cell lies in the `n` by `n` box.
pub open spec fn admits(p: Seq<(int, int)>, i: int, x: int, y: int, n: int) -> bool {
    &&& 0 <= i < p.len()
    &&& 0 <= x <= n
    &&& 0 <= y <= n
    &&& x + p[i].0 < n
    &&& y + p[i].1 < n
}

/// `key` is the canonical key of `p` with one more cell at an offset that is tried for
/// shapes of size `n`.
pub open spec fn grows_to(p: Seq<(int, int)>, n: int, key: Seq<(int, int)>) -> bool {
    exists|i: int, x: int, y: int|
        admits(p, i, x, y, n) && key == canonical_key(#[trigger] with_cell(p, i, x, y))
}

/// The keys that the shapes in `keys` grow to, for shapes of size `n`.
pub open spec fn grown(keys: Set<Seq<(int, int)>>, n: int) -> Set<Seq<(int, int)>> {
    Set::new(|key: Seq<(int, int)>| exists|p: Seq<(int, int)>| keys.contains(p) && grows_to(p, n, key))
}

/// The canonical keys of size `n`: the single cell for size one, and for a larger size
/// what the keys of the size before grow to.
pub open spec fn shapes_of_size(n: nat) -> Set<Seq<(int, int)>>
    decreases n,
{
    if n == 0 {
        Set::empty()
    } else if n == 1 {
        set![seq![(0int, 0int)]]
    } else {
        grown(shapes_of_size((n - 1) as nat), n as int)
    }
}

/// Every key of size `n` is canonical: it is its own canonical key.
pub proof fn lemma_generated_are_canonical(n: nat, key: Seq<(int, int)>)
    requires
        shapes_of_size(n).contains(key),
    ensures
        canonical_key(key) == key,
{
    if n == 1 {
        lemma_key_of_single_cell();
    } else {
        let p = choose|p: Seq<(int, int)>|
            shapes_of_size((n - 1) as nat).contains(p) && grows_to(p, n as int, key);
        let (i, x, y) = choose|i: int, x: int, y: int|
            admits(p, i, x, y, n as int) && key == canonical_key(#[trigger] with_cell(p, i, x, y));
        lemma_key_idempotent(with_cell(p, i, x, y));
    }
}

/// Every key of size `n` holds at least one and at most `n` points, all of them in the
/// `n` by `n` box.
pub proof fn lemma_generated_in_box(n: nat, key: Seq<(int, int)>)
    requires
        shapes_of_size(n).contains(key),
    ensures
        0 < key.len() <= n,
        in_box(key, n as int),
    decreases n,
{
    if n == 1 {
        assert(key == seq![(0int, 0int)]);
    } else if n > 1 {
        let p = choose|p: Seq<(int, int)>|
            shapes_of_size((n - 1) as nat).contains(p) && grows_to(p, n as int, key);
        let (i, x, y) = choose|i: int, x: int, y: int|
            admits(p, i, x, y, n as int) && key == canonical_key(#[trigger] with_cell(p, i, x, y));
        lemma_generated_in_box((n - 1) as nat, p);
        let grown_shape = with_cell(p, i, x, y);
        assert forall|k: int| 0 <= k < grown_shape.len() implies 0 <= (
        #[trigger] grown_shape[k]).0 < n && 0 <= grown_shape[k].1 < n by {
            if k < p.len() {
                assert(grown_shape[k] == p[k]);
            }
        }
        lemma_key_in_box(grown_shape, n as int);
    }
}

/// The sizes nest: a key of size `n` is a key of every greater size too, since the new
/// cell may fall on a cell that the shape holds already.
pub proof fn lemma_sizes_nest(n: nat, key: Seq<(int, int)>)
    requires
        shapes_of_size(n).contains(key),
    ensures
        shapes_of_size(n + 1).contains(key),
{
    lemma_generated_in_box(n, key);
    lemma_generated_are_canonical(n, key);
    let same = with_cell(key, 0, 0, 0);
    assert(admits(key, 0, 0, 0, n + 1 as int));
    assert(same.to_set() =~= key.to_set()) by {
        assert forall|c: (int, int)| same.contains(c) <==> key.contains(c) by {
            if same.contains(c) {
                let k = choose|k: int| 0 <= k < same.len() && same[k] == c;
                if k < key.len() {
                    assert(key[k] == c);
                } else {
                    assert(key[0] == c);
                }
            }
            if key.contains(c) {
                let k = choose|k: int| 0 <= k < key.len() && key[k] == c;
                assert(same[k] == c);
            }
        }
    }
    lemma_key_same_cells(same, key);
    assert(grows_to(key, n + 1 as int, key));
    assert(grown(shapes_of_size(n), n + 1 as int).contains(key));
}

} // verus!
