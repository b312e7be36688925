//! The order in which shapes are told apart: points by column and then row, and
//! sequences of points by their first difference.

use vstd::prelude::*;

verus! {

/// `a` comes before `b`: its column is smaller, or the columns agree and its row is
/// smaller.
pub open spec fn precedes(a: (int, int), b: (int, int)) -> bool {
    a.0 < b.0 || (a.0 == b.0 && a.1 < b.1)
}

/// Every point of `q` comes before all the points after it. Such a sequence holds no
/// point twice.
pub open spec fn ascending(q: Seq<(int, int)>) -> bool {
    forall|i: int, j: int| 0 <= i < j < q.len() ==> precedes(q[i], q[j])
}

/// `a` and `b` agree on their first `k` points.
pub open spec fn agree_before(a: Seq<(int, int)>, b: Seq<(int, int)>, k: int) -> bool {
    &&& 0 <= k <= a.len()
    &&& k <= b.len()
    &&& forall|j: int| 0 <= j < k ==> a[j] == b[j]
}

/// `a` and `b` first differ at `k`, and there `a` ends or holds the earlier point.
pub open spec fn smaller_at(a: Seq<(int, int)>, b: Seq<(int, int)>, k: int) -> bool {
    &&& agree_before(a, b, k)
    &&& k < b.len()
    &&& (k == a.len() || precedes(a[k], b[k]))
}

/// `a` is smaller than `b` in dictionary order over [`precedes`].
pub open spec fn lex_lt(a: Seq<(int, int)>, b: Seq<(int, int)>) -> bool {
    exists|k: int| smaller_at(a, b, k)
}

/// The smaller of `a` and `b`; `a` where neither is smaller.
pub open spec fn lex_min(a: Seq<(int, int)>, b: Seq<(int, int)>) -> Seq<(int, int)> {
    if lex_lt(b, a) {
        b
    } else {
        a
    }
}

/// The ascending sequence that holds exactly the points of `cells`.
pub open spec fn sorted_cells(cells: Set<(int, int)>) -> Seq<(int, int)> {
    choose|q: Seq<(int, int)>| ascending(q) && q.to_set() == cells
}

/// No sequence is smaller than itself.
pub proof fn lemma_lex_irreflexive(a: Seq<(int, int)>)
    ensures
        !lex_lt(a, a),
{
    if lex_lt(a, a) {
        let k = choose|k: int| smaller_at(a, a, k);
        assert(false);
    }
}

/// Of two sequences at most one is smaller than the other.
pub proof fn lemma_lex_asymmetric(a: Seq<(int, int)>, b: Seq<(int, int)>)
    ensures
        !(lex_lt(a, b) && lex_lt(b, a)),
{
    if lex_lt(a, b) && lex_lt(b, a) {
        let k = choose|k: int| smaller_at(a, b, k);
        let m = choose|m: int| smaller_at(b, a, m);
        if k < m {
            assert(b[k] == a[k]);
        } else if m < k {
            assert(a[m] == b[m]);
        }
        assert(false);
    }
}

/// Dictionary order is transitive.
pub proof fn lemma_lex_transitive(a: Seq<(int, int)>, b: Seq<(int, int)>, c: Seq<(int, int)>)
    requires
        lex_lt(a, b),
        lex_lt(b, c),
    ensures
        lex_lt(a, c),
{
    let k = choose|k: int| smaller_at(a, b, k);
    let m = choose|m: int| smaller_at(b, c, m);
    let n = if k <= m {
        k
    } else {
        m
    };
    assert forall|j: int| 0 <= j < n implies a[j] == c[j] by {
        assert(a[j] == b[j]);
        assert(b[j] == c[j]);
    }
    if k < m {
        assert(b[k] == c[k]);
    } else if m < k {
        assert(a[m] == b[m]);
    }
    assert(smaller_at(a, c, n));
}

proof fn lemma_lex_total_from(a: Seq<(int, int)>, b: Seq<(int, int)>, k: int)
    requires
        agree_before(a, b, k),
    ensures
        a == b || lex_lt(a, b) || lex_lt(b, a),
    decreases a.len() - k,
{
    if k == a.len() {
        if k == b.len() {
            assert(a =~= b);
        } else {
            assert(smaller_at(a, b, k));
        }
    } else if k == b.len() {
        assert(smaller_at(b, a, k));
    } else if a[k] == b[k] {
        lemma_lex_total_from(a, b, k + 1);
    } else if precedes(a[k], b[k]) {
        assert(smaller_at(a, b, k));
    } else {
        assert(precedes(b[k], a[k]));
        assert(smaller_at(b, a, k));
    }
}

/// Of two different sequences one is smaller than the other.
pub proof fn lemma_lex_total(a: Seq<(int, int)>, b: Seq<(int, int)>)
    ensures
        a == b || lex_lt(a, b) || lex_lt(b, a),
{
    lemma_lex_total_from(a, b, 0);
}

/// Where two sequences agree up to `k` and one of them ends or they differ there, `k`
/// decides which is smaller.
pub proof fn lemma_lex_decided_at(a: Seq<(int, int)>, b: Seq<(int, int)>, k: int)
    requires
        agree_before(a, b, k),
        k == a.len() || k == b.len() || a[k] != b[k],
    ensures
        lex_lt(a, b) == smaller_at(a, b, k),
{
    if lex_lt(a, b) {
        let m = choose|m: int| smaller_at(a, b, m);
        if m < k {
            assert(a[m] == b[m]);
        } else if k < m {
            assert(a[k] == b[k]);
        }
        assert(m == k);
    }
}

/// Putting a new point into an ascending sequence at its place keeps the sequence
/// ascending and adds that point to the ones it holds.
pub proof fn lemma_ascending_insert(q: Seq<(int, int)>, at: int, c: (int, int))
    requires
        ascending(q),
        0 <= at <= q.len(),
        forall|k: int| 0 <= k < at ==> precedes(q[k], c),
        at < q.len() ==> precedes(c, q[at]),
    ensures
        ascending(q.insert(at, c)),
        q.insert(at, c).to_set() == q.to_set().insert(c),
{
    let r = q.insert(at, c);
    assert forall|i: int, j: int| 0 <= i < j < r.len() implies precedes(r[i], r[j]) by {
        if j < at {
            assert(precedes(q[i], q[j]));
        } else if j == at {
            assert(precedes(q[i], c));
        } else if i < at {
            assert(precedes(q[i], q[j - 1]));
        } else if i == at {
            if j - 1 > at {
                assert(precedes(q[at], q[j - 1]));
            }
        } else {
            assert(precedes(q[i - 1], q[j - 1]));
        }
    }
    assert forall|e: (int, int)| r.to_set().contains(e) <==> q.to_set().insert(c).contains(
        e,
    ) by {
        if r.contains(e) {
            let i = choose|i: int| 0 <= i < r.len() && r[i] == e;
            if i < at {
                assert(q[i] == e);
                assert(q.contains(e));
            } else if i > at {
                assert(q[i - 1] == e);
                assert(q.contains(e));
            }
        }
        if e == c {
            assert(r[at] == c);
            assert(r.contains(e));
        }
        if q.contains(e) {
            let i = choose|i: int| 0 <= i < q.len() && q[i] == e;
            if i < at {
                assert(r[i] == e);
            } else {
                assert(r[i + 1] == e);
            }
            assert(r.contains(e));
        }
    }
    assert(r.to_set() =~= q.to_set().insert(c));
}

/// An ascending sequence is fixed by the points that it holds.
pub proof fn lemma_ascending_unique(p: Seq<(int, int)>, q: Seq<(int, int)>)
    requires
        ascending(p),
        ascending(q),
        p.to_set() == q.to_set(),
    ensures
        p == q,
    decreases p.len(),
{
    if p.len() == 0 {
        if q.len() > 0 {
            assert(q.contains(q[0]));
            assert(q.to_set().contains(q[0]));
            assert(p.to_set().contains(q[0]));
            assert(p.contains(q[0]));
        }
        assert(p =~= q);
    } else if q.len() == 0 {
        assert(p.contains(p[0]));
        assert(p.to_set().contains(p[0]));
        assert(q.to_set().contains(p[0]));
        assert(q.contains(p[0]));
    } else {
        let a = p.last();
        let b = q.last();
        assert(p.contains(a));
        assert(p.to_set().contains(a));
        assert(q.to_set().contains(a));
        assert(q.contains(a));
        let ia = choose|i: int| 0 <= i < q.len() && q[i] == a;
        assert(q.contains(b));
        assert(q.to_set().contains(b));
        assert(p.to_set().contains(b));
        assert(p.contains(b));
        let ib = choose|i: int| 0 <= i < p.len() && p[i] == b;
        if ia < q.len() - 1 {
            assert(precedes(q[ia], q[q.len() - 1]));
        }
        if ib < p.len() - 1 {
            assert(precedes(p[ib], p[p.len() - 1]));
        }
        assert(a == b);
        let p_rest = p.drop_last();
        let q_rest = q.drop_last();
        assert forall|c: (int, int)| p_rest.to_set().contains(c) <==> q_rest.to_set().contains(c) by {
            if p_rest.contains(c) {
                let i = choose|i: int| 0 <= i < p_rest.len() && p_rest[i] == c;
                assert(p[i] == c);
                assert(precedes(p[i], p[p.len() - 1]));
                assert(p.contains(c));
                assert(p.to_set().contains(c));
                assert(q.to_set().contains(c));
                assert(q.contains(c));
                let j = choose|j: int| 0 <= j < q.len() && q[j] == c;
                assert(j < q.len() - 1);
                assert(q_rest[j] == c);
                assert(q_rest.contains(c));
            }
            if q_rest.contains(c) {
                let i = choose|i: int| 0 <= i < q_rest.len() && q_rest[i] == c;
                assert(q[i] == c);
                assert(precedes(q[i], q[q.len() - 1]));
                assert(q.contains(c));
                assert(q.to_set().contains(c));
                assert(p.to_set().contains(c));
                assert(p.contains(c));
                let j = choose|j: int| 0 <= j < p.len() && p[j] == c;
                assert(j < p.len() - 1);
                assert(p_rest[j] == c);
                assert(p_rest.contains(c));
            }
        }
        assert(p_rest.to_set() =~= q_rest.to_set());
        assert(ascending(p_rest)) by {
            assert forall|i: int, j: int| 0 <= i < j < p_rest.len() implies precedes(p_rest[i], p_rest[j]) by {
                assert(precedes(p[i], p[j]));
            }
        }
        assert(ascending(q_rest)) by {
            assert forall|i: int, j: int| 0 <= i < j < q_rest.len() implies precedes(q_rest[i], q_rest[j]) by {
                assert(precedes(q[i], q[j]));
            }
        }
        lemma_ascending_unique(p_rest, q_rest);
        assert(p =~= p_rest.push(a));
        assert(q =~= q_rest.push(b));
    }
}

/// An ascending sequence is the sorted form of the points that it holds.
pub proof fn lemma_sorted_cells_of_ascending(q: Seq<(int, int)>)
    requires
        ascending(q),
    ensures
        sorted_cells(q.to_set()) == q,
{
    let r = sorted_cells(q.to_set());
    assert(ascending(q) && q.to_set() == q.to_set());
    assert(ascending(r) && r.to_set() == q.to_set());
    lemma_ascending_unique(r, q);
}

/// An ascending sequence with one more point: the points of `q` and `c`.
proof fn lemma_ascending_with(q: Seq<(int, int)>, c: (int, int)) -> (r: Seq<(int, int)>)
    requires
        ascending(q),
    ensures
        ascending(r),
        r.to_set() == q.to_set().insert(c),
    decreases q.len(),
{
    if q.len() == 0 {
        let r = seq![c];
        assert(r[0] == c);
        assert forall|e: (int, int)| r.to_set().contains(e) <==> q.to_set().insert(c).contains(
            e,
        ) by {
            if r.contains(e) {
                let i = choose|i: int| 0 <= i < r.len() && r[i] == e;
            }
            if e == c {
                assert(r.contains(e));
            }
            if q.contains(e) {
                let i = choose|i: int| 0 <= i < q.len() && q[i] == e;
            }
        }
        assert(r.to_set() =~= q.to_set().insert(c));
        r
    } else if q.last() == c {
        assert(q.contains(c));
        assert(q.to_set() =~= q.to_set().insert(c));
        q
    } else if precedes(q.last(), c) {
        let r = q.push(c);
        assert forall|i: int, j: int| 0 <= i < j < r.len() implies precedes(r[i], r[j]) by {
            if j < q.len() {
                assert(precedes(q[i], q[j]));
            } else if i < q.len() - 1 {
                assert(precedes(q[i], q[q.len() - 1]));
            }
        }
        assert forall|e: (int, int)| r.to_set().contains(e) <==> q.to_set().insert(c).contains(
            e,
        ) by {
            if r.contains(e) {
                let i = choose|i: int| 0 <= i < r.len() && r[i] == e;
                if i < q.len() {
                    assert(q[i] == e);
                    assert(q.contains(e));
                }
            }
            if e == c {
                assert(r[q.len() as int] == c);
                assert(r.contains(e));
            }
            if q.contains(e) {
                let i = choose|i: int| 0 <= i < q.len() && q[i] == e;
                assert(r[i] == e);
                assert(r.contains(e));
            }
        }
        assert(r.to_set() =~= q.to_set().insert(c));
        r
    } else {
        let q_rest = q.drop_last();
        let top = q.last();
        assert(ascending(q_rest)) by {
            assert forall|i: int, j: int| 0 <= i < j < q_rest.len() implies precedes(q_rest[i], q_rest[j]) by {
                assert(precedes(q[i], q[j]));
            }
        }
        let r_rest = lemma_ascending_with(q_rest, c);
        let r = r_rest.push(top);
        assert(precedes(c, top));
        assert forall|i: int, j: int| 0 <= i < j < r.len() implies precedes(r[i], r[j]) by {
            if j < r_rest.len() {
                assert(precedes(r_rest[i], r_rest[j]));
            } else {
                assert(r_rest.contains(r_rest[i]));
                assert(r_rest.to_set().contains(r_rest[i]));
                if r_rest[i] != c {
                    assert(q_rest.to_set().contains(r_rest[i]));
                    assert(q_rest.contains(r_rest[i]));
                    let k = choose|k: int| 0 <= k < q_rest.len() && q_rest[k] == r_rest[i];
                    assert(precedes(q[k], q[q.len() - 1]));
                }
            }
        }
        assert forall|e: (int, int)| r.to_set().contains(e) <==> q.to_set().insert(c).contains(
            e,
        ) by {
            if r.contains(e) {
                let i = choose|i: int| 0 <= i < r.len() && r[i] == e;
                if i < r_rest.len() {
                    assert(r_rest[i] == e);
                    assert(r_rest.contains(e));
                    assert(r_rest.to_set().contains(e));
                    if e != c {
                        assert(q_rest.to_set().contains(e));
                        assert(q_rest.contains(e));
                        let k = choose|k: int| 0 <= k < q_rest.len() && q_rest[k] == e;
                        assert(q[k] == e);
                        assert(q.contains(e));
                    }
                } else {
                    assert(q[q.len() - 1] == e);
                    assert(q.contains(e));
                }
            }
            if e == c {
                assert(r_rest.to_set().contains(c));
                assert(r_rest.contains(c));
                let k = choose|k: int| 0 <= k < r_rest.len() && r_rest[k] == c;
                assert(r[k] == c);
                assert(r.contains(e));
            }
            if q.contains(e) {
                let i = choose|i: int| 0 <= i < q.len() && q[i] == e;
                if i < q_rest.len() {
                    assert(q_rest[i] == e);
                    assert(q_rest.contains(e));
                    assert(q_rest.to_set().contains(e));
                    assert(r_rest.to_set().contains(e));
                    assert(r_rest.contains(e));
                    let k = choose|k: int| 0 <= k < r_rest.len() && r_rest[k] == e;
                    assert(r[k] == e);
                    assert(r.contains(e));
                } else {
                    assert(r[r_rest.len() as int] == e);
                    assert(r.contains(e));
                }
            }
        }
        assert(r.to_set() =~= q.to_set().insert(c));
        r
    }
}

/// The points of any sequence can be put in ascending order: the sorted form of its set
/// of points is ascending and holds exactly those points.
pub proof fn lemma_sorted_cells_exists(s: Seq<(int, int)>)
    ensures
        ascending(sorted_cells(s.to_set())),
        sorted_cells(s.to_set()).to_set() == s.to_set(),
    decreases s.len(),
{
    if s.len() == 0 {
        let q = Seq::<(int, int)>::empty();
        assert(ascending(q));
        assert(q.to_set() =~= s.to_set());
    } else {
        let s_rest = s.drop_last();
        lemma_sorted_cells_exists(s_rest);
        let q_rest = sorted_cells(s_rest.to_set());
        let q = lemma_ascending_with(q_rest, s.last());
        assert forall|e: (int, int)| s.to_set().contains(e) <==> s_rest.to_set().insert(
            s.last(),
        ).contains(e) by {
            if s.contains(e) {
                let i = choose|i: int| 0 <= i < s.len() && s[i] == e;
                if i < s_rest.len() {
                    assert(s_rest[i] == e);
                    assert(s_rest.contains(e));
                }
            }
            if s_rest.contains(e) {
                let i = choose|i: int| 0 <= i < s_rest.len() && s_rest[i] == e;
                assert(s[i] == e);
                assert(s.contains(e));
            }
            if e == s.last() {
                assert(s[s.len() - 1] == e);
                assert(s.contains(e));
            }
        }
        assert(s.to_set() =~= s_rest.to_set().insert(s.last()));
        assert(ascending(q) && q.to_set() == s.to_set());
    }
}

} // verus!
