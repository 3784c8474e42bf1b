//! Intersection of sorted id lists, the AND of a conjunctive query.

use vstd::prelude::*;
use crate::codec::is_nondecreasing;

verus! {

/// The merge walk over `a` and `b`: drop the smaller head, keep a head that both share.
pub open spec fn intersect_spec(a: Seq<u32>, b: Seq<u32>) -> Seq<u32>
    decreases a.len() + b.len(),
{
    if a.len() == 0 || b.len() == 0 {
        seq![]
    } else if a[0] < b[0] {
        intersect_spec(a.drop_first(), b)
    } else if a[0] > b[0] {
        intersect_spec(a, b.drop_first())
    } else {
        seq![a[0]] + intersect_spec(a.drop_first(), b.drop_first())
    }
}

/// `s` is strictly increasing.
pub open spec fn is_increasing(s: Seq<u32>) -> bool {
    forall|i: int, j: int| 0 <= i < j < s.len() ==> s[i] < s[j]
}

proof fn lemma_drop_first_sorted(s: Seq<u32>)
    requires
        s.len() > 0,
    ensures
        is_nondecreasing(s) ==> is_nondecreasing(s.drop_first()),
        is_increasing(s) ==> is_increasing(s.drop_first()),
        is_nondecreasing(s) ==> forall|x: u32| s.drop_first().contains(x) ==> s[0] <= x,
{
    assert forall|x: u32| is_nondecreasing(s) && s.drop_first().contains(x) implies s[0] <= x by {
        let k = choose|k: int| 0 <= k < s.drop_first().len() && s.drop_first()[k] == x;
        assert(s[k + 1] == x);
    }
}

proof fn lemma_head_not_in(a0: u32, b: Seq<u32>)
    requires
        is_nondecreasing(b),
        b.len() > 0,
        a0 < b[0],
    ensures
        !b.contains(a0),
{
    if b.contains(a0) {
        let k = choose|k: int| 0 <= k < b.len() && b[k] == a0;
        assert(b[0] <= b[k]);
    }
}

/// Intersecting sorted lists: on nondecreasing inputs the result is nondecreasing and
/// holds exactly the values found in both inputs; on strictly increasing inputs it is
/// strictly increasing.
pub proof fn lemma_intersect_sorted(a: Seq<u32>, b: Seq<u32>)
    ensures
        is_nondecreasing(a) && is_nondecreasing(b) ==> is_nondecreasing(intersect_spec(a, b))
            && (forall|x: u32|
            #![trigger intersect_spec(a, b).contains(x)]
            intersect_spec(a, b).contains(x) <==> a.contains(x) && b.contains(x)),
        is_increasing(a) && is_increasing(b) ==> is_increasing(intersect_spec(a, b)),
        forall|k: int| 0 <= k < intersect_spec(a, b).len() ==> a.contains(#[trigger] intersect_spec(a, b)[k]),
    decreases a.len() + b.len(),
{
    let r = intersect_spec(a, b);
    if a.len() == 0 || b.len() == 0 {
        assert(r.len() == 0);
    } else {
        lemma_drop_first_sorted(a);
        lemma_drop_first_sorted(b);
        if a[0] < b[0] {
            lemma_intersect_sorted(a.drop_first(), b);
            if is_nondecreasing(a) && is_nondecreasing(b) {
                lemma_head_not_in(a[0], b);
                assert forall|x: u32| r.contains(x) <==> a.contains(x) && b.contains(x) by {
                    if a.contains(x) && x != a[0] {
                        let k = choose|k: int| 0 <= k < a.len() && a[k] == x;
                        assert(a.drop_first()[k - 1] == x);
                    }
                    if a.drop_first().contains(x) {
                        let k = choose|k: int|
                            0 <= k < a.drop_first().len() && a.drop_first()[k] == x;
                        assert(a[k + 1] == x);
                    }
                }
            }
            assert forall|k: int| 0 <= k < r.len() implies a.contains(#[trigger] r[k]) by {
                assert(r == intersect_spec(a.drop_first(), b));
                assert(a.drop_first().contains(r[k]));
                let q = choose|q: int| 0 <= q < a.drop_first().len() && a.drop_first()[q] == r[k];
                assert(a[q + 1] == r[k]);
            }
        } else if a[0] > b[0] {
            lemma_intersect_sorted(a, b.drop_first());
            if is_nondecreasing(a) && is_nondecreasing(b) {
                lemma_head_not_in(b[0], a);
                assert forall|x: u32| r.contains(x) <==> a.contains(x) && b.contains(x) by {
                    if b.contains(x) && x != b[0] {
                        let k = choose|k: int| 0 <= k < b.len() && b[k] == x;
                        assert(b.drop_first()[k - 1] == x);
                    }
                    if b.drop_first().contains(x) {
                        let k = choose|k: int|
                            0 <= k < b.drop_first().len() && b.drop_first()[k] == x;
                        assert(b[k + 1] == x);
                    }
                }
            }
        } else {
            let t = intersect_spec(a.drop_first(), b.drop_first());
            lemma_intersect_sorted(a.drop_first(), b.drop_first());
            assert(r == seq![a[0]] + t);
            assert forall|k: int| 0 <= k < r.len() implies a.contains(#[trigger] r[k]) by {
                if k > 0 {
                    assert(r[k] == t[k - 1]);
                    assert(a.drop_first().contains(t[k - 1]));
                    let q = choose|q: int|
                        0 <= q < a.drop_first().len() && a.drop_first()[q] == r[k];
                    assert(a[q + 1] == r[k]);
                } else {
                    assert(a[0] == r[0]);
                }
            }
            if is_nondecreasing(a) && is_nondecreasing(b) {
                assert forall|x: u32| r.contains(x) <==> a.contains(x) && b.contains(x) by {
                    if r.contains(x) && x != a[0] {
                        let k = choose|k: int| 0 <= k < r.len() && r[k] == x;
                        assert(t[k - 1] == x);
                        assert(t.contains(x));
                        let ka = choose|ka: int|
                            0 <= ka < a.drop_first().len() && a.drop_first()[ka] == x;
                        assert(a[ka + 1] == x);
                        let kb = choose|kb: int|
                            0 <= kb < b.drop_first().len() && b.drop_first()[kb] == x;
                        assert(b[kb + 1] == x);
                    }
                    if r.contains(x) && x == a[0] {
                        assert(a[0] == b[0]);
                        assert(a.contains(x) && b.contains(x));
                    }
                    if a.contains(x) && b.contains(x) {
                        if x == a[0] {
                            assert(r[0] == x);
                        } else {
                            let ka = choose|ka: int| 0 <= ka < a.len() && a[ka] == x;
                            let kb = choose|kb: int| 0 <= kb < b.len() && b[kb] == x;
                            assert(ka > 0 && kb > 0);
                            assert(a.drop_first()[ka - 1] == x);
                            assert(b.drop_first()[kb - 1] == x);
                            assert(t.contains(x));
                            let kt = choose|kt: int| 0 <= kt < t.len() && t[kt] == x;
                            assert(r[kt + 1] == x);
                        }
                    }
                }
                assert forall|i: int, j: int| 0 <= i <= j < r.len() implies r[i] <= r[j] by {
                    if i > 0 {
                        assert(r[i] == t[i - 1] && r[j] == t[j - 1]);
                    } else if j > 0 {
                        assert(r[j] == t[j - 1]);
                        assert(a.drop_first().contains(t[j - 1]));
                    }
                }
            }
            if is_increasing(a) && is_increasing(b) {
                assert forall|i: int, j: int| 0 <= i < j < r.len() implies r[i] < r[j] by {
                    if i > 0 {
                        assert(r[i] == t[i - 1] && r[j] == t[j - 1]);
                    } else {
                        assert(r[j] == t[j - 1]);
                        assert(a.drop_first().contains(t[j - 1]));
                        let q = choose|q: int|
                            0 <= q < a.drop_first().len() && a.drop_first()[q] == r[j];
                        assert(a[q + 1] == r[j]);
                    }
                }
            }
        }
    }
}

/// Intersection of two sorted id lists by a merge walk.
pub fn intersect_sorted(a: &[u32], b: &[u32]) -> (result: Vec<u32>)
    ensures
        result@ == intersect_spec(a@, b@),
        is_nondecreasing(a@) && is_nondecreasing(b@) ==> is_nondecreasing(result@) && (forall|
            x: u32,
        | #[trigger] result@.contains(x) <==> a@.contains(x) && b@.contains(x)),
        is_increasing(a@) && is_increasing(b@) ==> is_increasing(result@),
{
    proof {
        lemma_intersect_sorted(a@, b@);
    }
    let mut result: Vec<u32> = Vec::new();
    let mut i: usize = 0;
    let mut j: usize = 0;
    assert(a@.subrange(0, a.len() as int) =~= a@);
    assert(b@.subrange(0, b.len() as int) =~= b@);
    assert(result@ + intersect_spec(a@, b@) =~= intersect_spec(a@, b@));
    while i < a.len() && j < b.len()
        invariant
            i <= a.len(),
            j <= b.len(),
            intersect_spec(a@, b@) == result@ + intersect_spec(
                a@.subrange(i as int, a.len() as int),
                b@.subrange(j as int, b.len() as int),
            ),
        decreases a.len() - i + b.len() - j,
    {
        let ghost sa = a@.subrange(i as int, a.len() as int);
        let ghost sb = b@.subrange(j as int, b.len() as int);
        assert(sa.drop_first() =~= a@.subrange(i + 1, a.len() as int));
        assert(sb.drop_first() =~= b@.subrange(j + 1, b.len() as int));
        if a[i] < b[j] {
            i += 1;
        } else if a[i] > b[j] {
            j += 1;
        } else {
            let ghost before = result@;
            result.push(a[i]);
            assert(before + (seq![sa[0]] + intersect_spec(sa.drop_first(), sb.drop_first()))
                =~= result@ + intersect_spec(sa.drop_first(), sb.drop_first()));
            i += 1;
            j += 1;
        }
    }
    assert(result@ + seq![] =~= result@);
    result
}

proof fn lemma_increasing_members_equal(x: Seq<u32>, y: Seq<u32>)
    requires
        is_increasing(x),
        is_increasing(y),
        forall|v: u32| x.contains(v) <==> y.contains(v),
    ensures
        x == y,
    decreases x.len(),
{
    if x.len() == 0 {
        if y.len() > 0 {
            assert(y.contains(y[0]));
        }
        assert(x =~= y);
    } else {
        assert(x.contains(x[0]));
        if y.len() == 0 {
            assert(false);
        }
        assert(y.contains(y[0]));
        let a = choose|k: int| 0 <= k < y.len() && y[k] == x[0];
        let b = choose|k: int| 0 <= k < x.len() && x[k] == y[0];
        assert(x[0] <= x[b]);
        assert(y[0] <= y[a]);
        assert(x[0] == y[0]);
        let xt = x.drop_first();
        let yt = y.drop_first();
        assert forall|v: u32| xt.contains(v) <==> yt.contains(v) by {
            if xt.contains(v) {
                let k = choose|k: int| 0 <= k < xt.len() && xt[k] == v;
                assert(x[k + 1] == v && x[0] < x[k + 1]);
                assert(x.contains(v));
                let m = choose|m: int| 0 <= m < y.len() && y[m] == v;
                assert(m != 0);
                assert(yt[m - 1] == v);
            }
            if yt.contains(v) {
                let k = choose|k: int| 0 <= k < yt.len() && yt[k] == v;
                assert(y[k + 1] == v && y[0] < y[k + 1]);
                assert(y.contains(v));
                let m = choose|m: int| 0 <= m < x.len() && x[m] == v;
                assert(m != 0);
                assert(xt[m - 1] == v);
            }
        }
        lemma_increasing_members_equal(xt, yt);
        assert(x =~= seq![x[0]] + xt);
        assert(y =~= seq![y[0]] + yt);
    }
}

/// Intersecting strictly increasing lists does not depend on grouping: intersecting
/// `a` with `b` and then with `c` gives what intersecting `a` with the intersection
/// of `b` and `c` gives.
pub proof fn lemma_intersect_associative(a: Seq<u32>, b: Seq<u32>, c: Seq<u32>)
    requires
        is_increasing(a),
        is_increasing(b),
        is_increasing(c),
    ensures
        intersect_spec(intersect_spec(a, b), c) == intersect_spec(a, intersect_spec(b, c)),
{
    assert(is_nondecreasing(a) && is_nondecreasing(b) && is_nondecreasing(c));
    let ab = intersect_spec(a, b);
    let bc = intersect_spec(b, c);
    lemma_intersect_sorted(a, b);
    lemma_intersect_sorted(b, c);
    lemma_intersect_sorted(ab, c);
    lemma_intersect_sorted(a, bc);
    let left = intersect_spec(ab, c);
    let right = intersect_spec(a, bc);
    assert forall|v: u32| left.contains(v) <==> right.contains(v) by {
        assert(left.contains(v) == (ab.contains(v) && c.contains(v)));
        assert(ab.contains(v) == (a.contains(v) && b.contains(v)));
        assert(right.contains(v) == (a.contains(v) && bc.contains(v)));
        assert(bc.contains(v) == (b.contains(v) && c.contains(v)));
    }
    lemma_increasing_members_equal(left, right);
}

} // verus!
