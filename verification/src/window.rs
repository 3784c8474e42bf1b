//! Proximity scoring: the smallest stretch of a document that holds at least one
//! occurrence of every query term.

use vstd::prelude::*;
use crate::codec::is_nondecreasing;

verus! {

/// Minimum of the first `n` values, starting from `u32::MAX`.
pub open spec fn prefix_min(v: Seq<int>, n: nat) -> int
    decreases n,
{
    if n == 0 {
        u32::MAX as int
    } else {
        let m = prefix_min(v, (n - 1) as nat);
        if v[n - 1] < m {
            v[n - 1]
        } else {
            m
        }
    }
}

/// Maximum of the first `n` values, starting from 0.
pub open spec fn prefix_max(v: Seq<int>, n: nat) -> int
    decreases n,
{
    if n == 0 {
        0
    } else {
        let m = prefix_max(v, (n - 1) as nat);
        if v[n - 1] > m {
            v[n - 1]
        } else {
            m
        }
    }
}

/// Index of the first minimum among the first `n` values (0 when `n` is 0).
pub open spec fn prefix_argmin(v: Seq<int>, n: nat) -> int
    decreases n,
{
    if n == 0 {
        0
    } else if v[n - 1] < prefix_min(v, (n - 1) as nat) {
        n - 1
    } else {
        prefix_argmin(v, (n - 1) as nat)
    }
}

/// The position that each list's cursor points at.
pub open spec fn pointed(lists: Seq<Seq<u32>>, idx: Seq<int>) -> Seq<int> {
    Seq::new(lists.len(), |i: int| lists[i][idx[i]] as int)
}

/// Size of the stretch from the smallest to the largest pointed position, both included.
pub open spec fn window(lists: Seq<Seq<u32>>, idx: Seq<int>) -> int {
    let v = pointed(lists, idx);
    prefix_max(v, lists.len()) - prefix_min(v, lists.len()) + 1
}

/// Some cursor is past the end of its list.
pub open spec fn exhausted(lists: Seq<Seq<u32>>, idx: Seq<int>) -> bool {
    exists|i: int| 0 <= i < lists.len() && idx[i] >= lists[i].len()
}

/// Entries not yet passed by the cursors of the first `n` lists.
pub open spec fn remaining(lists: Seq<Seq<u32>>, idx: Seq<int>, n: nat) -> int
    decreases n,
{
    if n == 0 {
        0
    } else {
        remaining(lists, idx, (n - 1) as nat) + (lists[n - 1].len() - idx[n - 1])
    }
}

/// Advancing one cursor leaves one position fewer to visit.
pub proof fn lemma_remaining_step(lists: Seq<Seq<u32>>, idx: Seq<int>, m: int, n: nat)
    requires
        0 <= m < idx.len(),
        n <= idx.len(),
    ensures
        remaining(lists, idx.update(m, idx[m] + 1), n) == remaining(lists, idx, n) - (if m < n {
            1int
        } else {
            0int
        }),
    decreases n,
{
    if n > 0 {
        lemma_remaining_step(lists, idx, m, (n - 1) as nat);
    }
}

/// While no cursor is past its list, the count of positions left to visit is not negative.
pub proof fn lemma_remaining_nonneg(lists: Seq<Seq<u32>>, idx: Seq<int>, n: nat)
    requires
        n <= lists.len(),
        forall|i: int| 0 <= i < n ==> idx[i] <= lists[i].len(),
    ensures
        remaining(lists, idx, n) >= 0,
    decreases n,
{
    if n > 0 {
        lemma_remaining_nonneg(lists, idx, (n - 1) as nat);
    }
}

/// The sweep over `lists` from cursors `idx` with best window so far `best`: while no
/// cursor is past its list, take the window of the pointed positions, keep the
/// smaller of it and `best`, and advance the cursor of the first list holding the
/// smallest pointed position (no lists: `best`). `None` when a window does not fit in a `u32`.
pub open spec fn sweep(lists: Seq<Seq<u32>>, idx: Seq<int>, best: int) -> Option<int>
    decreases remaining(lists, idx, lists.len()),
    when idx.len() == lists.len()
{
    if lists.len() == 0 || exhausted(lists, idx) {
        Some(best)
    } else {
        let w = window(lists, idx);
        if w > u32::MAX {
            None
        } else {
            let m = prefix_argmin(pointed(lists, idx), lists.len());
            proof {
                lemma_argmin_range(pointed(lists, idx), lists.len());
                lemma_remaining_step(lists, idx, m, lists.len());
                lemma_remaining_nonneg(lists, idx.update(m, idx[m] + 1), lists.len());
            }
            sweep(lists, idx.update(m, idx[m] + 1), if w < best { w } else { best })
        }
    }
}

/// The first smallest of `n > 0` values stands among them.
pub proof fn lemma_argmin_range(v: Seq<int>, n: nat)
    ensures
        n > 0 ==> 0 <= prefix_argmin(v, n) < n,
    decreases n,
{
    if n > 0 {
        lemma_argmin_range(v, (n - 1) as nat);
        if n == 1 {
            assert(prefix_argmin(v, 0) == 0);
        }
    }
}

/// All cursors at the start of their lists.
pub open spec fn start_cursors(k: nat) -> Seq<int> {
    Seq::new(k, |i: int| 0int)
}

/// What the window search returns for `lists`: 0 for no lists, otherwise the best
/// window the sweep finds, with `u32::MAX` (nothing better found) reported as 0.
/// `None` when the sweep meets a window that does not fit in a `u32`.
pub open spec fn min_window_result(lists: Seq<Seq<u32>>) -> Option<u32> {
    if lists.len() == 0 {
        Some(0)
    } else {
        match sweep(lists, start_cursors(lists.len()), u32::MAX as int) {
            Some(b) => Some(
                if b == u32::MAX {
                    0u32
                } else {
                    b as u32
                },
            ),
            None => None,
        }
    }
}

/// The lists held by a vector of vectors.
pub open spec fn lists_view<T>(l: Seq<Vec<T>>) -> Seq<Seq<T>> {
    l.map_values(|v: Vec<T>| v@)
}


proof fn lemma_prefix_bounds(v: Seq<int>, n: nat)
    requires
        n <= v.len(),
        forall|i: int| 0 <= i < n ==> 0 <= #[trigger] v[i] <= u32::MAX,
    ensures
        forall|i: int| 0 <= i < n ==> prefix_min(v, n) <= #[trigger] v[i] <= prefix_max(v, n),
        0 <= prefix_min(v, n) <= u32::MAX,
        0 <= prefix_max(v, n) <= u32::MAX,
        n > 0 ==> prefix_min(v, n) == v[prefix_argmin(v, n)],
        n > 0 ==> 0 <= prefix_argmin(v, n) < n,
    decreases n,
{
    lemma_argmin_range(v, n);
    if n > 0 {
        lemma_prefix_bounds(v, (n - 1) as nat);
        if n == 1 {
            assert(prefix_argmin(v, 0) == 0);
        }
    }
}

/// Cursors held as machine indices, read as integers.
pub open spec fn cursor_view(s: Seq<usize>) -> Seq<int> {
    s.map_values(|x: usize| x as int)
}

/// Size of the smallest stretch of positions that holds at least one position from
/// every list (the smallest range over K sorted lists). Returns 0 when there are no
/// lists, when some list is empty, or when the smallest stretch is `u32::MAX` long.
pub fn calculate_min_window(term_positions: &Vec<Vec<u32>>) -> (w: u32)
    requires
        min_window_result(lists_view(term_positions@)) is Some,
    ensures
        Some(w) == min_window_result(lists_view(term_positions@)),
        !no_empty_list(lists_view(term_positions@)) ==> w == 0,
        lists_sorted(lists_view(term_positions@)) && no_empty_list(lists_view(term_positions@))
            && term_positions.len() > 0 ==> is_min_window(
            lists_view(term_positions@),
            if w == 0 {
                u32::MAX as int
            } else {
                w as int
            },
        ),
{
    let ghost lists = lists_view(term_positions@);
    proof {
        if lists.len() > 0 {
            if lists_sorted(lists) && no_empty_list(lists) {
                lemma_min_window_is_smallest(lists);
            }
            if !no_empty_list(lists) {
                let j = choose|j: int| 0 <= j < lists.len() && !(#[trigger] lists[j].len() > 0);
                let start = start_cursors(lists.len());
                assert(start[j] >= lists[j].len());
                assert(exhausted(lists, start));
                assert(min_window_result(lists) == Some(0u32));
            }
        }
    }
    match try_min_window(term_positions) {
        Some(w) => w,
        None => 0,
    }
}

/// The window search as `calculate_min_window` runs it, or `None` where a window
/// spans more than `u32::MAX` positions (where `calculate_min_window` would overflow).
pub fn try_min_window(term_positions: &Vec<Vec<u32>>) -> (w: Option<u32>)
    ensures
        w == min_window_result(lists_view(term_positions@)),
{
    let ghost lists = lists_view(term_positions@);
    if term_positions.len() == 0 {
        return Some(0);
    }
    let k = term_positions.len();
    let mut indices: Vec<usize> = Vec::new();
    while indices.len() < k
        invariant
            indices.len() <= k,
            forall|j: int| 0 <= j < indices.len() ==> indices@[j] == 0,
        decreases k - indices.len(),
    {
        indices.push(0);
    }
    assert(cursor_view(indices@) =~= start_cursors(k as nat));
    let mut min_window: u32 = u32::MAX;
    let ghost total = sweep(lists, start_cursors(k as nat), u32::MAX as int);
    loop
        invariant
            k == term_positions.len(),
            k > 0,
            lists == lists_view(term_positions@),
            lists.len() == k,
            indices.len() == k,
            total == min_window_result_sweep(lists),
            sweep(lists, cursor_view(indices@), min_window as int) == total,
        ensures
            exhausted(lists, cursor_view(indices@)),
        decreases remaining(lists, cursor_view(indices@), k as nat),
    {
        let ghost idx = cursor_view(indices@);
        let ghost v = pointed(lists, idx);
        let mut current_min: u32 = u32::MAX;
        let mut current_max: u32 = 0;
        let mut min_list_idx: usize = 0;
        let mut i: usize = 0;
        while i < k
            invariant
                k == term_positions.len(),
                indices.len() == k,
                idx == cursor_view(indices@),
                v == pointed(lists, idx),
                lists == lists_view(term_positions@),
                lists.len() == k,
                i <= k,
                current_min == prefix_min(v, i as nat),
                current_max == prefix_max(v, i as nat),
                min_list_idx == prefix_argmin(v, i as nat),
                sweep(lists, idx, min_window as int) == total,
                total == min_window_result_sweep(lists),
                forall|j: int| 0 <= j < i ==> idx[j] < lists[j].len(),

            decreases k - i,
        {
            let list = &term_positions[i];
            assert(lists[i as int] == list@);
            if indices[i] >= list.len() {
                assert(exhausted(lists, idx)) by {
                    assert(idx[i as int] >= lists[i as int].len());
                }
                assert(idx.len() == lists.len());
                assert(sweep(lists, idx, min_window as int) == Some(min_window as int));
                return Some(
                    if min_window == u32::MAX {
                        0
                    } else {
                        min_window
                    },
                );
            }
            let pos = list[indices[i]];
            assert(v[i as int] == pos);
            if pos < current_min {
                current_min = pos;
                min_list_idx = i;
            }
            if pos > current_max {
                current_max = pos;
            }
            i += 1;
        }
        proof {
            assert(!exhausted(lists, idx));
            assert forall|j: int| 0 <= j < k implies 0 <= #[trigger] v[j] <= u32::MAX by {
                assert(v[j] == lists[j][idx[j]] as int);
            }
            lemma_prefix_bounds(v, k as nat);
            assert(v[0] == v[0]);
        }
        if current_max - current_min == u32::MAX {
            assert(window(lists, idx) > u32::MAX);
            assert(sweep(lists, idx, min_window as int) is None);
            return None;
        }
        let window_size = current_max - current_min + 1;
        let ghost old_best = min_window;
        if window_size < min_window {
            min_window = window_size;
        }
        let m = min_list_idx;
        proof {
            lemma_remaining_step(lists, idx, m as int, k as nat);
            lemma_remaining_nonneg(lists, idx.update(m as int, idx[m as int] + 1), k as nat);
            assert(lists[m as int].len() == term_positions@[m as int].len());
        }
        let next = indices[m] + 1;
        indices.set(m, next);
        assert(cursor_view(indices@) =~= idx.update(m as int, idx[m as int] + 1));
        assert(idx.len() == lists.len());
        assert(sweep(lists, idx, old_best as int) == sweep(
            lists,
            cursor_view(indices@),
            min_window as int,
        ));
        if indices[m] >= term_positions[m].len() {
            assert(exhausted(lists, cursor_view(indices@))) by {
                assert(cursor_view(indices@)[m as int] >= lists[m as int].len());
            }
            break;
        }
    }
    Some(
        if min_window == u32::MAX {
            0
        } else {
            min_window
        },
    )
}


/// The sweep from all cursors at the start with no window found yet.
pub open spec fn min_window_result_sweep(lists: Seq<Seq<u32>>) -> Option<int> {
    sweep(lists, start_cursors(lists.len()), u32::MAX as int)
}


/// `c` picks one entry from every list.
pub open spec fn valid_choice(lists: Seq<Seq<u32>>, c: Seq<int>) -> bool {
    &&& c.len() == lists.len()
    &&& forall|i: int| 0 <= i < lists.len() ==> 0 <= #[trigger] c[i] < lists[i].len()
}

/// `w` is the smallest window over all ways of picking one entry from every list.
pub open spec fn is_min_window(lists: Seq<Seq<u32>>, w: int) -> bool {
    &&& exists|c: Seq<int>| valid_choice(lists, c) && #[trigger] window(lists, c) == w
    &&& forall|c: Seq<int>| #[trigger] valid_choice(lists, c) ==> window(lists, c) >= w
}

/// Every list is sorted in nondecreasing order.
pub open spec fn lists_sorted(lists: Seq<Seq<u32>>) -> bool {
    forall|i: int| 0 <= i < lists.len() ==> is_nondecreasing(#[trigger] lists[i])
}

/// No list is empty.
pub open spec fn no_empty_list(lists: Seq<Seq<u32>>) -> bool {
    forall|i: int| 0 <= i < lists.len() ==> #[trigger] lists[i].len() > 0
}

/// `c` picks, in some list, an entry that the cursors have already passed.
pub open spec fn passed(c: Seq<int>, idx: Seq<int>) -> bool {
    exists|j: int| 0 <= j < c.len() && #[trigger] c[j] < idx[j]
}

/// Every pick that uses an already passed entry is no smaller than `best`.
pub open spec fn passed_bound(lists: Seq<Seq<u32>>, idx: Seq<int>, best: int) -> bool {
    forall|c: Seq<int>|
        #[trigger] valid_choice(lists, c) && passed(c, idx) ==> window(lists, c) >= best
}

proof fn lemma_prefix_max_mono(a: Seq<int>, b: Seq<int>, n: nat)
    requires
        n <= a.len(),
        n <= b.len(),
        forall|i: int| 0 <= i < n ==> a[i] <= b[i],
    ensures
        prefix_max(a, n) <= prefix_max(b, n),
    decreases n,
{
    if n > 0 {
        lemma_prefix_max_mono(a, b, (n - 1) as nat);
    }
}

proof fn lemma_pointed_bounds(lists: Seq<Seq<u32>>, c: Seq<int>)
    ensures
        forall|i: int|
            0 <= i < lists.len() ==> 0 <= #[trigger] pointed(lists, c)[i] <= u32::MAX,
{
    assert forall|i: int| 0 <= i < lists.len() implies 0 <= #[trigger] pointed(lists, c)[i]
        <= u32::MAX by {
        assert(pointed(lists, c)[i] == lists[i][c[i]] as int);
    }
}

proof fn lemma_sweep_finds_min(lists: Seq<Seq<u32>>, idx: Seq<int>, best: int)
    requires
        lists.len() > 0,
        lists_sorted(lists),
        no_empty_list(lists),
        idx.len() == lists.len(),
        forall|i: int| 0 <= i < lists.len() ==> 0 <= #[trigger] idx[i] <= lists[i].len(),
        0 <= best <= u32::MAX,
        passed_bound(lists, idx, best),
        (best == u32::MAX && idx == start_cursors(lists.len())) || (exists|c: Seq<int>|
            valid_choice(lists, c) && #[trigger] window(lists, c) == best),
        sweep(lists, idx, best) is Some,
    ensures
        is_min_window(lists, sweep(lists, idx, best).unwrap()),
    decreases remaining(lists, idx, lists.len()),
{
    let k = lists.len();
    if exhausted(lists, idx) {
        let j = choose|j: int| 0 <= j < lists.len() && idx[j] >= lists[j].len();
        assert(lists[j].len() > 0);
        assert(idx != start_cursors(k)) by {
            assert(start_cursors(k)[j] == 0);
        }
        assert forall|c: Seq<int>| #[trigger] valid_choice(lists, c) implies window(lists, c)
            >= best by {
            assert(c[j] < idx[j]);
            assert(passed(c, idx));
        }
    } else {
        let v = pointed(lists, idx);
        let w = window(lists, idx);
        let m = prefix_argmin(v, k);
        lemma_pointed_bounds(lists, idx);
        lemma_prefix_bounds(v, k);
        let idx2 = idx.update(m, idx[m] + 1);
        let best2 = if w < best {
            w
        } else {
            best
        };
        assert(valid_choice(lists, idx));
        assert(w <= u32::MAX);
        assert(exists|c: Seq<int>| valid_choice(lists, c) && #[trigger] window(lists, c) == best2)
            by {
            if w < best {
                assert(window(lists, idx) == best2);
            } else if idx == start_cursors(k) && best == u32::MAX {
                assert(window(lists, idx) == best2);
            }
        }
        assert forall|c: Seq<int>| #[trigger]
            valid_choice(lists, c) && passed(c, idx2) implies window(lists, c) >= best2 by {
            if passed(c, idx) {
            } else {
                let j = choose|j: int| 0 <= j < c.len() && #[trigger] c[j] < idx2[j];
                assert(j == m) by {
                    if j != m {
                        assert(c[j] < idx[j]);
                    }
                }
                assert forall|i: int| 0 <= i < k implies #[trigger] c[i] >= idx[i] by {
                    if c[i] < idx[i] {
                        assert(passed(c, idx));
                    }
                }
                let vc = pointed(lists, c);
                assert forall|i: int| 0 <= i < k implies v[i] <= vc[i] by {
                    assert(is_nondecreasing(lists[i]));
                    assert(c[i] >= idx[i]);
                    assert(lists[i][idx[i]] <= lists[i][c[i]]);
                }
                lemma_prefix_max_mono(v, vc, k);
                lemma_pointed_bounds(lists, c);
                lemma_prefix_bounds(vc, k);
                assert(c[m] == idx[m]);
                assert(vc[m] == v[m]);
                assert(prefix_min(vc, k) <= vc[m]);
            }
        }
        assert forall|i: int| 0 <= i < lists.len() implies 0 <= #[trigger] idx2[i]
            <= lists[i].len() by {
            if i == m {
            } else {
                assert(idx2[i] == idx[i]);
            }
        }
        assert(idx2 != start_cursors(k)) by {
            assert(idx2[m] >= 1);
        }
        assert(sweep(lists, idx, best) == sweep(lists, idx2, best2));
        lemma_remaining_step(lists, idx, m, k);
        lemma_remaining_nonneg(lists, idx2, k);
        lemma_sweep_finds_min(lists, idx2, best2);
    }
}

/// On sorted, nonempty lists the window search finds the smallest window: the result
/// (with 0 read as `u32::MAX`) is the least window over all ways of picking one
/// position from every list.
pub proof fn lemma_min_window_is_smallest(lists: Seq<Seq<u32>>)
    requires
        lists.len() > 0,
        lists_sorted(lists),
        no_empty_list(lists),
        min_window_result(lists) is Some,
    ensures
        is_min_window(
            lists,
            if min_window_result(lists).unwrap() == 0 {
                u32::MAX as int
            } else {
                min_window_result(lists).unwrap() as int
            },
        ),
{
    let start = start_cursors(lists.len());
    assert forall|c: Seq<int>| #[trigger]
        valid_choice(lists, c) && passed(c, start) implies window(lists, c) >= u32::MAX by {
        let j = choose|j: int| 0 <= j < c.len() && #[trigger] c[j] < start[j];
        assert(c[j] >= 0);
    }
    lemma_sweep_finds_min(lists, start, u32::MAX as int);
    let b = sweep(lists, start, u32::MAX as int).unwrap();
    assert(b <= u32::MAX) by {
        let c = choose|c: Seq<int>| valid_choice(lists, c) && #[trigger] window(lists, c) == b;
        assert(valid_choice(lists, start)) by {
            assert forall|i: int| 0 <= i < lists.len() implies 0 <= #[trigger] start[i]
                < lists[i].len() by {
                assert(lists[i].len() > 0);
            }
        }
    }
}


/// Every position of every list is below `u32::MAX`.
pub open spec fn positions_below_max(lists: Seq<Seq<u32>>) -> bool {
    forall|i: int, j: int|
        0 <= i < lists.len() && 0 <= j < lists[i].len() ==> #[trigger] lists[i][j] < u32::MAX
}

proof fn lemma_sweep_fits(lists: Seq<Seq<u32>>, idx: Seq<int>, best: int)
    requires
        positions_below_max(lists),
        idx.len() == lists.len(),
        forall|i: int| 0 <= i < idx.len() ==> 0 <= #[trigger] idx[i],
    ensures
        sweep(lists, idx, best) is Some,
    decreases remaining(lists, idx, lists.len()),
{
    let k = lists.len();
    if k > 0 && !exhausted(lists, idx) {
        let v = pointed(lists, idx);
        assert forall|i: int| 0 <= i < k implies 0 <= #[trigger] v[i] <= u32::MAX - 1 by {
            assert(idx[i] < lists[i].len());
            assert(lists[i][idx[i]] < u32::MAX);
        }
        lemma_prefix_bounds(v, k);
        assert(prefix_max(v, k) <= u32::MAX - 1) by {
            let m = prefix_argmin(v, k);
            lemma_prefix_max_attained(v, k);
        }
        let m = prefix_argmin(v, k);
        let idx2 = idx.update(m, idx[m] + 1);
        lemma_remaining_step(lists, idx, m, k);
        lemma_remaining_nonneg(lists, idx2, k);
        assert forall|i: int| 0 <= i < idx2.len() implies 0 <= #[trigger] idx2[i] by {
            if i != m {
                assert(idx2[i] == idx[i]);
            }
        }
        let w = window(lists, idx);
        lemma_sweep_fits(lists, idx2, if w < best { w } else { best });
    }
}

proof fn lemma_prefix_max_attained(v: Seq<int>, n: nat)
    requires
        n <= v.len(),
        n > 0,
        forall|i: int| 0 <= i < n ==> 0 <= #[trigger] v[i],
    ensures
        exists|i: int| 0 <= i < n && prefix_max(v, n) == #[trigger] v[i],
    decreases n,
{
    if n > 1 {
        lemma_prefix_max_attained(v, (n - 1) as nat);
        let i = choose|i: int| 0 <= i < n - 1 && prefix_max(v, (n - 1) as nat) == #[trigger] v[i];
        if v[n - 1] > prefix_max(v, (n - 1) as nat) {
            assert(prefix_max(v, n) == v[n - 1]);
        } else {
            assert(prefix_max(v, n) == v[i]);
        }
    } else {
        assert(prefix_max(v, 0) == 0);
        assert(prefix_max(v, 1) == v[0]);
    }
}

/// When every position is below `u32::MAX`, the window search never meets a window
/// that does not fit in a `u32`.
pub proof fn lemma_small_positions_fit(lists: Seq<Seq<u32>>)
    requires
        positions_below_max(lists),
    ensures
        min_window_result(lists) is Some,
{
    if lists.len() > 0 {
        lemma_sweep_fits(lists, start_cursors(lists.len()), u32::MAX as int);
    }
}

/// Every position of every list is below `bound`.
pub open spec fn positions_below(lists: Seq<Seq<u32>>, bound: int) -> bool {
    forall|i: int, j: int|
        0 <= i < lists.len() && 0 <= j < lists[i].len() ==> #[trigger] lists[i][j] < bound
}

proof fn lemma_prefix_same(a: Seq<int>, b: Seq<int>, n: nat)
    requires
        n <= a.len(),
        n <= b.len(),
        forall|i: int| 0 <= i < n ==> a[i] == b[i],
    ensures
        prefix_max(a, n) == prefix_max(b, n),
        prefix_min(a, n) == prefix_min(b, n),
    decreases n,
{
    if n > 0 {
        lemma_prefix_same(a, b, (n - 1) as nat);
    }
}

/// Two picks whose pointed positions are, up to adding `d`, the same values (`to`
/// finds each value of the second among the first, `from` each value of the first
/// among the second) have the same window.
proof fn lemma_window_same_values(
    l1: Seq<Seq<u32>>,
    c1: Seq<int>,
    l2: Seq<Seq<u32>>,
    c2: Seq<int>,
    d: int,
    to: spec_fn(int) -> int,
    from: spec_fn(int) -> int,
)
    requires
        l1.len() > 0,
        l2.len() > 0,
        valid_choice(l1, c1),
        valid_choice(l2, c2),
        forall|i: int|
            0 <= i < l2.len() ==> 0 <= #[trigger] to(i) < l1.len() && pointed(l2, c2)[i] == pointed(
                l1,
                c1,
            )[to(i)] + d,
        forall|j: int|
            0 <= j < l1.len() ==> 0 <= #[trigger] from(j) < l2.len() && pointed(l2, c2)[from(j)]
                == pointed(l1, c1)[j] + d,
    ensures
        window(l2, c2) == window(l1, c1),
{
    let v1 = pointed(l1, c1);
    let v2 = pointed(l2, c2);
    let n1 = l1.len();
    let n2 = l2.len();
    lemma_pointed_bounds(l1, c1);
    lemma_pointed_bounds(l2, c2);
    lemma_prefix_bounds(v1, n1);
    lemma_prefix_bounds(v2, n2);
    lemma_prefix_max_attained(v1, n1);
    lemma_prefix_max_attained(v2, n2);
    let a1 = choose|i: int| 0 <= i < n1 && prefix_max(v1, n1) == #[trigger] v1[i];
    let a2 = choose|i: int| 0 <= i < n2 && prefix_max(v2, n2) == #[trigger] v2[i];
    let m1 = prefix_argmin(v1, n1);
    let m2 = prefix_argmin(v2, n2);
    assert(prefix_max(v2, n2) == prefix_max(v1, n1) + d) by {
        assert(v2[a2] == v1[to(a2)] + d);
        assert(v1[to(a2)] <= prefix_max(v1, n1));
        assert(v2[from(a1)] == v1[a1] + d);
        assert(v2[from(a1)] <= prefix_max(v2, n2));
    }
    assert(prefix_min(v2, n2) == prefix_min(v1, n1) + d) by {
        assert(v2[m2] == v1[to(m2)] + d);
        assert(prefix_min(v1, n1) <= v1[to(m2)]);
        assert(v2[from(m1)] == v1[m1] + d);
        assert(prefix_min(v2, n2) <= v2[from(m1)]);
    }
}

/// A pick's window is between 1 and `u32::MAX - 1` when every position is below
/// `u32::MAX - 1`.
proof fn lemma_window_small(lists: Seq<Seq<u32>>, c: Seq<int>)
    requires
        lists.len() > 0,
        valid_choice(lists, c),
        positions_below(lists, u32::MAX - 1),
    ensures
        1 <= window(lists, c) <= u32::MAX - 1,
{
    let v = pointed(lists, c);
    let n = lists.len();
    lemma_pointed_bounds(lists, c);
    lemma_prefix_bounds(v, n);
    lemma_prefix_max_attained(v, n);
    let a = choose|i: int| 0 <= i < n && prefix_max(v, n) == #[trigger] v[i];
    assert(v[a] == lists[a][c[a]] as int);
    assert(lists[a][c[a]] < u32::MAX - 1);
    assert(v[0] <= prefix_max(v, n) && prefix_min(v, n) <= v[0]);
}

/// Every pick's window is at most `bound`.
pub open spec fn windows_at_most(lists: Seq<Seq<u32>>, bound: int) -> bool {
    forall|c: Seq<int>| #[trigger] valid_choice(lists, c) ==> window(lists, c) <= bound
}

proof fn lemma_sweep_fits_windows(lists: Seq<Seq<u32>>, idx: Seq<int>, best: int)
    requires
        windows_at_most(lists, u32::MAX as int),
        idx.len() == lists.len(),
        forall|i: int| 0 <= i < idx.len() ==> 0 <= #[trigger] idx[i],
    ensures
        sweep(lists, idx, best) is Some,
    decreases remaining(lists, idx, lists.len()),
{
    let k = lists.len();
    if k > 0 && !exhausted(lists, idx) {
        assert(valid_choice(lists, idx)) by {
            assert forall|i: int| 0 <= i < lists.len() implies 0 <= #[trigger] idx[i] < lists[i].len() by {
                if idx[i] >= lists[i].len() {
                    assert(exhausted(lists, idx));
                }
            }
        }
        let v = pointed(lists, idx);
        lemma_pointed_bounds(lists, idx);
        lemma_prefix_bounds(v, k);
        let m = prefix_argmin(v, k);
        let idx2 = idx.update(m, idx[m] + 1);
        lemma_remaining_step(lists, idx, m, k);
        lemma_remaining_nonneg(lists, idx2, k);
        assert forall|i: int| 0 <= i < idx2.len() implies 0 <= #[trigger] idx2[i] by {
            if i != m {
                assert(idx2[i] == idx[i]);
            }
        }
        let w = window(lists, idx);
        lemma_sweep_fits_windows(lists, idx2, if w < best { w } else { best });
    }
}

/// On sorted, non-empty lists whose every pick has a window below `u32::MAX`, the
/// window search finds the smallest window over all picks.
proof fn lemma_result_is_min_windows(lists: Seq<Seq<u32>>)
    requires
        lists.len() > 0,
        lists_sorted(lists),
        no_empty_list(lists),
        windows_at_most(lists, u32::MAX - 1),
    ensures
        min_window_result(lists) matches Some(r) && is_min_window(lists, r as int),
{
    lemma_sweep_fits_windows(lists, start_cursors(lists.len()), u32::MAX as int);
    lemma_min_window_is_smallest(lists);
    let r = min_window_result(lists).unwrap();
    if r == 0 {
        let c = choose|c: Seq<int>| valid_choice(lists, c) && #[trigger] window(lists, c) == u32::MAX;
    }
}

/// On sorted, non-empty lists of small positions, the window search finds the
/// smallest window over all picks.
proof fn lemma_result_is_min(lists: Seq<Seq<u32>>)
    requires
        lists.len() > 0,
        lists_sorted(lists),
        no_empty_list(lists),
        positions_below(lists, u32::MAX - 1),
    ensures
        min_window_result(lists) matches Some(r) && is_min_window(lists, r as int),
{
    assert forall|c: Seq<int>| #[trigger] valid_choice(lists, c) implies window(lists, c) <= u32::MAX - 1 by {
        lemma_window_small(lists, c);
    }
    lemma_result_is_min_windows(lists);
}

/// When some list is empty, or there are none, the window search gives 0.
proof fn lemma_result_without_picks(lists: Seq<Seq<u32>>)
    requires
        lists.len() == 0 || !no_empty_list(lists),
    ensures
        min_window_result(lists) == Some(0u32),
{
    if lists.len() > 0 {
        let j = choose|j: int| 0 <= j < lists.len() && !(#[trigger] lists[j].len() > 0);
        let start = start_cursors(lists.len());
        assert(start[j] >= lists[j].len());
        assert(exhausted(lists, start));
    }
}

/// The lists of `lists` in the order that `perm` names.
pub open spec fn reordered(lists: Seq<Seq<u32>>, perm: Seq<int>) -> Seq<Seq<u32>> {
    Seq::new(perm.len(), |i: int| lists[perm[i]])
}

/// `perm` is a permutation of `0..n`.
pub open spec fn is_permutation(perm: Seq<int>, n: nat) -> bool {
    &&& perm.len() == n
    &&& forall|i: int| 0 <= i < n ==> 0 <= #[trigger] perm[i] < n
    &&& forall|i: int, j: int| 0 <= i < j < n ==> perm[i] != perm[j]
    &&& forall|j: int| 0 <= j < n ==> #[trigger] names_place(perm, j)
}

/// Some entry of `perm` is `j`.
pub open spec fn names_place(perm: Seq<int>, j: int) -> bool {
    exists|i: int| 0 <= i < perm.len() && #[trigger] perm[i] == j
}

/// The first place of `perm` that holds `j`.
spec fn place_of(perm: Seq<int>, j: int) -> int {
    choose|i: int| 0 <= i < perm.len() && #[trigger] perm[i] == j
}

proof fn lemma_place_of(perm: Seq<int>, n: nat)
    requires
        is_permutation(perm, n),
    ensures
        forall|j: int| 0 <= j < n ==> 0 <= #[trigger] place_of(perm, j) < n && perm[place_of(perm, j)] == j,
        forall|i: int| 0 <= i < n ==> #[trigger] place_of(perm, perm[i]) == i,
{
    assert forall|j: int| 0 <= j < n implies 0 <= #[trigger] place_of(perm, j) < n && perm[place_of(perm, j)] == j by {
        assert(names_place(perm, j));
    }
    assert forall|i: int| 0 <= i < n implies #[trigger] place_of(perm, perm[i]) == i by {
        let j = perm[i];
        assert(names_place(perm, j));
        let k = place_of(perm, j);
        assert(perm[k] == j);
        if k < i {
            assert(perm[k] != perm[i]);
        } else if k > i {
            assert(perm[i] != perm[k]);
        }
    }
}

proof fn lemma_reorder_pick(lists: Seq<Seq<u32>>, perm: Seq<int>, c1: Seq<int>) -> (c2: Seq<int>)
    requires
        lists.len() > 0,
        is_permutation(perm, lists.len()),
        valid_choice(lists, c1),
    ensures
        valid_choice(reordered(lists, perm), c2),
        window(reordered(lists, perm), c2) == window(lists, c1),
{
    let n = lists.len();
    let l2 = reordered(lists, perm);
    lemma_place_of(perm, n);
    let c2 = Seq::new(n, |i: int| c1[perm[i]]);
    assert(valid_choice(l2, c2)) by {
        assert forall|i: int| 0 <= i < n implies 0 <= #[trigger] c2[i] < l2[i].len() by {
            assert(l2[i] == lists[perm[i]]);
        }
    }
    let to = |i: int| perm[i];
    let from = |j: int| place_of(perm, j);
    assert forall|i: int| 0 <= i < l2.len() implies 0 <= #[trigger] to(i) < lists.len() && pointed(
        l2,
        c2,
    )[i] == pointed(lists, c1)[to(i)] + 0 by {}
    assert forall|j: int| 0 <= j < lists.len() implies 0 <= #[trigger] from(j) < l2.len() && pointed(
        l2,
        c2,
    )[from(j)] == pointed(lists, c1)[j] + 0 by {}
    lemma_window_same_values(lists, c1, l2, c2, 0, to, from);
    c2
}

proof fn lemma_unreorder_pick(lists: Seq<Seq<u32>>, perm: Seq<int>, c2: Seq<int>) -> (c1: Seq<int>)
    requires
        lists.len() > 0,
        is_permutation(perm, lists.len()),
        valid_choice(reordered(lists, perm), c2),
    ensures
        valid_choice(lists, c1),
        window(lists, c1) == window(reordered(lists, perm), c2),
{
    let n = lists.len();
    let l2 = reordered(lists, perm);
    lemma_place_of(perm, n);
    let c1 = Seq::new(n, |j: int| c2[place_of(perm, j)]);
    assert(valid_choice(lists, c1)) by {
        assert forall|j: int| 0 <= j < n implies 0 <= #[trigger] c1[j] < lists[j].len() by {
            assert(l2[place_of(perm, j)] == lists[j]);
        }
    }
    let to = |j: int| place_of(perm, j);
    let from = |i: int| perm[i];
    assert forall|j: int| 0 <= j < lists.len() implies 0 <= #[trigger] to(j) < l2.len() && pointed(
        lists,
        c1,
    )[j] == pointed(l2, c2)[to(j)] + 0 by {}
    assert forall|i: int| 0 <= i < l2.len() implies 0 <= #[trigger] from(i) < lists.len() && pointed(
        lists,
        c1,
    )[from(i)] == pointed(l2, c2)[i] + 0 by {
        assert(place_of(perm, perm[i]) == i);
    }
    lemma_window_same_values(l2, c2, lists, c1, 0, to, from);
    c1
}

proof fn lemma_reorder_keeps_min(lists: Seq<Seq<u32>>, perm: Seq<int>)
    requires
        lists.len() > 0,
        is_permutation(perm, lists.len()),
        lists_sorted(lists),
        no_empty_list(lists),
        positions_below(lists, u32::MAX - 1),
    ensures
        min_window_result(reordered(lists, perm)) == min_window_result(lists),
{
    let n = lists.len();
    let l2 = reordered(lists, perm);
    assert forall|i: int| 0 <= i < n implies #[trigger] l2[i] == lists[perm[i]] by {}
    assert(positions_below(l2, u32::MAX - 1)) by {
        assert forall|i: int, j: int| 0 <= i < l2.len() && 0 <= j < l2[i].len() implies #[trigger] l2[i][j]
            < u32::MAX - 1 by {
            assert(l2[i] == lists[perm[i]]);
        }
    }
    assert(lists_sorted(l2) && no_empty_list(l2));
    lemma_result_is_min(lists);
    lemma_result_is_min(l2);
    let w1 = min_window_result(lists).unwrap() as int;
    let w2 = min_window_result(l2).unwrap() as int;
    let c1 = choose|c: Seq<int>| valid_choice(lists, c) && #[trigger] window(lists, c) == w1;
    let d2 = lemma_reorder_pick(lists, perm, c1);
    assert(w2 <= window(l2, d2));
    let c2 = choose|c: Seq<int>| valid_choice(l2, c) && #[trigger] window(l2, c) == w2;
    let d1 = lemma_unreorder_pick(lists, perm, c2);
    assert(w1 <= window(lists, d1));
}

/// The window does not depend on the order of the lists (the order of the query
/// terms): what `calculate_min_window` returns for sorted lists of positions below
/// `u32::MAX - 1` stays the same when the lists are reordered by a permutation.
pub proof fn lemma_window_ignores_list_order(lists: Seq<Seq<u32>>, perm: Seq<int>)
    requires
        is_permutation(perm, lists.len()),
        lists_sorted(lists),
        positions_below(lists, u32::MAX - 1),
    ensures
        min_window_result(reordered(lists, perm)) == min_window_result(lists),
{
    let n = lists.len();
    let l2 = reordered(lists, perm);
    if n == 0 || !no_empty_list(lists) {
        lemma_result_without_picks(lists);
        if n > 0 {
            lemma_place_of(perm, n);
            let j = choose|j: int| 0 <= j < n && !(#[trigger] lists[j].len() > 0);
            let i = place_of(perm, j);
            assert(l2[i] == lists[j]);
            assert(!(l2[i].len() > 0));
        }
        lemma_result_without_picks(l2);
    } else {
        lemma_reorder_keeps_min(lists, perm);
    }
}

/// `l2` is `l1` with every position moved by `d`.
pub open spec fn shifted(l1: Seq<Seq<u32>>, l2: Seq<Seq<u32>>, d: int) -> bool {
    &&& l2.len() == l1.len()
    &&& forall|i: int| 0 <= i < l1.len() ==> #[trigger] l2[i].len() == l1[i].len()
    &&& forall|i: int, j: int|
        0 <= i < l1.len() && 0 <= j < l1[i].len() ==> #[trigger] l2[i][j] == l1[i][j] + d
}

proof fn lemma_shift_pick(l1: Seq<Seq<u32>>, l2: Seq<Seq<u32>>, d: int, c: Seq<int>)
    requires
        l1.len() > 0,
        shifted(l1, l2, d),
        valid_choice(l1, c),
    ensures
        valid_choice(l2, c),
        window(l2, c) == window(l1, c),
{
    let id = |i: int| i;
    assert forall|i: int| 0 <= i < l2.len() implies 0 <= #[trigger] id(i) < l1.len() && pointed(l2, c)[i]
        == pointed(l1, c)[id(i)] + d by {
        assert(l2[i][c[i]] == l1[i][c[i]] + d);
    }
    lemma_window_same_values(l1, c, l2, c, d, id, id);
}

/// Moving every position by the same amount keeps the window: what
/// `calculate_min_window` returns for sorted lists stays the same when every position
/// is moved by `d`, so long as the moved positions are below `u32::MAX - 1`.
pub proof fn lemma_window_shift_invariant(l1: Seq<Seq<u32>>, l2: Seq<Seq<u32>>, d: int)
    requires
        shifted(l1, l2, d),
        lists_sorted(l1),
        positions_below(l2, u32::MAX - 1),
    ensures
        min_window_result(l2) == min_window_result(l1),
{
    let n = l1.len();
    if n == 0 || !no_empty_list(l1) {
        lemma_result_without_picks(l1);
        if n > 0 {
            let j = choose|j: int| 0 <= j < n && !(#[trigger] l1[j].len() > 0);
            assert(l2[j].len() == l1[j].len());
        }
        lemma_result_without_picks(l2);
    } else {
        assert(lists_sorted(l2)) by {
            assert forall|i: int| 0 <= i < n implies is_nondecreasing(#[trigger] l2[i]) by {
                assert forall|a: int, b: int| 0 <= a <= b < l2[i].len() implies l2[i][a] <= l2[i][b] by {
                    assert(l2[i][a] == l1[i][a] + d && l2[i][b] == l1[i][b] + d);
                    assert(is_nondecreasing(l1[i]));
                }
            }
        }
        assert(no_empty_list(l2)) by {
            assert forall|i: int| 0 <= i < n implies #[trigger] l2[i].len() > 0 by {
                assert(l2[i].len() == l1[i].len());
            }
        }
        assert(shifted(l2, l1, -d)) by {
            assert forall|i: int, j: int| 0 <= i < l2.len() && 0 <= j < l2[i].len() implies #[trigger] l1[i][j]
                == l2[i][j] + (-d) by {
                assert(l2[i][j] == l1[i][j] + d);
            }
        }
        lemma_result_is_min(l2);
        assert forall|c: Seq<int>| #[trigger] valid_choice(l1, c) implies window(l1, c) <= u32::MAX - 1 by {
            lemma_shift_pick(l1, l2, d, c);
            lemma_window_small(l2, c);
        }
        lemma_result_is_min_windows(l1);
        let w1 = min_window_result(l1).unwrap() as int;
        let w2 = min_window_result(l2).unwrap() as int;
        let c1 = choose|c: Seq<int>| valid_choice(l1, c) && #[trigger] window(l1, c) == w1;
        lemma_shift_pick(l1, l2, d, c1);
        assert(w2 <= window(l2, c1));
        let c2 = choose|c: Seq<int>| valid_choice(l2, c) && #[trigger] window(l2, c) == w2;
        lemma_shift_pick(l2, l1, -d, c2);
        assert(w1 <= window(l1, c2));
    }
}

/// `lists` with `v` put into list `i` at place `k`.
pub open spec fn with_position(lists: Seq<Seq<u32>>, i: int, k: int, v: u32) -> Seq<Seq<u32>> {
    lists.update(i, lists[i].insert(k, v))
}

/// One more position can only make the window smaller: on sorted, non-empty lists of
/// positions below `u32::MAX - 1`, putting such a position into one list, keeping it
/// sorted, makes `calculate_min_window` return no more.
pub proof fn lemma_window_more_positions(lists: Seq<Seq<u32>>, i: int, k: int, v: u32)
    requires
        lists.len() > 0,
        0 <= i < lists.len(),
        0 <= k <= lists[i].len(),
        v < u32::MAX - 1,
        lists_sorted(lists),
        lists_sorted(with_position(lists, i, k, v)),
        no_empty_list(lists),
        positions_below(lists, u32::MAX - 1),
    ensures
        min_window_result(with_position(lists, i, k, v)) matches Some(r2) && min_window_result(
            lists,
        ) matches Some(r1) && r2 <= r1,
{
    let l2 = with_position(lists, i, k, v);
    let n = lists.len();
    assert(no_empty_list(l2)) by {
        assert forall|x: int| 0 <= x < n implies #[trigger] l2[x].len() > 0 by {
            assert(lists[x].len() > 0);
        }
    }
    assert(positions_below(l2, u32::MAX - 1)) by {
        assert forall|x: int, y: int| 0 <= x < l2.len() && 0 <= y < l2[x].len() implies #[trigger] l2[x][y]
            < u32::MAX - 1 by {
            if x == i {
                if y < k {
                    assert(l2[x][y] == lists[i][y]);
                } else if y > k {
                    assert(l2[x][y] == lists[i][y - 1]);
                }
            } else {
                assert(l2[x] == lists[x]);
            }
        }
    }
    lemma_result_is_min(lists);
    lemma_result_is_min(l2);
    let w1 = min_window_result(lists).unwrap() as int;
    let c1 = choose|c: Seq<int>| valid_choice(lists, c) && #[trigger] window(lists, c) == w1;
    let c2 = c1.update(i, if c1[i] < k { c1[i] } else { c1[i] + 1 });
    assert(valid_choice(l2, c2)) by {
        assert forall|x: int| 0 <= x < n implies 0 <= #[trigger] c2[x] < l2[x].len() by {
            assert(0 <= c1[x] < lists[x].len());
        }
    }
    let id = |x: int| x;
    assert forall|x: int| 0 <= x < l2.len() implies 0 <= #[trigger] id(x) < lists.len() && pointed(l2, c2)[x]
        == pointed(lists, c1)[id(x)] + 0 by {
        assert(0 <= c1[x] < lists[x].len());
        if x == i {
            if c1[i] < k {
                assert(l2[i][c2[i]] == lists[i][c1[i]]);
            } else {
                assert(l2[i][c2[i]] == lists[i][c1[i]]);
            }
        } else {
            assert(l2[x] == lists[x]);
        }
    }
    lemma_window_same_values(lists, c1, l2, c2, 0, id, id);
}

/// One more list can only make the window larger: on sorted, non-empty lists of
/// positions below `u32::MAX - 1`, adding such a list makes `calculate_min_window`
/// return no less.
pub proof fn lemma_window_more_lists(lists: Seq<Seq<u32>>, extra: Seq<u32>)
    requires
        lists.len() > 0,
        lists_sorted(lists),
        no_empty_list(lists),
        positions_below(lists, u32::MAX - 1),
        extra.len() > 0,
        is_nondecreasing(extra),
        forall|j: int| 0 <= j < extra.len() ==> #[trigger] extra[j] < u32::MAX - 1,
    ensures
        min_window_result(lists.push(extra)) matches Some(r3) && min_window_result(lists) matches Some(
            r1,
        ) && r3 >= r1,
{
    let l3 = lists.push(extra);
    let n = lists.len();
    assert forall|x: int| 0 <= x < n implies #[trigger] l3[x] == lists[x] by {}
    assert(l3[n as int] == extra);
    assert(lists_sorted(l3) && no_empty_list(l3));
    assert(positions_below(l3, u32::MAX - 1)) by {
        assert forall|x: int, y: int| 0 <= x < l3.len() && 0 <= y < l3[x].len() implies #[trigger] l3[x][y]
            < u32::MAX - 1 by {
            if x < n {
                assert(l3[x] == lists[x]);
            }
        }
    }
    lemma_result_is_min(lists);
    lemma_result_is_min(l3);
    let w3 = min_window_result(l3).unwrap() as int;
    let c3 = choose|c: Seq<int>| valid_choice(l3, c) && #[trigger] window(l3, c) == w3;
    let c1 = c3.take(n as int);
    assert(valid_choice(lists, c1)) by {
        assert forall|x: int| 0 <= x < n implies 0 <= #[trigger] c1[x] < lists[x].len() by {
            assert(c1[x] == c3[x]);
            assert(0 <= c3[x] < l3[x].len());
        }
    }
    let v3 = pointed(l3, c3);
    let v1 = pointed(lists, c1);
    assert forall|x: int| 0 <= x < n implies v3[x] == v1[x] by {
        assert(c1[x] == c3[x]);
    }
    lemma_prefix_same(v3, v1, n);
    assert(prefix_max(v3, n + 1) >= prefix_max(v3, n));
    assert(prefix_min(v3, n + 1) <= prefix_min(v3, n));
    assert(window(l3, c3) >= window(lists, c1));
}

} // verus!
