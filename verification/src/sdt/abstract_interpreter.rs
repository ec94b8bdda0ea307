//! Worst-case stack depth (WCSD) by depth-first search over simple call paths.
use crate::sdt::cycle_detector::{law_unbounded_iff_cycle_reachable, reaches_call_cycle};
use crate::types::{ExecutionGraph, graph_node, graph_node_count, graph_outgoing};
use vstd::prelude::*;

verus! {

/// Final WCSD analysis result.
#[derive(Debug)]
pub struct WcsdResult {
    /// Maximum bounded stack depth discovered.
    pub max_depth_bytes: usize,
    /// Whether recursion caused the path to become unbounded.
    pub is_unbounded: bool,
    /// Critical path that produced the maximum depth.
    pub critical_path: Vec<String>,
    /// Whether the configured stack budget was exceeded.
    pub budget_exceeded: bool,
}

/// The finding that a stack depth analysis reports.
#[derive(Debug, Clone, Copy, PartialEq, Eq)]
pub enum AnalysisFinding {
    /// Recursion makes the stack depth unbounded.
    UnboundedStack,
    /// The deepest call path needs more stack than the budget.
    BudgetExceeded { max_depth_bytes: usize },
}

impl WcsdResult {
    /// The finding to report: none when the budget holds, else unbounded growth when recursion is
    /// reachable, else the depth that exceeds the budget.
    pub fn finding(&self) -> (r: Option<AnalysisFinding>)
        ensures
            r is None <==> !self.budget_exceeded,
            r matches Some(AnalysisFinding::UnboundedStack) <==> self.budget_exceeded && self.is_unbounded,
            r matches Some(AnalysisFinding::BudgetExceeded { max_depth_bytes }) ==> self.budget_exceeded
                && !self.is_unbounded && max_depth_bytes == self.max_depth_bytes,
    {
        if !self.budget_exceeded {
            None
        } else if self.is_unbounded {
            Some(AnalysisFinding::UnboundedStack)
        } else {
            Some(AnalysisFinding::BudgetExceeded { max_depth_bytes: self.max_depth_bytes })
        }
    }
}

pub struct WcsdEngine;

/// Stack frame size of node `i`.
pub open spec fn frame_of(eg: ExecutionGraph, i: usize) -> int {
    eg.nodes()[i as int].physical_frame_size_bytes as int
}

/// Sum of the frame sizes along `p`.
pub open spec fn path_depth(eg: ExecutionGraph, p: Seq<usize>) -> int
    decreases p.len(),
{
    if p.len() == 0 {
        0
    } else {
        path_depth(eg, p.drop_last()) + frame_of(eg, p.last())
    }
}

/// The frame sum of the part of the continuation `e` beyond `path`.
pub open spec fn extension_depth(eg: ExecutionGraph, path: Seq<usize>, e: Seq<usize>) -> int {
    path_depth(eg, e) - path_depth(eg, path)
}

/// `p` is a call path: its entries are nodes and each entry calls the next.
pub open spec fn is_call_path(eg: ExecutionGraph, p: Seq<usize>) -> bool {
    &&& forall|k: int| 0 <= k < p.len() ==> (#[trigger] p[k]) < eg.nodes().len()
    &&& forall|k: int| 0 <= k < p.len() - 1 ==> #[trigger] eg.succ(p[k]).contains(p[k + 1])
}

/// `p` is a call path from `entry` that visits no function twice.
pub open spec fn is_simple_call_path(eg: ExecutionGraph, entry: usize, p: Seq<usize>) -> bool {
    &&& p.len() > 0
    &&& p[0] == entry
    &&& p.no_duplicates()
    &&& is_call_path(eg, p)
}

/// The last function of `p` calls a function already on `p`.
pub open spec fn closes_cycle(eg: ExecutionGraph, p: Seq<usize>) -> bool {
    exists|i: int| 0 <= i < p.len() && #[trigger] eg.succ(p.last()).contains(p[i])
}

/// Some simple call path from `entry` ends in a call back onto itself: recursion is reachable.
pub open spec fn reaches_recursion(eg: ExecutionGraph, entry: usize) -> bool {
    exists|p: Seq<usize>| #[trigger] is_simple_call_path(eg, entry, p) && closes_cycle(eg, p)
}

/// Every simple call path from `entry` has a depth of at most `bound`.
pub open spec fn depth_fits(eg: ExecutionGraph, entry: usize, bound: int) -> bool {
    forall|p: Seq<usize>| #[trigger] is_simple_call_path(eg, entry, p) ==> path_depth(eg, p) <= bound
}

/// `e` is a simple continuation of `path` that goes on with `cur` and then along calls.
pub open spec fn extends(eg: ExecutionGraph, path: Seq<usize>, cur: usize, e: Seq<usize>) -> bool {
    &&& path.len() < e.len()
    &&& e.take(path.len() as int) == path
    &&& e[path.len() as int] == cur
    &&& e.no_duplicates()
    &&& forall|k: int| path.len() <= k < e.len() ==> (#[trigger] e[k]) < eg.nodes().len()
    &&& forall|k: int| path.len() <= k < e.len() - 1 ==> #[trigger] eg.succ(e[k]).contains(e[k + 1])
}

/// Going on from `path` with `cur` either returns to a function on `path` or reaches recursion.
pub open spec fn recursion_below(eg: ExecutionGraph, path: Seq<usize>, cur: usize) -> bool {
    ||| path.contains(cur)
    ||| exists|e: Seq<usize>| #[trigger] extends(eg, path, cur, e) && closes_cycle(eg, e)
}

/// The search state: (deepest depth so far, recursion seen, path of the deepest depth).
pub open spec fn visit(
    eg: ExecutionGraph,
    path: Seq<usize>,
    cur: usize,
    depth: int,
    st: (int, bool, Seq<usize>),
) -> (int, bool, Seq<usize>)
    decreases eg.nodes().len() - path.len(), 0int, 0int,
{
    if path.contains(cur) {
        (st.0, true, st.2)
    } else if path.len() >= eg.nodes().len() {
        st
    } else {
        let d = depth + frame_of(eg, cur);
        let p2 = path.push(cur);
        let st1 = if d > st.0 { (d, st.1, p2) } else { st };
        visit_calls(eg, p2, eg.succ(cur), 0, d, st1)
    }
}

/// The search over the calls `targets[k..]` made by the last function of `path`.
pub open spec fn visit_calls(
    eg: ExecutionGraph,
    path: Seq<usize>,
    targets: Seq<usize>,
    k: int,
    depth: int,
    st: (int, bool, Seq<usize>),
) -> (int, bool, Seq<usize>)
    decreases eg.nodes().len() - path.len(), 1int, targets.len() - k,
{
    if k < 0 || k >= targets.len() {
        st
    } else {
        visit_calls(eg, path, targets, k + 1, depth, visit(eg, path, targets[k], depth, st))
    }
}

/// The search from `entry` with an empty state.
pub open spec fn wcsd_search(eg: ExecutionGraph, entry: usize) -> (int, bool, Seq<usize>) {
    visit(eg, Seq::empty(), entry, 0, (0, false, Seq::empty()))
}

/// The symbol names of the functions along `p`.
pub open spec fn path_names(eg: ExecutionGraph, p: Seq<usize>) -> Seq<String> {
    p.map_values(|i: usize| eg.nodes()[i as int].symbol_name)
}

/// The k-th name of a path is the symbol name of its k-th function.
pub proof fn law_path_names(eg: ExecutionGraph, p: Seq<usize>)
    ensures
        path_names(eg, p).len() == p.len(),
        forall|k: int| 0 <= k < p.len() ==> #[trigger] path_names(eg, p)[k] == eg.nodes()[p[k] as int].symbol_name,
{
}

/// A sequence of distinct indices below `n` has at most `n` entries.
proof fn lemma_distinct_len(p: Seq<usize>, n: nat)
    requires
        p.no_duplicates(),
        forall|k: int| 0 <= k < p.len() ==> #[trigger] p[k] < n,
    ensures
        p.len() <= n,
{
    let q = p.map_values(|x: usize| x as int);
    assert(q.no_duplicates()) by {
        assert forall|i: int, j: int| 0 <= i < q.len() && 0 <= j < q.len() && i != j implies q[i] != q[j] by {
            assert(p[i] != p[j]);
        }
    }
    q.unique_seq_to_set();
    let r = vstd::set_lib::set_int_range(0, n as int);
    vstd::set_lib::lemma_int_range(0, n as int);
    assert(q.to_set().subset_of(r)) by {
        assert forall|x: int| q.to_set().contains(x) implies r.contains(x) by {
            assert(q.contains(x));
            let i = choose|i: int| 0 <= i < q.len() && q[i] == x;
            assert(p[i] < n);
        }
    }
    vstd::set_lib::lemma_len_subset(q.to_set(), r);
}

/// No continuation goes on with a function already on the path.
proof fn lemma_no_extension_through_path(eg: ExecutionGraph, path: Seq<usize>, cur: usize, e: Seq<usize>)
    requires
        path.contains(cur),
    ensures
        !extends(eg, path, cur, e),
{
    if extends(eg, path, cur, e) {
        let i = choose|i: int| 0 <= i < path.len() && path[i] == cur;
        assert(e.take(path.len() as int)[i] == e[i]);
        assert(e[i] == e[path.len() as int]);
    }
}

/// The one-step continuation `path + [cur]`.
proof fn lemma_extends_base(eg: ExecutionGraph, path: Seq<usize>, cur: usize)
    requires
        !path.contains(cur),
        path.no_duplicates(),
        cur < eg.nodes().len(),
    ensures
        extends(eg, path, cur, path.push(cur)),
{
    let p2 = path.push(cur);
    assert(p2.take(path.len() as int) =~= path);
    assert(p2.no_duplicates()) by {
        assert forall|i: int, j: int| 0 <= i < p2.len() && 0 <= j < p2.len() && i != j implies p2[i] != p2[j] by {
            if i < path.len() && j < path.len() {
                assert(path[i] != path[j]);
            } else if i < path.len() {
                assert(path.contains(path[i]));
            } else if j < path.len() {
                assert(path.contains(path[j]));
            }
        }
    }
}

/// A continuation of `path + [cur]` by a call target `t` of `cur` continues `path` with `cur`.
proof fn lemma_extends_join(eg: ExecutionGraph, path: Seq<usize>, cur: usize, t: usize, e: Seq<usize>)
    requires
        extends(eg, path.push(cur), t, e),
        eg.succ(cur).contains(t),
        cur < eg.nodes().len(),
    ensures
        extends(eg, path, cur, e),
{
    let p2 = path.push(cur);
    let n = path.len() as int;
    assert(e.take(n + 1) == p2);
    assert(e.take(n) =~= path) by {
        assert forall|i: int| 0 <= i < n implies e.take(n)[i] == path[i] by {
            assert(e.take(n + 1)[i] == p2[i]);
        }
    }
    assert(e[n] == cur) by {
        assert(e.take(n + 1)[n] == p2[n]);
    }
    assert forall|k: int| n <= k < e.len() implies (#[trigger] e[k]) < eg.nodes().len() by {
        if k == n {
        } else {
            assert(n + 1 <= k);
        }
    }
    assert forall|k: int| n <= k < e.len() - 1 implies #[trigger] eg.succ(e[k]).contains(e[k + 1]) by {
        if k == n {
            assert(e[k + 1] == t);
        } else {
            assert(n + 1 <= k);
        }
    }
}

/// A continuation of `path` with `cur` is `path + [cur]` or continues it with a call target of `cur`.
proof fn lemma_extends_split(eg: ExecutionGraph, path: Seq<usize>, cur: usize, e: Seq<usize>)
    requires
        extends(eg, path, cur, e),
    ensures
        e.len() == path.len() + 1 ==> e == path.push(cur),
        e.len() > path.len() + 1 ==> eg.succ(cur).contains(e[path.len() as int + 1]) && extends(
            eg,
            path.push(cur),
            e[path.len() as int + 1],
            e,
        ),
{
    let n = path.len() as int;
    let p2 = path.push(cur);
    assert(e.take(n + 1) =~= p2) by {
        assert forall|i: int| 0 <= i < n + 1 implies e.take(n + 1)[i] == p2[i] by {
            if i < n {
                assert(e.take(n)[i] == path[i]);
            }
        }
    }
    if e.len() == n + 1 {
        assert(e =~= e.take(n + 1));
    }
    if e.len() > n + 1 {
        assert(eg.succ(e[n]).contains(e[n + 1]));
        assert forall|k: int| n + 1 <= k < e.len() implies (#[trigger] e[k]) < eg.nodes().len() by {
        }
        assert forall|k: int| n + 1 <= k < e.len() - 1 implies #[trigger] eg.succ(e[k]).contains(e[k + 1]) by {
        }
    }
}

/// Recursion below `cur` is recursion below one of its call targets, one level deeper.
proof fn lemma_recursion_step(eg: ExecutionGraph, path: Seq<usize>, cur: usize)
    requires
        !path.contains(cur),
        path.no_duplicates(),
        cur < eg.nodes().len(),
    ensures
        recursion_below(eg, path, cur) <==> exists|j: int|
            0 <= j < eg.succ(cur).len() && #[trigger] recursion_below(eg, path.push(cur), eg.succ(cur)[j]),
{
    let p2 = path.push(cur);
    let ts = eg.succ(cur);
    lemma_extends_base(eg, path, cur);
    if recursion_below(eg, path, cur) {
        let e = choose|e: Seq<usize>| #[trigger] extends(eg, path, cur, e) && closes_cycle(eg, e);
        lemma_extends_split(eg, path, cur, e);
        if e.len() == p2.len() {
            let i = choose|i: int| 0 <= i < e.len() && #[trigger] eg.succ(e.last()).contains(e[i]);
            assert(e.last() == cur);
            let v = e[i];
            assert(ts.contains(v));
            let j = choose|j: int| 0 <= j < ts.len() && ts[j] == v;
            assert(p2.contains(ts[j]));
            assert(recursion_below(eg, p2, ts[j]));
        } else {
            let t = e[path.len() as int + 1];
            let j = choose|j: int| 0 <= j < ts.len() && ts[j] == t;
            assert(extends(eg, p2, ts[j], e) && closes_cycle(eg, e));
            assert(recursion_below(eg, p2, ts[j]));
        }
    }
    if exists|j: int| 0 <= j < ts.len() && #[trigger] recursion_below(eg, p2, ts[j]) {
        let j = choose|j: int| 0 <= j < ts.len() && #[trigger] recursion_below(eg, p2, ts[j]);
        assert(ts.contains(ts[j]));
        if p2.contains(ts[j]) {
            let i = choose|i: int| 0 <= i < p2.len() && p2[i] == ts[j];
            assert(p2.last() == cur);
            assert(eg.succ(p2.last()).contains(p2[i]));
            assert(closes_cycle(eg, p2));
        } else {
            let e = choose|e: Seq<usize>| #[trigger] extends(eg, p2, ts[j], e) && closes_cycle(eg, e);
            lemma_extends_join(eg, path, cur, ts[j], e);
        }
    }
}

/// The depth of `path + [cur]` adds the frame of `cur`.
proof fn lemma_depth_push(eg: ExecutionGraph, path: Seq<usize>, cur: usize)
    ensures
        path_depth(eg, path.push(cur)) == path_depth(eg, path) + frame_of(eg, cur),
{
    assert(path.push(cur).drop_last() =~= path);
}

/// What one visit of the search establishes about all continuations through `cur`.
proof fn lemma_visit(eg: ExecutionGraph, path: Seq<usize>, cur: usize, depth: int, st: (int, bool, Seq<usize>))
    requires
        eg.wf(),
        path.no_duplicates(),
        forall|k: int| 0 <= k < path.len() ==> #[trigger] path[k] < eg.nodes().len(),
        cur < eg.nodes().len(),
    ensures
        ({
            let r = visit(eg, path, cur, depth, st);
            &&& r.0 >= st.0
            &&& forall|e: Seq<usize>| #[trigger] extends(eg, path, cur, e) ==> depth + extension_depth(eg, path, e) <= r.0
            &&& r.0 > st.0 ==> extends(eg, path, cur, r.2) && depth + extension_depth(eg, path, r.2) == r.0
            &&& r.0 == st.0 ==> r.2 == st.2
            &&& r.1 == (st.1 || recursion_below(eg, path, cur))
        }),
    decreases eg.nodes().len() - path.len(), 0int, 0int,
{
    let r = visit(eg, path, cur, depth, st);
    if path.contains(cur) {
        assert forall|e: Seq<usize>| #[trigger] extends(eg, path, cur, e) implies depth + extension_depth(eg, path, e)
            <= r.0 by {
            lemma_no_extension_through_path(eg, path, cur, e);
        }
    } else {
        let p2 = path.push(cur);
        let ts = eg.succ(cur);
        lemma_extends_base(eg, path, cur);
        lemma_distinct_len(p2, eg.nodes().len());
        lemma_depth_push(eg, path, cur);
        let d = depth + frame_of(eg, cur);
        let st1 = if d > st.0 { (d, st.1, p2) } else { st };
        assert(r == visit_calls(eg, p2, ts, 0, d, st1));
        assert forall|k: int| 0 <= k < p2.len() implies #[trigger] p2[k] < eg.nodes().len() by {
            if k < path.len() {
                assert(p2[k] == path[k]);
            }
        }
        lemma_visit_calls(eg, p2, ts, 0, d, st1);
        assert forall|e: Seq<usize>| #[trigger] extends(eg, path, cur, e) implies depth + extension_depth(eg, path, e)
            <= r.0 by {
            lemma_extends_split(eg, path, cur, e);
            if e.len() > p2.len() {
                let t = e[path.len() as int + 1];
                let j = choose|j: int| 0 <= j < ts.len() && ts[j] == t;
                assert(extends(eg, p2, ts[j], e));
            }
        }
        if r.0 > st.0 {
            if r.0 > st1.0 {
                let j = choose|j: int|
                    0 <= j < ts.len() && #[trigger] extends(eg, p2, ts[j], r.2) && d + extension_depth(eg, p2, r.2) == r.0;
                assert(ts.contains(ts[j]));
                lemma_extends_join(eg, path, cur, ts[j], r.2);
            }
        }
        lemma_recursion_step(eg, path, cur);
    }
}

/// What the search over the calls `targets[k..]` of the last function of `path` establishes.
proof fn lemma_visit_calls(
    eg: ExecutionGraph,
    path: Seq<usize>,
    targets: Seq<usize>,
    k: int,
    depth: int,
    st: (int, bool, Seq<usize>),
)
    requires
        eg.wf(),
        path.len() > 0,
        path.no_duplicates(),
        forall|i: int| 0 <= i < path.len() ==> #[trigger] path[i] < eg.nodes().len(),
        targets == eg.succ(path.last()),
        0 <= k <= targets.len(),
    ensures
        ({
            let r = visit_calls(eg, path, targets, k, depth, st);
            &&& r.0 >= st.0
            &&& forall|j: int, e: Seq<usize>|
                k <= j < targets.len() && #[trigger] extends(eg, path, targets[j], e) ==> depth + extension_depth(
                    eg,
                    path,
                    e,
                ) <= r.0
            &&& r.0 > st.0 ==> exists|j: int|
                k <= j < targets.len() && #[trigger] extends(eg, path, targets[j], r.2) && depth + extension_depth(
                    eg,
                    path,
                    r.2,
                ) == r.0
            &&& r.0 == st.0 ==> r.2 == st.2
            &&& r.1 == (st.1 || exists|j: int| k <= j < targets.len() && #[trigger] recursion_below(eg, path, targets[j]))
        }),
    decreases eg.nodes().len() - path.len(), 1int, targets.len() - k,
{
    let r = visit_calls(eg, path, targets, k, depth, st);
    if k < targets.len() {
        eg.lemma_succ_in_bounds(path.last());
        let mid = visit(eg, path, targets[k], depth, st);
        assert(r == visit_calls(eg, path, targets, k + 1, depth, mid));
        lemma_visit(eg, path, targets[k], depth, st);
        lemma_visit_calls(eg, path, targets, k + 1, depth, mid);
        assert forall|j: int, e: Seq<usize>|
            k <= j < targets.len() && #[trigger] extends(eg, path, targets[j], e) implies depth + extension_depth(
                eg,
                path,
                e,
            ) <= r.0 by {
        }
        if r.0 > st.0 {
            if r.0 == mid.0 {
                assert(extends(eg, path, targets[k], r.2));
            }
        }
        if mid.1 && !st.1 {
            assert(recursion_below(eg, path, targets[k]));
        }
        if exists|j: int| k <= j < targets.len() && #[trigger] recursion_below(eg, path, targets[j]) {
            let j = choose|j: int| k <= j < targets.len() && #[trigger] recursion_below(eg, path, targets[j]);
            if j > k {
                assert(k + 1 <= j);
            }
        }
    }
}

/// The continuations of the empty path with `entry` are the simple call paths from `entry`.
proof fn lemma_extends_from_entry(eg: ExecutionGraph, entry: usize, p: Seq<usize>)
    ensures
        extends(eg, Seq::empty(), entry, p) <==> is_simple_call_path(eg, entry, p),
{
    if p.len() > 0 {
        assert(p.take(0) =~= Seq::<usize>::empty());
    }
}

/// The worst-case stack depth is that of the deepest simple call path from the entry: no such
/// path is deeper, and when the depth is positive the critical path is such a path and has exactly
/// that depth (when it is zero, the critical path is empty).
pub proof fn law_wcsd_is_deepest_call_path(eg: ExecutionGraph, entry: usize)
    requires
        eg.wf(),
        entry < eg.nodes().len(),
    ensures
        ({
            let r = wcsd_search(eg, entry);
            &&& r.0 >= 0
            &&& forall|p: Seq<usize>| #[trigger] is_simple_call_path(eg, entry, p) ==> path_depth(eg, p) <= r.0
            &&& r.0 > 0 ==> is_simple_call_path(eg, entry, r.2) && path_depth(eg, r.2) == r.0
            &&& r.0 == 0 ==> r.2 == Seq::<usize>::empty()
        }),
{
    let r = wcsd_search(eg, entry);
    lemma_visit(eg, Seq::empty(), entry, 0, (0, false, Seq::empty()));
    assert forall|p: Seq<usize>| #[trigger] is_simple_call_path(eg, entry, p) implies path_depth(eg, p) <= r.0 by {
        lemma_extends_from_entry(eg, entry, p);
    }
    lemma_extends_from_entry(eg, entry, r.2);
}

/// The search reports unbounded stack growth exactly when recursion is reachable from the entry.
pub proof fn law_unbounded_iff_recursion_reachable(eg: ExecutionGraph, entry: usize)
    requires
        eg.wf(),
        entry < eg.nodes().len(),
    ensures
        wcsd_search(eg, entry).1 <==> reaches_recursion(eg, entry),
{
    lemma_visit(eg, Seq::empty(), entry, 0, (0, false, Seq::empty()));
    if recursion_below(eg, Seq::empty(), entry) {
        let e = choose|e: Seq<usize>| #[trigger] extends(eg, Seq::empty(), entry, e) && closes_cycle(eg, e);
        lemma_extends_from_entry(eg, entry, e);
    }
    if reaches_recursion(eg, entry) {
        let p = choose|p: Seq<usize>| #[trigger] is_simple_call_path(eg, entry, p) && closes_cycle(eg, p);
        lemma_extends_from_entry(eg, entry, p);
    }
}

/// `result` is the analysis from `entry` with the given budget: the search's depth, recursion flag
/// and critical path, and whether the budget is exceeded.
pub open spec fn analysis_of(eg: ExecutionGraph, entry: usize, budget: usize, result: WcsdResult) -> bool {
    let w = wcsd_search(eg, entry);
    &&& result.max_depth_bytes == w.0
    &&& result.is_unbounded == w.1
    &&& result.critical_path@ == path_names(eg, w.2)
    &&& result.budget_exceeded == (result.is_unbounded || result.max_depth_bytes > budget)
}

/// The budget decides only whether it is exceeded: two analyses from one entry with different
/// budgets have the same depth, recursion flag and critical path, and where the larger budget is
/// exceeded, the smaller one is too.
pub proof fn law_budget_decides_only_exceeded(
    eg: ExecutionGraph,
    entry: usize,
    smaller: usize,
    larger: usize,
    x: WcsdResult,
    y: WcsdResult,
)
    requires
        smaller <= larger,
        analysis_of(eg, entry, smaller, x),
        analysis_of(eg, entry, larger, y),
    ensures
        x.max_depth_bytes == y.max_depth_bytes,
        x.is_unbounded == y.is_unbounded,
        x.critical_path@ == y.critical_path@,
        y.budget_exceeded ==> x.budget_exceeded,
{
}

/// The sum of the frame sizes of the first `n` functions.
pub open spec fn total_frames(eg: ExecutionGraph, n: int) -> int
    decreases n,
{
    if n <= 0 {
        0
    } else {
        total_frames(eg, n - 1) + frame_of(eg, (n - 1) as usize)
    }
}

/// The sum of frames never shrinks as functions are added.
proof fn lemma_total_grows(eg: ExecutionGraph, m: int, n: int)
    requires
        0 <= m <= n,
    ensures
        total_frames(eg, m) <= total_frames(eg, n),
    decreases n - m,
{
    if m < n {
        lemma_total_grows(eg, m, n - 1);
    }
}

/// The frames of the first `n` functions add up to at most `n` times `usize::MAX`.
proof fn lemma_total_at_most(eg: ExecutionGraph, n: int)
    requires
        0 <= n,
    ensures
        total_frames(eg, n) <= n * (usize::MAX as int),
    decreases n,
{
    if n > 0 {
        lemma_total_at_most(eg, n - 1);
        assert(frame_of(eg, (n - 1) as usize) <= usize::MAX);
        assert((n - 1) * (usize::MAX as int) + (usize::MAX as int) == n * (usize::MAX as int)) by (nonlinear_arith);
    }
}

/// No simple call path of a well-formed graph is deeper than `u128::MAX`.
proof fn lemma_depth_fits_u128(eg: ExecutionGraph, entry: usize)
    requires
        eg.wf(),
    ensures
        depth_fits(eg, entry, u128::MAX as int),
{
    let n = eg.nodes().len() as int;
    lemma_total_at_most(eg, n);
    assert(n * (usize::MAX as int) <= 0xFFFF_FFFFint * 0xFFFF_FFFF_FFFF_FFFFint) by (nonlinear_arith)
        requires
            0 <= n <= 0xFFFF_FFFFint,
            0 <= usize::MAX <= 0xFFFF_FFFF_FFFF_FFFFint,
    ;
    assert forall|p: Seq<usize>| #[trigger] is_simple_call_path(eg, entry, p) implies path_depth(eg, p) <= u128::MAX by {
        lemma_depth_within_total(eg, p, n);
    }
}

/// Taking one function out of a path takes its frame out of the path's depth.
proof fn lemma_depth_remove(eg: ExecutionGraph, p: Seq<usize>, i: int)
    requires
        0 <= i < p.len(),
    ensures
        path_depth(eg, p) == path_depth(eg, p.remove(i)) + frame_of(eg, p[i]),
    decreases p.len(),
{
    if i < p.len() - 1 {
        lemma_depth_remove(eg, p.drop_last(), i);
        assert(p.drop_last().remove(i) =~= p.remove(i).drop_last());
        assert(p.remove(i).last() == p.last());
    } else {
        assert(p.remove(i) =~= p.drop_last());
    }
}

/// A path through distinct functions among the first `n` is no deeper than all their frames together.
proof fn lemma_depth_within_total(eg: ExecutionGraph, p: Seq<usize>, n: int)
    requires
        0 <= n,
        p.no_duplicates(),
        forall|k: int| 0 <= k < p.len() ==> #[trigger] p[k] < n,
    ensures
        path_depth(eg, p) <= total_frames(eg, n),
    decreases n,
{
    if n > 0 {
        let top = (n - 1) as usize;
        if p.contains(top) {
            let i = choose|i: int| 0 <= i < p.len() && p[i] == top;
            let q = p.remove(i);
            lemma_depth_remove(eg, p, i);
            assert forall|k: int| 0 <= k < q.len() implies #[trigger] q[k] < n - 1 by {
                let src = if k < i { k } else { k + 1 };
                assert(q[k] == p[src]);
                assert(src != i);
            }
            assert(q.no_duplicates()) by {
                assert forall|a: int, b: int| 0 <= a < q.len() && 0 <= b < q.len() && a != b implies q[a] != q[b] by {
                    let sa = if a < i { a } else { a + 1 };
                    let sb = if b < i { b } else { b + 1 };
                    assert(q[a] == p[sa] && q[b] == p[sb]);
                }
            }
            lemma_depth_within_total(eg, q, n - 1);
        } else {
            assert forall|k: int| 0 <= k < p.len() implies #[trigger] p[k] < n - 1 by {
                assert(p[k] != top);
            }
            lemma_depth_within_total(eg, p, n - 1);
        }
    }
}

impl WcsdEngine {
    /// The sum of the frame sizes of all functions, or `None` when it exceeds `usize::MAX`. When it
    /// fits, no call path from any entry can overflow the depth computation.
    pub fn total_frame_bytes(eg: &ExecutionGraph) -> (r: Option<usize>)
        requires
            eg.wf(),
        ensures
            match r {
                Some(t) => t == total_frames(*eg, eg.nodes().len() as int),
                None => total_frames(*eg, eg.nodes().len() as int) > usize::MAX,
            },
            r is Some ==> forall|entry: usize| depth_fits(*eg, entry, usize::MAX as int),
    {
        let n = graph_node_count(&eg.graph);
        let mut total: usize = 0;
        let mut i: usize = 0;
        while i < n
            invariant
                eg.wf(),
                n == eg.nodes().len(),
                i <= n,
                total == total_frames(*eg, i as int),
            decreases n - i,
        {
            let frame = graph_node(&eg.graph, i).physical_frame_size_bytes;
            if frame > usize::MAX - total {
                proof {
                    lemma_total_grows(*eg, i as int + 1, n as int);
                }
                return None;
            }
            total = total + frame;
            i += 1;
        }
        proof {
            assert forall|entry: usize| depth_fits(*eg, entry, usize::MAX as int) by {
                assert forall|p: Seq<usize>| #[trigger] is_simple_call_path(*eg, entry, p) implies path_depth(*eg, p)
                    <= usize::MAX by {
                    lemma_depth_within_total(*eg, p, n as int);
                }
            }
        }
        Some(total)
    }


    /// Analyze stack depth starting from an entry node.
    pub fn analyze(eg: &ExecutionGraph, entry_node: usize, budget: usize) -> (result: WcsdResult)
        requires
            eg.wf(),
            entry_node < eg.nodes().len(),
            depth_fits(*eg, entry_node, usize::MAX as int),
        ensures
            analysis_of(*eg, entry_node, budget, result),
            forall|p: Seq<usize>| #[trigger] is_simple_call_path(*eg, entry_node, p) ==> path_depth(*eg, p)
                <= result.max_depth_bytes,
            result.max_depth_bytes > 0 ==> exists|p: Seq<usize>|
                #[trigger] is_simple_call_path(*eg, entry_node, p) && path_depth(*eg, p) == result.max_depth_bytes
                    && path_names(*eg, p) == result.critical_path@,
            result.max_depth_bytes == 0 ==> result.critical_path@.len() == 0,
            result.is_unbounded <==> reaches_recursion(*eg, entry_node),
            result.is_unbounded <==> reaches_call_cycle(*eg, entry_node),
    {
        let (max_depth, is_unbounded, critical_path) = Self::search(eg, entry_node);
        proof {
            law_wcsd_is_deepest_call_path(*eg, entry_node);
            law_unbounded_iff_recursion_reachable(*eg, entry_node);
            law_unbounded_iff_cycle_reachable(*eg, entry_node);
            let w = wcsd_search(*eg, entry_node);
            if w.0 > 0 {
                assert(is_simple_call_path(*eg, entry_node, w.2));
            }
        }
        let max_depth = max_depth as usize;
        WcsdResult {
            max_depth_bytes: max_depth,
            is_unbounded,
            critical_path,
            budget_exceeded: is_unbounded || max_depth > budget,
        }
    }

    /// Analyze stack depth starting from an entry node, when no call path from it is deeper than
    /// `usize::MAX`; `None` exactly when some path is deeper.
    pub fn analyze_checked(eg: &ExecutionGraph, entry_node: usize, budget: usize) -> (r: Option<WcsdResult>)
        requires
            eg.wf(),
            entry_node < eg.nodes().len(),
        ensures
            r is Some <==> depth_fits(*eg, entry_node, usize::MAX as int),
            r matches Some(result) ==> analysis_of(*eg, entry_node, budget, result),
    {
        let (max_depth, is_unbounded, critical_path) = Self::search(eg, entry_node);
        proof {
            law_wcsd_is_deepest_call_path(*eg, entry_node);
            let w = wcsd_search(*eg, entry_node);
            if w.0 > 0 {
                assert(is_simple_call_path(*eg, entry_node, w.2));
            }
        }
        if max_depth > usize::MAX as u128 {
            return None;
        }
        let max_depth = max_depth as usize;
        Some(WcsdResult {
            max_depth_bytes: max_depth,
            is_unbounded,
            critical_path,
            budget_exceeded: is_unbounded || max_depth > budget,
        })
    }

    /// The search from `entry_node`, depths taken in 128 bits: the deepest depth, whether recursion
    /// is reachable, and the names along the critical path.
    fn search(eg: &ExecutionGraph, entry_node: usize) -> (r: (u128, bool, Vec<String>))
        requires
            eg.wf(),
            entry_node < eg.nodes().len(),
        ensures
            ({
                let w = wcsd_search(*eg, entry_node);
                &&& r.0 == w.0
                &&& r.1 == w.1
                &&& r.2@ == path_names(*eg, w.2)
            }),
    {
        let n = graph_node_count(&eg.graph);
        let mut max_depth: u128 = 0;
        let mut is_unbounded = false;
        let mut critical: Vec<usize> = Vec::new();
        let mut current_path: Vec<usize> = Vec::new();
        let mut on_path: Vec<bool> = Vec::new();
        while on_path.len() < n
            invariant
                n == eg.nodes().len(),
                on_path@.len() <= n,
                forall|i: int| 0 <= i < on_path@.len() ==> !on_path@[i],
            decreases n - on_path.len(),
        {
            on_path.push(false);
        }
        proof {
            lemma_depth_fits_u128(*eg, entry_node);
            assert forall|e: Seq<usize>| #[trigger] extends(*eg, current_path@, entry_node, e) implies 0
                + extension_depth(*eg, current_path@, e) <= u128::MAX by {
                lemma_extends_from_entry(*eg, entry_node, e);
                assert(current_path@ =~= Seq::<usize>::empty());
            }
        }
        Self::dfs(
            eg,
            entry_node,
            0,
            &mut current_path,
            &mut on_path,
            &mut max_depth,
            &mut is_unbounded,
            &mut critical,
        );
        proof {
            assert(critical@ == wcsd_search(*eg, entry_node).2);
        }
        let mut critical_path: Vec<String> = Vec::new();
        let mut i: usize = 0;
        while i < critical.len()
            invariant
                eg.wf(),
                n == eg.nodes().len(),
                i <= critical.len(),
                forall|k: int| 0 <= k < critical@.len() ==> #[trigger] critical@[k] < n,
                critical_path@ == path_names(*eg, critical@.take(i as int)),
            decreases critical.len() - i,
        {
            let name = graph_node(&eg.graph, critical[i]).symbol_name.clone();
            critical_path.push(name);
            proof {
                assert(critical@.take(i + 1) =~= critical@.take(i as int).push(critical@[i as int]));
                assert(path_names(*eg, critical@.take(i + 1)) =~= path_names(*eg, critical@.take(i as int)).push(name));
            }
            i += 1;
        }
        proof {
            assert(critical@.take(i as int) =~= critical@);
        }
        (max_depth, is_unbounded, critical_path)
    }


    /// Depth-first search step: visits `current` below `current_path`, whose functions `on_path`
    /// marks. Afterwards the path and the marks are as before; `max_depth` is the larger of its old
    /// value and the deepest continuation of the path through `current` (counted from
    /// `current_depth`), and `critical_path` is that continuation when it is deeper, else unchanged;
    /// `is_unbounded` is set when the path returns to itself through `current`.
    fn dfs(
        eg: &ExecutionGraph,
        current: usize,
        current_depth: u128,
        current_path: &mut Vec<usize>,
        on_path: &mut Vec<bool>,
        max_depth: &mut u128,
        is_unbounded: &mut bool,
        critical_path: &mut Vec<usize>,
    )
        requires
            eg.wf(),
            current < eg.nodes().len(),
            old(on_path)@.len() == eg.nodes().len(),
            forall|i: int| 0 <= i < eg.nodes().len() ==> old(on_path)@[i] == old(current_path)@.contains(i as usize),
            old(current_path)@.no_duplicates(),
            forall|k: int| 0 <= k < old(current_path)@.len() ==> #[trigger] old(current_path)@[k] < eg.nodes().len(),
            forall|e: Seq<usize>| #[trigger]
                extends(*eg, old(current_path)@, current, e) ==> current_depth + extension_depth(
                    *eg,
                    old(current_path)@,
                    e,
                ) <= u128::MAX,
        ensures
            final(current_path)@ == old(current_path)@,
            final(on_path)@ == old(on_path)@,
            *final(max_depth) >= *old(max_depth),
            forall|e: Seq<usize>| #[trigger]
                extends(*eg, old(current_path)@, current, e) ==> current_depth + extension_depth(
                    *eg,
                    old(current_path)@,
                    e,
                ) <= *final(max_depth),
            *final(max_depth) > *old(max_depth) ==> extends(*eg, old(current_path)@, current, final(critical_path)@)
                && current_depth + extension_depth(*eg, old(current_path)@, final(critical_path)@) == *final(max_depth),
            *final(max_depth) == *old(max_depth) ==> final(critical_path)@ == old(critical_path)@,
            *final(is_unbounded) == (*old(is_unbounded) || recursion_below(*eg, old(current_path)@, current)),
            (*final(max_depth) as int, *final(is_unbounded), final(critical_path)@) == visit(
                *eg,
                old(current_path)@,
                current,
                current_depth as int,
                (*old(max_depth) as int, *old(is_unbounded), old(critical_path)@),
            ),
        decreases eg.nodes().len() - old(current_path)@.len(),
    {
        let ghost path = current_path@;
        let ghost n = eg.nodes().len();
        let ghost st = (*max_depth as int, *is_unbounded, critical_path@);
        proof {
            lemma_visit(*eg, path, current, current_depth as int, st);
        }
        // Recursion / cycle detection
        if on_path[current] {
            *is_unbounded = true;
            return;
        }
        let ghost p2 = path.push(current);
        proof {
            assert(!path.contains(current));
            assert forall|k: int| 0 <= k < p2.len() implies #[trigger] p2[k] < n by {
                if k < path.len() {
                    assert(p2[k] == path[k]);
                }
            }
            lemma_extends_base(*eg, path, current);
            lemma_distinct_len(p2, n);
            lemma_depth_push(*eg, path, current);
        }
        let node = graph_node(&eg.graph, current);
        let new_depth = current_depth + node.physical_frame_size_bytes as u128;
        // Push traversal state
        current_path.push(current);
        on_path.set(current, true);
        // Track deepest path
        if new_depth > *max_depth {
            *max_depth = new_depth;
            *critical_path = current_path.clone();
            proof {
                assert(critical_path@ =~= p2);
            }
        }
        let ghost st1 = if (new_depth as int) > st.0 { (new_depth as int, st.1, p2) } else { st };
        let ghost total = visit_calls(*eg, p2, eg.succ(current), 0, new_depth as int, st1);
        assert(total == visit(*eg, path, current, current_depth as int, st));
        // Traverse outbound edges
        let targets = graph_outgoing(&eg.graph, current);
        proof {
            eg.lemma_succ_in_bounds(current);
        }
        let mut k: usize = 0;
        while k < targets.len()
            invariant
                eg.wf(),
                n == eg.nodes().len(),
                current < n,
                targets@ == eg.succ(current),
                0 <= k <= targets.len(),
                forall|j: int| 0 <= j < targets@.len() ==> #[trigger] targets@[j] < n,
                current_path@ == p2,
                p2 == path.push(current),
                p2.len() <= n,
                path == old(current_path)@,
                p2.no_duplicates(),
                forall|i: int| 0 <= i < p2.len() ==> #[trigger] p2[i] < n,
                on_path@.len() == n,
                forall|i: int| 0 <= i < n ==> on_path@[i] == p2.contains(i as usize),
                new_depth == current_depth + frame_of(*eg, current),
                path_depth(*eg, p2) == path_depth(*eg, path) + frame_of(*eg, current),
                forall|e: Seq<usize>| #[trigger]
                    extends(*eg, path, current, e) ==> current_depth + extension_depth(*eg, path, e) <= u128::MAX,
                visit_calls(*eg, p2, targets@, k as int, new_depth as int, (*max_depth as int, *is_unbounded, critical_path@))
                    == total,
            decreases targets.len() - k,
        {
            let t = targets[k];
            proof {
                assert(eg.succ(current).contains(t)) by {
                    assert(targets@[k as int] == t);
                }
                assert forall|e: Seq<usize>| #[trigger] extends(*eg, p2, t, e) implies new_depth + extension_depth(
                    *eg,
                    p2,
                    e,
                ) <= u128::MAX by {
                    lemma_extends_join(*eg, path, current, t, e);
                }
            }
            Self::dfs(eg, t, new_depth, current_path, on_path, max_depth, is_unbounded, critical_path);
            k += 1;
        }
        // Backtrack
        on_path.set(current, false);
        current_path.pop();
        proof {
            assert(on_path@ =~= old(on_path)@);
            assert(current_path@ =~= path);
        }
    }
}

} // verus!
