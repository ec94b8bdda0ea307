//! Stack regression detection between a baseline and a candidate firmware image.
use crate::sdt::abstract_interpreter::{
    WcsdEngine, WcsdResult, analysis_of, depth_fits, path_names, reaches_recursion, wcsd_search,
};
use crate::types::ExecutionGraph;
use vstd::prelude::*;

verus! {

#[derive(Debug)]
pub struct WcsdDiffResult {
    pub baseline_depth_bytes: usize,
    pub candidate_depth_bytes: usize,
    /// Positive means regression.
    pub stack_delta_bytes: isize,
    pub baseline_unbounded: bool,
    pub candidate_unbounded: bool,
    /// Did the candidate introduce recursion?
    pub new_recursion_introduced: bool,
    pub candidate_critical_path: Vec<String>,
    /// Did the critical stack path change?
    pub critical_path_changed: bool,
}

/// `result` is the comparison of the analyses of `baseline_graph` from `baseline_entry` and of
/// `candidate_graph` from `candidate_entry`.
pub open spec fn diff_of(
    baseline_graph: ExecutionGraph,
    candidate_graph: ExecutionGraph,
    baseline_entry: usize,
    candidate_entry: usize,
    result: WcsdDiffResult,
) -> bool {
    let b = wcsd_search(baseline_graph, baseline_entry);
    let c = wcsd_search(candidate_graph, candidate_entry);
    &&& result.baseline_depth_bytes == b.0
    &&& result.candidate_depth_bytes == c.0
    &&& result.baseline_unbounded == b.1
    &&& result.candidate_unbounded == c.1
    &&& result.candidate_critical_path@ == path_names(candidate_graph, c.2)
    &&& result.critical_path_changed == (names_view(path_names(baseline_graph, b.2)) != names_view(
        path_names(candidate_graph, c.2),
    ))
    &&& result.stack_delta_bytes == depth_delta(result.baseline_depth_bytes, result.candidate_depth_bytes)
    &&& result.new_recursion_introduced == (!result.baseline_unbounded && result.candidate_unbounded)
}

/// A comparison is the comparison of the two analyses, whatever their budgets: its depths, flags
/// and candidate path are theirs, its delta is their depth difference, and it reports new
/// recursion and a changed critical path exactly as their results differ.
pub proof fn law_diff_is_diff_of_analyses(
    baseline_graph: ExecutionGraph,
    candidate_graph: ExecutionGraph,
    baseline_entry: usize,
    candidate_entry: usize,
    baseline_budget: usize,
    candidate_budget: usize,
    baseline: WcsdResult,
    candidate: WcsdResult,
    result: WcsdDiffResult,
)
    requires
        analysis_of(baseline_graph, baseline_entry, baseline_budget, baseline),
        analysis_of(candidate_graph, candidate_entry, candidate_budget, candidate),
        diff_of(baseline_graph, candidate_graph, baseline_entry, candidate_entry, result),
    ensures
        result.baseline_depth_bytes == baseline.max_depth_bytes,
        result.candidate_depth_bytes == candidate.max_depth_bytes,
        result.stack_delta_bytes == depth_delta(baseline.max_depth_bytes, candidate.max_depth_bytes),
        result.baseline_unbounded == baseline.is_unbounded,
        result.candidate_unbounded == candidate.is_unbounded,
        result.new_recursion_introduced == (!baseline.is_unbounded && candidate.is_unbounded),
        result.candidate_critical_path@ == candidate.critical_path@,
        result.critical_path_changed == (names_view(baseline.critical_path@) != names_view(candidate.critical_path@)),
{
}

/// Comparing an image with itself reports no change: equal depths, no delta, no new recursion, the
/// same critical path, and no regression.
pub proof fn law_diff_of_same_image_is_neutral(eg: ExecutionGraph, entry: usize, result: WcsdDiffResult)
    requires
        diff_of(eg, eg, entry, entry, result),
    ensures
        result.baseline_depth_bytes == result.candidate_depth_bytes,
        result.baseline_unbounded == result.candidate_unbounded,
        result.stack_delta_bytes == 0,
        !result.new_recursion_introduced,
        !result.critical_path_changed,
        !(result.new_recursion_introduced || result.stack_delta_bytes > 0),
{
}

/// The finding that a comparison reports.
#[derive(Debug, Clone, Copy, PartialEq, Eq)]
pub enum DiffFinding {
    /// The candidate introduced recursion.
    NewRecursion,
    /// The candidate needs more stack than the baseline, by the delta in bytes.
    StackGrowth { delta_bytes: isize },
}

impl WcsdDiffResult {
    /// The finding to report: new recursion first, else stack growth; none when the candidate did
    /// not regress.
    pub fn finding(&self) -> (r: Option<DiffFinding>)
        ensures
            r is None <==> !(self.new_recursion_introduced || self.stack_delta_bytes > 0),
            r matches Some(DiffFinding::NewRecursion) <==> self.new_recursion_introduced,
            r matches Some(DiffFinding::StackGrowth { delta_bytes }) ==> !self.new_recursion_introduced
                && self.stack_delta_bytes > 0 && delta_bytes == self.stack_delta_bytes,
    {
        if self.new_recursion_introduced {
            Some(DiffFinding::NewRecursion)
        } else if self.stack_delta_bytes > 0 {
            Some(DiffFinding::StackGrowth { delta_bytes: self.stack_delta_bytes })
        } else {
            None
        }
    }

    /// The candidate regressed: it introduced recursion or needs more stack than the baseline.
    pub fn regression_detected(&self) -> (r: bool)
        ensures
            r == (self.new_recursion_introduced || self.stack_delta_bytes > 0),
    {
        self.new_recursion_introduced || self.stack_delta_bytes > 0
    }
}

pub struct DiffEngine;

/// The names of a path, each as its characters.
pub open spec fn names_view(names: Seq<String>) -> Seq<Seq<char>> {
    names.map_values(|s: String| s@)
}

/// Whether the two paths differ, name by name.
pub fn paths_differ(a: &Vec<String>, b: &Vec<String>) -> (r: bool)
    ensures
        r == (names_view(a@) != names_view(b@)),
{
    if a.len() != b.len() {
        proof {
            assert(names_view(a@).len() != names_view(b@).len());
        }
        return true;
    }
    let mut i: usize = 0;
    while i < a.len()
        invariant
            a.len() == b.len(),
            i <= a.len(),
            forall|k: int| 0 <= k < i ==> (#[trigger] a@[k])@ == b@[k]@,
        decreases a.len() - i,
    {
        if a[i] != b[i] {
            proof {
                assert(names_view(a@)[i as int] != names_view(b@)[i as int]);
            }
            return true;
        }
        i += 1;
    }
    proof {
        assert(names_view(a@) =~= names_view(b@));
    }
    false
}

/// The depth difference, each depth taken as an `isize` (values above `isize::MAX` wrap).
pub open spec fn depth_delta(baseline_depth: usize, candidate_depth: usize) -> int {
    (candidate_depth as isize) - (baseline_depth as isize)
}

impl DiffEngine {
    /// Compares the analyses of a baseline and a candidate image of one program.
    pub fn diff(
        baseline_graph: &ExecutionGraph,
        candidate_graph: &ExecutionGraph,
        baseline_entry: usize,
        candidate_entry: usize,
        budget: usize,
    ) -> (result: WcsdDiffResult)
        requires
            baseline_graph.wf(),
            candidate_graph.wf(),
            baseline_entry < baseline_graph.nodes().len(),
            candidate_entry < candidate_graph.nodes().len(),
            depth_fits(*baseline_graph, baseline_entry, usize::MAX as int),
            depth_fits(*candidate_graph, candidate_entry, usize::MAX as int),
            isize::MIN <= depth_delta(
                wcsd_search(*baseline_graph, baseline_entry).0 as usize,
                wcsd_search(*candidate_graph, candidate_entry).0 as usize,
            ) <= isize::MAX,
        ensures
            diff_of(*baseline_graph, *candidate_graph, baseline_entry, candidate_entry, result),
            result.new_recursion_introduced <==> !reaches_recursion(*baseline_graph, baseline_entry)
                && reaches_recursion(*candidate_graph, candidate_entry),
    {
        let baseline_result = WcsdEngine::analyze(baseline_graph, baseline_entry, budget);
        let candidate_result = WcsdEngine::analyze(candidate_graph, candidate_entry, budget);
        Self::build_diff(baseline_result, candidate_result)
    }

    /// Puts the analyses of the baseline and of the candidate side by side.
    pub fn build_diff(baseline: WcsdResult, candidate: WcsdResult) -> (result: WcsdDiffResult)
        requires
            isize::MIN <= depth_delta(baseline.max_depth_bytes, candidate.max_depth_bytes) <= isize::MAX,
        ensures
            result.baseline_depth_bytes == baseline.max_depth_bytes,
            result.candidate_depth_bytes == candidate.max_depth_bytes,
            result.stack_delta_bytes == depth_delta(baseline.max_depth_bytes, candidate.max_depth_bytes),
            baseline.max_depth_bytes <= isize::MAX && candidate.max_depth_bytes <= isize::MAX ==> result.stack_delta_bytes
                == candidate.max_depth_bytes - baseline.max_depth_bytes,
            result.baseline_unbounded == baseline.is_unbounded,
            result.candidate_unbounded == candidate.is_unbounded,
            result.new_recursion_introduced == (!baseline.is_unbounded && candidate.is_unbounded),
            result.candidate_critical_path@ == candidate.critical_path@,
            result.critical_path_changed == (names_view(baseline.critical_path@) != names_view(
                candidate.critical_path@,
            )),
    {
        let critical_path_changed = paths_differ(&baseline.critical_path, &candidate.critical_path);
        WcsdDiffResult {
            baseline_depth_bytes: baseline.max_depth_bytes,
            candidate_depth_bytes: candidate.max_depth_bytes,
            stack_delta_bytes: candidate.max_depth_bytes as isize - baseline.max_depth_bytes as isize,
            baseline_unbounded: baseline.is_unbounded,
            candidate_unbounded: candidate.is_unbounded,
            new_recursion_introduced: !baseline.is_unbounded && candidate.is_unbounded,
            candidate_critical_path: candidate.critical_path,
            critical_path_changed,
        }
    }
}

} // verus!
