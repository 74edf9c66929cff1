use vstd::prelude::*;
use crate::expr::spec_binary_count;
use crate::plan::{
    arena_wf, join_with_rows, node_wf, spec_inputs, union_with_rows, Arena, JoinType, PlanNode,
};
use crate::resolve::lemma_inputs_below;
use crate::sat::{lemma_sat_add_assoc, sat_add, sat_add_usize, sat_mul, sat_mul_usize};

verus! {

/// A (known, estimated, filter-count) triple at the specification level.
pub struct EstTriple {
    /// The exact row count, when one is authoritative.
    pub known: Option<usize>,
    /// The approximate row count.
    pub est: int,
    /// Filtering predicates seen but not yet accounted for.
    pub filters: int,
}

/// `e` shrunk by the selectivity heuristic applied once per filter: each
/// predicate is assumed to retain nine tenths of the rows, rounded down.
pub open spec fn spec_decay_est(e: int, k: int) -> int
    decreases k,
{
    if k <= 0 {
        e
    } else {
        (spec_decay_est(e, k - 1) * 9) / 10
    }
}

/// Selectivity decay of a row pair: with no filters it is unchanged; any
/// filter makes the known count unknown and shrinks the estimate.
pub open spec fn spec_decay(known: Option<usize>, est: int, k: int) -> (Option<usize>, int) {
    if k == 0 {
        (known, est)
    } else {
        (None, spec_decay_est(est, k))
    }
}

pub proof fn lemma_decay_est_bounds(e: int, k: int)
    requires
        0 <= e,
    ensures
        0 <= spec_decay_est(e, k) <= e,
    decreases k,
{
    if k > 0 {
        lemma_decay_est_bounds(e, k - 1);
    }
}

/// Clamp a triple to an optional output slice: both counts are cut to the
/// slice length, a smaller value staying as it is.
pub open spec fn spec_clamp(t: EstTriple, slice: Option<(i64, usize)>) -> EstTriple {
    match slice {
        Some((_, len)) => EstTriple {
            known: match t.known {
                Some(k) => Some(if len < k {
                    len
                } else {
                    k
                }),
                None => None,
            },
            est: if len < t.est {
                len as int
            } else {
                t.est
            },
            filters: t.filters,
        },
        None => t,
    }
}

/// The cross and full-outer combination: the product of two known counts
/// when both sides have one (the estimate then carried from the left side
/// alone), else the product of the two estimates.
pub open spec fn spec_cross_combine(dl: (Option<usize>, int), dr: (Option<usize>, int)) -> EstTriple {
    match (dl.0, dr.0) {
        (Some(l), Some(r)) => EstTriple {
            known: Some(sat_mul(l as int, r as int) as usize),
            est: dl.1,
            filters: 0,
        },
        _ => EstTriple { known: None, est: sat_mul(dl.1, dr.1), filters: 0 },
    }
}

/// The estimated row triple of node `root` under `fc` filters seen so far,
/// per operator: filters deepen the count, slices clamp, unions sum their
/// decayed branches, joins combine their decayed sides per kind, sources
/// report their own counts, and any other operator sums its inputs with a
/// first-wins known count.
pub open spec fn spec_estimate(nodes: Seq<PlanNode>, root: int, fc: int) -> EstTriple
    decreases root, 1int, 0int,
    when 0 <= root < nodes.len() && arena_wf(nodes)
    via spec_estimate_dec
{
    match nodes[root] {
        PlanNode::Selection { input, predicate } => spec_estimate(
            nodes,
            input as int,
            sat_add(fc, sat_add(spec_binary_count(predicate), 1)),
        ),
        PlanNode::Slice { input, len, .. } => spec_clamp(
            spec_estimate(nodes, input as int, fc),
            Some((0, len)),
        ),
        PlanNode::Union { inputs, options } => spec_clamp(
            EstTriple {
                known: None,
                est: spec_union_sum(nodes, root, inputs@, 0),
                filters: 0,
            },
            options.slice,
        ),
        PlanNode::Join { input_left, input_right, options, .. } => {
            let lt = spec_estimate(nodes, input_left as int, 0);
            let rt = spec_estimate(nodes, input_right as int, 0);
            let dl = spec_decay(lt.known, lt.est, lt.filters);
            let dr = spec_decay(rt.known, rt.est, rt.filters);
            let combined = match options.how {
                JoinType::Left => EstTriple { known: dl.0, est: dl.1, filters: lt.filters },
                JoinType::Cross => spec_cross_combine(dl, dr),
                JoinType::Outer { .. } => spec_cross_combine(dl, dr),
                _ => if dl.1 > dr.1 {
                    EstTriple { known: dl.0, est: dl.1, filters: 0 }
                } else {
                    EstTriple { known: dr.0, est: dr.1, filters: 0 }
                },
            };
            spec_clamp(combined, options.slice)
        },
        PlanNode::DataFrameScan { n_rows, .. } => EstTriple {
            known: Some(n_rows),
            est: n_rows as int,
            filters: fc,
        },
        PlanNode::Scan { file_info } => EstTriple {
            known: file_info.row_estimation.0,
            est: file_info.row_estimation.1 as int,
            filters: fc,
        },
        PlanNode::ExternalScan { .. } => EstTriple {
            known: None,
            est: usize::MAX as int,
            filters: fc,
        },
        _ => spec_sum_inputs(nodes, root, spec_inputs(nodes[root]), 0, fc),
    }
}

/// The saturating sum of the decayed estimates of the union branches
/// `inputs[k..]`, each branch estimated with a fresh filter count.
pub open spec fn spec_union_sum(nodes: Seq<PlanNode>, root: int, inputs: Seq<usize>, k: int) -> int
    decreases root, 0int, inputs.len() - k,
    when 0 <= root < nodes.len() && arena_wf(nodes) && (forall|j: int|
        0 <= j < inputs.len() ==> (#[trigger] inputs[j]) < root)
{
    if k < 0 || k >= inputs.len() {
        0
    } else {
        let t = spec_estimate(nodes, inputs[k] as int, 0);
        let d = spec_decay(t.known, t.est, t.filters);
        sat_add(d.1, spec_union_sum(nodes, root, inputs, k + 1))
    }
}

/// The fold of a default node's inputs `k..`: estimates and filter counts
/// are summed, the known count is the first one reported.
pub open spec fn spec_sum_inputs(
    nodes: Seq<PlanNode>,
    root: int,
    inputs: Seq<usize>,
    k: int,
    fc: int,
) -> EstTriple
    decreases root, 0int, inputs.len() - k,
    when 0 <= root < nodes.len() && arena_wf(nodes) && (forall|j: int|
        0 <= j < inputs.len() ==> (#[trigger] inputs[j]) < root)
{
    if k < 0 || k >= inputs.len() {
        EstTriple { known: None, est: 0, filters: 0 }
    } else {
        let t = spec_estimate(nodes, inputs[k] as int, fc);
        let rest = spec_sum_inputs(nodes, root, inputs, k + 1, fc);
        EstTriple {
            known: if t.known is Some {
                t.known
            } else {
                rest.known
            },
            est: sat_add(t.est, rest.est),
            filters: sat_add(t.filters, rest.filters),
        }
    }
}

#[via_fn]
proof fn spec_estimate_dec(nodes: Seq<PlanNode>, root: int, fc: int) {
    lemma_inputs_below(nodes, root);
}

/// Estimates and filter counts stay within the machine word.
pub proof fn lemma_estimate_bounds(nodes: Seq<PlanNode>, root: int, fc: int)
    requires
        arena_wf(nodes),
        0 <= root < nodes.len(),
        0 <= fc <= usize::MAX,
    ensures
        0 <= spec_estimate(nodes, root, fc).est <= usize::MAX,
        0 <= spec_estimate(nodes, root, fc).filters <= usize::MAX,
    decreases root, 1int, 0int,
{
    lemma_inputs_below(nodes, root);
    match nodes[root] {
        PlanNode::Selection { input, predicate } => {
            crate::expr::lemma_binary_count_bounds(predicate);
            lemma_estimate_bounds(
                nodes,
                input as int,
                sat_add(fc, sat_add(spec_binary_count(predicate), 1)),
            );
        },
        PlanNode::Slice { input, .. } => {
            lemma_estimate_bounds(nodes, input as int, fc);
        },
        PlanNode::Union { inputs, .. } => {
            lemma_union_sum_bounds(nodes, root, inputs@, 0);
        },
        PlanNode::Join { input_left, input_right, .. } => {
            lemma_estimate_bounds(nodes, input_left as int, 0);
            lemma_estimate_bounds(nodes, input_right as int, 0);
            let lt = spec_estimate(nodes, input_left as int, 0);
            let rt = spec_estimate(nodes, input_right as int, 0);
            lemma_decay_est_bounds(lt.est, lt.filters);
            lemma_decay_est_bounds(rt.est, rt.filters);
        },
        _ => {
            lemma_sum_inputs_bounds(nodes, root, spec_inputs(nodes[root]), 0, fc);
        },
    }
}

pub proof fn lemma_union_sum_bounds(nodes: Seq<PlanNode>, root: int, inputs: Seq<usize>, k: int)
    requires
        arena_wf(nodes),
        0 <= root < nodes.len(),
        forall|j: int| 0 <= j < inputs.len() ==> (#[trigger] inputs[j]) < root,
    ensures
        0 <= spec_union_sum(nodes, root, inputs, k) <= usize::MAX,
    decreases root, 0int, inputs.len() - k,
{
    if 0 <= k < inputs.len() {
        lemma_estimate_bounds(nodes, inputs[k] as int, 0);
        let t = spec_estimate(nodes, inputs[k] as int, 0);
        lemma_decay_est_bounds(t.est, t.filters);
        lemma_union_sum_bounds(nodes, root, inputs, k + 1);
    }
}

pub proof fn lemma_sum_inputs_bounds(
    nodes: Seq<PlanNode>,
    root: int,
    inputs: Seq<usize>,
    k: int,
    fc: int,
)
    requires
        arena_wf(nodes),
        0 <= root < nodes.len(),
        0 <= fc <= usize::MAX,
        forall|j: int| 0 <= j < inputs.len() ==> (#[trigger] inputs[j]) < root,
    ensures
        0 <= spec_sum_inputs(nodes, root, inputs, k, fc).est <= usize::MAX,
        0 <= spec_sum_inputs(nodes, root, inputs, k, fc).filters <= usize::MAX,
    decreases root, 0int, inputs.len() - k,
{
    if 0 <= k < inputs.len() {
        lemma_estimate_bounds(nodes, inputs[k] as int, fc);
        lemma_sum_inputs_bounds(nodes, root, inputs, k + 1, fc);
    }
}

/// Two nodes that differ at most in the estimator's cached row pairs.
pub open spec fn node_cache_eq(x: PlanNode, y: PlanNode) -> bool {
    match (x, y) {
        (
            PlanNode::Union { inputs: xi, options: xo },
            PlanNode::Union { inputs: yi, options: yo },
        ) => xi == yi && xo.slice == yo.slice,
        (
            PlanNode::Join {
                input_left: xl,
                input_right: xr,
                schema: xs,
                left_on: xlo,
                right_on: xro,
                options: xo,
            },
            PlanNode::Join {
                input_left: yl,
                input_right: yr,
                schema: ys,
                left_on: ylo,
                right_on: yro,
                options: yo,
            },
        ) => xl == yl && xr == yr && xs == ys && xlo == ylo && xro == yro && xo.how == yo.how
            && xo.suffix == yo.suffix && xo.slice == yo.slice,
        _ => x == y,
    }
}

/// Two arenas that differ at most in cached row pairs.
pub open spec fn cache_eq(a: Seq<PlanNode>, b: Seq<PlanNode>) -> bool {
    a.len() == b.len() && forall|j: int|
        0 <= j < a.len() ==> node_cache_eq(#[trigger] a[j], #[trigger] b[j])
}

/// Cache writes touch no node structure, so well-formedness carries over.
pub proof fn lemma_cache_eq_wf(a: Seq<PlanNode>, b: Seq<PlanNode>)
    requires
        arena_wf(a),
        cache_eq(a, b),
    ensures
        arena_wf(b),
{
    assert forall|i: int| 0 <= i < b.len() implies node_wf(#[trigger] b[i], i) by {
        assert(node_cache_eq(a[i], b[i]));
        assert(node_wf(a[i], i));
        match (a[i], b[i]) {
            (
                PlanNode::Union { inputs: xi, options: xo },
                PlanNode::Union { inputs: yi, options: yo },
            ) => {
                assert(spec_inputs(b[i]) == spec_inputs(a[i]));
            },
            (
                PlanNode::Join { input_left: xl, input_right: xr, .. },
                PlanNode::Join { input_left: yl, input_right: yr, .. },
            ) => {
                assert(spec_inputs(b[i]) == spec_inputs(a[i]));
            },
            _ => {},
        }
    }
}

/// The estimate of any node is untouched by cache writes anywhere in the
/// arena: no operator's estimate reads a cached pair.
pub proof fn lemma_estimate_cache_eq(a: Seq<PlanNode>, b: Seq<PlanNode>, root: int, fc: int)
    requires
        arena_wf(a),
        cache_eq(a, b),
        0 <= root < a.len(),
    ensures
        spec_estimate(a, root, fc) == spec_estimate(b, root, fc),
    decreases root, 1int, 0int,
{
    lemma_cache_eq_wf(a, b);
    lemma_inputs_below(a, root);
    assert(node_cache_eq(a[root], b[root]));
    match (a[root], b[root]) {
        (PlanNode::Union { inputs: xi, .. }, PlanNode::Union { inputs: yi, .. }) => {
            lemma_union_sum_cache_eq(a, b, root, xi@, 0);
        },
        (
            PlanNode::Join { input_left: xl, input_right: xr, .. },
            PlanNode::Join { input_left: yl, input_right: yr, .. },
        ) => {
            lemma_estimate_cache_eq(a, b, xl as int, 0);
            lemma_estimate_cache_eq(a, b, xr as int, 0);
        },
        _ => {
            assert(b[root] == a[root]);
            match a[root] {
                PlanNode::Selection { input, predicate } => {
                    lemma_estimate_cache_eq(
                        a,
                        b,
                        input as int,
                        sat_add(fc, sat_add(spec_binary_count(predicate), 1)),
                    );
                },
                PlanNode::Slice { input, .. } => {
                    lemma_estimate_cache_eq(a, b, input as int, fc);
                },
                PlanNode::DataFrameScan { .. } => {},
                PlanNode::Scan { .. } => {},
                PlanNode::ExternalScan { .. } => {},
                _ => {
                    lemma_sum_inputs_cache_eq(a, b, root, spec_inputs(a[root]), 0, fc);
                },
            }
        },
    }
}

pub proof fn lemma_union_sum_cache_eq(
    a: Seq<PlanNode>,
    b: Seq<PlanNode>,
    root: int,
    inputs: Seq<usize>,
    k: int,
)
    requires
        arena_wf(a),
        cache_eq(a, b),
        0 <= root < a.len(),
        forall|j: int| 0 <= j < inputs.len() ==> (#[trigger] inputs[j]) < root,
    ensures
        spec_union_sum(a, root, inputs, k) == spec_union_sum(b, root, inputs, k),
    decreases root, 0int, inputs.len() - k,
{
    lemma_cache_eq_wf(a, b);
    if 0 <= k < inputs.len() {
        lemma_estimate_cache_eq(a, b, inputs[k] as int, 0);
        lemma_union_sum_cache_eq(a, b, root, inputs, k + 1);
    }
}

pub proof fn lemma_sum_inputs_cache_eq(
    a: Seq<PlanNode>,
    b: Seq<PlanNode>,
    root: int,
    inputs: Seq<usize>,
    k: int,
    fc: int,
)
    requires
        arena_wf(a),
        cache_eq(a, b),
        0 <= root < a.len(),
        forall|j: int| 0 <= j < inputs.len() ==> (#[trigger] inputs[j]) < root,
    ensures
        spec_sum_inputs(a, root, inputs, k, fc) == spec_sum_inputs(b, root, inputs, k, fc),
    decreases root, 0int, inputs.len() - k,
{
    lemma_cache_eq_wf(a, b);
    if 0 <= k < inputs.len() {
        lemma_estimate_cache_eq(a, b, inputs[k] as int, fc);
        lemma_sum_inputs_cache_eq(a, b, root, inputs, k + 1, fc);
    }
}

/// The pair the estimator caches into a union node: the known count is
/// deliberately reported absent, the estimate is the node's own.
pub open spec fn spec_union_rows(nodes: Seq<PlanNode>, j: int) -> (Option<usize>, usize) {
    (None, spec_estimate(nodes, j, 0).est as usize)
}

/// The decayed pair the estimator caches for a join's left input.
pub open spec fn spec_join_rows_left(nodes: Seq<PlanNode>, j: int) -> (Option<usize>, usize) {
    match nodes[j] {
        PlanNode::Join { input_left, .. } => {
            let t = spec_estimate(nodes, input_left as int, 0);
            let d = spec_decay(t.known, t.est, t.filters);
            (d.0, d.1 as usize)
        },
        _ => (None, 0),
    }
}

/// The decayed pair the estimator caches for a join's right input.
pub open spec fn spec_join_rows_right(nodes: Seq<PlanNode>, j: int) -> (Option<usize>, usize) {
    match nodes[j] {
        PlanNode::Join { input_right, .. } => {
            let t = spec_estimate(nodes, input_right as int, 0);
            let d = spec_decay(t.known, t.est, t.filters);
            (d.0, d.1 as usize)
        },
        _ => (None, 0),
    }
}

/// `y` is the node at `j` with exactly the cache values the estimator
/// owes it.
pub open spec fn node_rows_updated(nodes: Seq<PlanNode>, j: int, y: PlanNode) -> bool {
    match nodes[j] {
        PlanNode::Union { .. } => y == union_with_rows(nodes[j], spec_union_rows(nodes, j)),
        PlanNode::Join { .. } => y == join_with_rows(
            nodes[j],
            spec_join_rows_left(nodes, j),
            spec_join_rows_right(nodes, j),
        ),
        _ => false,
    }
}

/// How an estimator pass may change the arena: every node is untouched,
/// or is a union or join node whose caches now hold exactly its subtree's
/// estimates.
pub open spec fn rows_updates_only(a: Seq<PlanNode>, b: Seq<PlanNode>) -> bool {
    a.len() == b.len() && forall|j: int|
        0 <= j < a.len() ==> ((#[trigger] b[j]) == a[j] || node_rows_updated(a, j, b[j]))
}

/// Whether the estimator's walk from `from` visits `to`: equality, or a
/// path through direct inputs.
pub open spec fn spec_reaches(nodes: Seq<PlanNode>, from: int, to: int) -> bool
    decreases from,
    when 0 <= from < nodes.len() && arena_wf(nodes)
    via spec_reaches_dec
{
    from == to || exists|k: int|
        0 <= k < spec_inputs(nodes[from]).len() && spec_reaches(
            nodes,
            #[trigger] spec_inputs(nodes[from])[k] as int,
            to,
        )
}

#[via_fn]
proof fn spec_reaches_dec(nodes: Seq<PlanNode>, from: int, to: int) {
    assert(node_wf(nodes[from], from));
}

/// A walk only ever descends: everything reachable sits at or below its
/// start.
pub proof fn lemma_reaches_below(nodes: Seq<PlanNode>, from: int, to: int)
    requires
        arena_wf(nodes),
        0 <= from < nodes.len(),
        spec_reaches(nodes, from, to),
    ensures
        to <= from,
    decreases from,
{
    if from != to {
        let k = choose|k: int|
            0 <= k < spec_inputs(nodes[from]).len() && spec_reaches(
                nodes,
                #[trigger] spec_inputs(nodes[from])[k] as int,
                to,
            );
        assert(node_wf(nodes[from], from));
        lemma_reaches_below(nodes, spec_inputs(nodes[from])[k] as int, to);
    }
}

/// Reachability ignores the caches: it reads only each node's inputs.
pub proof fn lemma_reaches_cache_eq(a: Seq<PlanNode>, b: Seq<PlanNode>, from: int, to: int)
    requires
        arena_wf(a),
        cache_eq(a, b),
        0 <= from < a.len(),
    ensures
        spec_reaches(a, from, to) == spec_reaches(b, from, to),
    decreases from,
{
    lemma_cache_eq_wf(a, b);
    assert(node_cache_eq(a[from], b[from]));
    assert(spec_inputs(b[from]) == spec_inputs(a[from])) by {
        match (a[from], b[from]) {
            (PlanNode::Union { .. }, PlanNode::Union { .. }) => {},
            (PlanNode::Join { .. }, PlanNode::Join { .. }) => {},
            _ => {},
        }
    }
    assert(node_wf(a[from], from));
    if from != to {
        if spec_reaches(a, from, to) {
            let k = choose|k: int|
                0 <= k < spec_inputs(a[from]).len() && spec_reaches(
                    a,
                    #[trigger] spec_inputs(a[from])[k] as int,
                    to,
                );
            lemma_reaches_cache_eq(a, b, spec_inputs(a[from])[k] as int, to);
            assert(spec_reaches(b, spec_inputs(b[from])[k] as int, to));
        }
        if spec_reaches(b, from, to) {
            let k = choose|k: int|
                0 <= k < spec_inputs(b[from]).len() && spec_reaches(
                    b,
                    #[trigger] spec_inputs(b[from])[k] as int,
                    to,
                );
            lemma_reaches_cache_eq(a, b, spec_inputs(a[from])[k] as int, to);
            assert(spec_reaches(a, spec_inputs(a[from])[k] as int, to));
        }
    }
}

pub proof fn lemma_updates_cache_eq(a: Seq<PlanNode>, b: Seq<PlanNode>)
    requires
        rows_updates_only(a, b),
    ensures
        cache_eq(a, b),
{
    assert forall|j: int| 0 <= j < a.len() implies node_cache_eq(
        #[trigger] a[j],
        #[trigger] b[j],
    ) by {
        assert(b[j] == a[j] || node_rows_updated(a, j, b[j]));
    }
}

/// An update that is correct relative to a cache-written arena is correct
/// relative to the original arena too.
pub proof fn lemma_node_update_transfers(a: Seq<PlanNode>, b: Seq<PlanNode>, j: int, y: PlanNode)
    requires
        arena_wf(a),
        rows_updates_only(a, b),
        0 <= j < a.len(),
        node_rows_updated(b, j, y),
    ensures
        node_rows_updated(a, j, y),
{
    lemma_updates_cache_eq(a, b);
    lemma_cache_eq_wf(a, b);
    assert(b[j] == a[j] || node_rows_updated(a, j, b[j]));
    lemma_estimate_cache_eq(a, b, j, 0);
    match a[j] {
        PlanNode::Union { .. } => {
            assert(spec_union_rows(b, j) == spec_union_rows(a, j));
            assert(union_with_rows(b[j], spec_union_rows(b, j)) == union_with_rows(
                a[j],
                spec_union_rows(a, j),
            ));
        },
        PlanNode::Join { input_left, input_right, .. } => {
            lemma_inputs_below(a, j);
            lemma_estimate_cache_eq(a, b, input_left as int, 0);
            lemma_estimate_cache_eq(a, b, input_right as int, 0);
            assert(spec_join_rows_left(b, j) == spec_join_rows_left(a, j));
            assert(spec_join_rows_right(b, j) == spec_join_rows_right(a, j));
        },
        _ => {},
    }
}

/// A node once updated stays correctly updated through later cache
/// writes.
pub proof fn lemma_node_update_persists(
    a: Seq<PlanNode>,
    b: Seq<PlanNode>,
    c: Seq<PlanNode>,
    j: int,
)
    requires
        arena_wf(a),
        rows_updates_only(a, b),
        rows_updates_only(b, c),
        0 <= j < a.len(),
        node_rows_updated(a, j, b[j]),
    ensures
        node_rows_updated(a, j, c[j]),
{
    if c[j] != b[j] {
        lemma_node_update_transfers(a, b, j, c[j]);
    }
}

/// Correct cache updates compose: what one recursive call left behind and
/// what a later one adds still relate the final arena to the original.
pub proof fn lemma_updates_compose(a: Seq<PlanNode>, b: Seq<PlanNode>, c: Seq<PlanNode>)
    requires
        arena_wf(a),
        rows_updates_only(a, b),
        rows_updates_only(b, c),
    ensures
        rows_updates_only(a, c),
{
    assert forall|j: int| 0 <= j < a.len() implies ((#[trigger] c[j]) == a[j]
        || node_rows_updated(a, j, c[j])) by {
        assert(b[j] == a[j] || node_rows_updated(a, j, b[j]));
        assert(c[j] == b[j] || node_rows_updated(b, j, c[j]));
        if c[j] != b[j] {
            lemma_node_update_transfers(a, b, j, c[j]);
        }
    }
}

/// Selectivity decay, executable: returns the decayed (known, estimated)
/// pair of a subtree that saw `filter_count` filtering predicates.
pub fn estimate_sizes(known_size: Option<usize>, estimated_size: usize, filter_count: usize) -> (r:
    (Option<usize>, usize))
    ensures
        (r.0, r.1 as int) == spec_decay(known_size, estimated_size as int, filter_count as int),
        r.1 <= estimated_size,
{
    if filter_count == 0 {
        (known_size, estimated_size)
    } else {
        let mut e = estimated_size;
        let mut i: usize = 0;
        while i < filter_count
            invariant
                i <= filter_count,
                e as int == spec_decay_est(estimated_size as int, i as int),
                e <= estimated_size,
            decreases filter_count - i,
        {
            let wide: u128 = (e as u128) * 9 / 10;
            proof {
                assert(wide <= e);
            }
            e = wide as usize;
            i += 1;
        }
        (None, e)
    }
}

/// Completeness of an estimator pass: every union or join node that the
/// walk from `root` visits carries its correct cache afterwards.
pub open spec fn caches_filled(a: Seq<PlanNode>, b: Seq<PlanNode>, root: int) -> bool {
    forall|j: int|
        0 <= j < a.len() && (a[j] is Union || a[j] is Join) && #[trigger] spec_reaches(a, root, j)
            ==> node_rows_updated(a, j, b[j])
}

/// A source node's walk visits nothing but the node itself.
proof fn lemma_caches_filled_leaf(a: Seq<PlanNode>, root: int)
    requires
        arena_wf(a),
        0 <= root < a.len(),
        spec_inputs(a[root]).len() == 0,
        !(a[root] is Union),
        !(a[root] is Join),
    ensures
        caches_filled(a, a, root),
{
    assert forall|j: int|
        0 <= j < a.len() && (a[j] is Union || a[j] is Join) && #[trigger] spec_reaches(
            a,
            root,
            j,
        ) implies node_rows_updated(a, j, a[j]) by {
        if j != root {
            let k = choose|k: int|
                0 <= k < spec_inputs(a[root]).len() && spec_reaches(
                    a,
                    #[trigger] spec_inputs(a[root])[k] as int,
                    j,
                );
            assert(false);
        }
    }
}

/// A single-input node's walk visits the node itself and its input's
/// subtree.
proof fn lemma_caches_filled_single(a: Seq<PlanNode>, b: Seq<PlanNode>, root: int, child: usize)
    requires
        arena_wf(a),
        0 <= root < a.len(),
        a.len() == b.len(),
        spec_inputs(a[root]) == seq![child],
        !(a[root] is Union),
        !(a[root] is Join),
        caches_filled(a, b, child as int),
    ensures
        caches_filled(a, b, root),
{
    assert forall|j: int|
        0 <= j < a.len() && (a[j] is Union || a[j] is Join) && #[trigger] spec_reaches(
            a,
            root,
            j,
        ) implies node_rows_updated(a, j, b[j]) by {
        if j != root {
            let k = choose|k: int|
                0 <= k < spec_inputs(a[root]).len() && spec_reaches(
                    a,
                    #[trigger] spec_inputs(a[root])[k] as int,
                    j,
                );
            assert(k == 0);
            assert(spec_reaches(a, child as int, j));
        }
    }
}

/// The slice clamp law: a slice node cuts both counts of its input's
/// estimate to the slice length, and a known count already below the
/// length stays what it was; the filter count passes through.
pub proof fn lemma_slice_clamp(nodes: Seq<PlanNode>, i: int, fc: int)
    requires
        arena_wf(nodes),
        0 <= i < nodes.len(),
        nodes[i] is Slice,
    ensures
        ({
            let t = spec_estimate(nodes, spec_inputs(nodes[i])[0] as int, fc);
            let s = spec_estimate(nodes, i, fc);
            &&& s.est == (if (nodes[i]->Slice_len as int) < t.est {
                nodes[i]->Slice_len as int
            } else {
                t.est
            })
            &&& s.known == (match t.known {
                Some(k) => Some(
                    if nodes[i]->Slice_len < k {
                        nodes[i]->Slice_len
                    } else {
                        k
                    },
                ),
                None => None,
            })
            &&& s.filters == t.filters
        }),
{
    lemma_inputs_below(nodes, i);
    match nodes[i] {
        PlanNode::Slice { input, .. } => {
            assert(spec_inputs(nodes[i])[0] == input);
        },
        _ => {},
    }
}

/// The selectivity decay law at its reference point: two filters over a
/// pair of one hundred known and one hundred estimated rows yield an
/// unknown count and an estimate of eighty-one.
pub proof fn lemma_decay_reference_point()
    ensures
        spec_decay(Some(100), 100, 2) == (None::<usize>, 81int),
{
    assert(spec_decay_est(100, 0) == 100);
    assert(spec_decay_est(100, 1) == 90);
    assert(spec_decay_est(100, 2) == 81);
}

/// The union conservatism law: a union's combined known count is always
/// reported absent, even when every branch knows its count exactly, and
/// its filter count starts over.
pub proof fn lemma_union_known_absent(nodes: Seq<PlanNode>, i: int, fc: int)
    requires
        arena_wf(nodes),
        0 <= i < nodes.len(),
        nodes[i] is Union,
    ensures
        spec_estimate(nodes, i, fc).known is None,
        spec_estimate(nodes, i, fc).filters == 0,
{
}

/// The union sum law: with no slice configured, a union's estimate is the
/// saturating sum of its branches' decayed estimates, each branch started
/// at a fresh filter count.
pub proof fn lemma_union_sums_branches(nodes: Seq<PlanNode>, i: int, fc: int)
    requires
        arena_wf(nodes),
        0 <= i < nodes.len(),
        nodes[i] matches PlanNode::Union { options, .. } && options.slice is None,
    ensures
        ({
            let inputs = spec_inputs(nodes[i]);
            spec_estimate(nodes, i, fc).est == spec_union_sum(nodes, i, inputs, 0)
        }),
{
}

/// Clamp a computed triple to an optional output slice.
fn apply_slice(out: (Option<usize>, usize, usize), slice: Option<(i64, usize)>) -> (r: (
    Option<usize>,
    usize,
    usize,
))
    ensures
        ({
            let c = spec_clamp(
                EstTriple { known: out.0, est: out.1 as int, filters: out.2 as int },
                slice,
            );
            r.0 == c.known && r.1 as int == c.est && r.2 as int == c.filters
        }),
{
    match slice {
        Some((_offset, len)) => {
            let known = match out.0 {
                Some(k) => Some(
                    if len < k {
                        len
                    } else {
                        k
                    },
                ),
                None => None,
            };
            let est = if len < out.1 {
                len
            } else {
                out.1
            };
            (known, est, out.2)
        },
        None => out,
    }
}

/// Walk the plan from `root`, computing its (known, estimated,
/// filter-count) triple without moving any data, and cache decayed row
/// pairs into the union and join nodes visited, for the execution
/// scheduler's later use.  The triple is exactly the node's estimate over
/// the arena as it stood at the call; the arena afterwards differs only
/// in such caches, each holding exactly its node's subtree estimates.
#[verifier::loop_isolation(false)]
#[verifier::rlimit(100)]
pub fn set_estimated_row_counts(root: usize, arena: &mut Arena, filter_count: usize) -> (r: (
    Option<usize>,
    usize,
    usize,
))
    requires
        old(arena).wf(),
        root < old(arena)@.len(),
    ensures
        rows_updates_only(old(arena)@, final(arena)@),
        final(arena).wf(),
        ({
            let t = spec_estimate(old(arena)@, root as int, filter_count as int);
            r.0 == t.known && r.1 as int == t.est && r.2 as int == t.filters
        }),
        (old(arena)@[root as int] is Union || old(arena)@[root as int] is Join)
            ==> node_rows_updated(old(arena)@, root as int, final(arena)@[root as int]),
        caches_filled(old(arena)@, final(arena)@, root as int),
    decreases root,
{
    let ghost a0 = arena@;
    proof {
        lemma_inputs_below(a0, root as int);
        lemma_estimate_bounds(a0, root as int, filter_count as int);
    }
    let n_ref = arena.get(root);
    match n_ref {
        PlanNode::Scan { file_info } => {
            let re = file_info.row_estimation;
            proof {
                lemma_caches_filled_leaf(a0, root as int);
            }
            (re.0, re.1, filter_count)
        },
        PlanNode::DataFrameScan { n_rows, .. } => {
            let n = *n_rows;
            proof {
                lemma_caches_filled_leaf(a0, root as int);
            }
            (Some(n), n, filter_count)
        },
        PlanNode::ExternalScan { .. } => {
            proof {
                lemma_caches_filled_leaf(a0, root as int);
            }
            (None, usize::MAX, filter_count)
        },
        PlanNode::Selection { input, predicate } => {
            let c = predicate.binary_count();
            let child = *input;
            let fc2 = sat_add_usize(filter_count, sat_add_usize(c, 1));
            let t = set_estimated_row_counts(child, arena, fc2);
            proof {
                lemma_caches_filled_single(a0, arena@, root as int, child);
            }
            t
        },
        PlanNode::Slice { input, len, .. } => {
            let child = *input;
            let len = *len;
            let t = set_estimated_row_counts(child, arena, filter_count);
            proof {
                lemma_caches_filled_single(a0, arena@, root as int, child);
            }
            apply_slice(t, Some((0, len)))
        },
        PlanNode::Union { inputs, options } => {
            let slice = options.slice;
            let ins = crate::plan::clone_indices(inputs);
            let n = ins.len();
            let mut acc: usize = 0;
            let mut i: usize = 0;
            while i < n
                invariant
                    i <= n,
                    arena.wf(),
                    rows_updates_only(a0, arena@),
                    sat_add(acc as int, spec_union_sum(a0, root as int, ins@, i as int))
                        == spec_union_sum(a0, root as int, ins@, 0),
                    forall|j: int|
                        (0 <= j < a0.len() && (a0[j] is Union || a0[j] is Join) && (exists|i2: int|
                            0 <= i2 < i as int && spec_reaches(a0, ins@[i2] as int, j)))
                            ==> node_rows_updated(a0, j, #[trigger] arena@[j]),
                decreases n - i,
            {
                let child = ins[i];
                let ghost acur = arena@;
                proof {
                    lemma_updates_cache_eq(a0, acur);
                    lemma_cache_eq_wf(a0, acur);
                }
                let t = set_estimated_row_counts(child, arena, 0);
                proof {
                    lemma_estimate_cache_eq(a0, acur, child as int, 0);
                    lemma_updates_compose(a0, acur, arena@);
                    lemma_estimate_bounds(a0, child as int, 0);
                    let st = spec_estimate(a0, child as int, 0);
                    lemma_decay_est_bounds(st.est, st.filters);
                    lemma_union_sum_bounds(a0, root as int, ins@, i as int + 1);
                    assert forall|j: int|
                        (0 <= j < a0.len() && (a0[j] is Union || a0[j] is Join) && (exists|i2: int|
                            0 <= i2 < i as int + 1 && spec_reaches(
                                a0,
                                ins@[i2] as int,
                                j,
                            ))) implies node_rows_updated(a0, j, arena@[j]) by {
                        let i2 = choose|i2: int|
                            0 <= i2 < i as int + 1 && spec_reaches(a0, ins@[i2] as int, j);
                        if i2 < i as int {
                            assert(node_rows_updated(a0, j, acur[j]));
                            lemma_node_update_persists(a0, acur, arena@, j);
                        } else {
                            assert(spec_reaches(a0, child as int, j));
                            lemma_reaches_cache_eq(a0, acur, child as int, j);
                            assert(node_cache_eq(a0[j], acur[j]));
                            assert(acur[j] is Union || acur[j] is Join);
                            assert(spec_reaches(acur, child as int, j));
                            assert(node_rows_updated(acur, j, arena@[j]));
                            lemma_node_update_transfers(a0, acur, j, arena@[j]);
                        }
                    }
                }
                let d = estimate_sizes(t.0, t.1, t.2);
                proof {
                    lemma_sat_add_assoc(
                        acc as int,
                        d.1 as int,
                        spec_union_sum(a0, root as int, ins@, i as int + 1),
                    );
                }
                acc = sat_add_usize(acc, d.1);
                i += 1;
            }
            let est = match slice {
                Some((_offset, len)) => if len < acc {
                    len
                } else {
                    acc
                },
                None => acc,
            };
            let ghost before_set = arena@;
            arena.set_union_rows(root, (None, est));
            proof {
                assert(est as int == spec_estimate(a0, root as int, filter_count as int).est);
                assert((None::<usize>, est) == spec_union_rows(a0, root as int)) by {
                    assert(spec_estimate(a0, root as int, 0).est == spec_estimate(
                        a0,
                        root as int,
                        filter_count as int,
                    ).est);
                }
                assert(node_cache_eq(a0[root as int], before_set[root as int]));
                assert(union_with_rows(before_set[root as int], (None, est)) == union_with_rows(
                    a0[root as int],
                    (None, est),
                ));
                assert(node_rows_updated(a0, root as int, arena@[root as int]));
                assert(rows_updates_only(a0, arena@));
                lemma_updates_cache_eq(a0, arena@);
                lemma_cache_eq_wf(a0, arena@);
                assert forall|j: int|
                    0 <= j < a0.len() && (a0[j] is Union || a0[j] is Join) && #[trigger]
                    spec_reaches(a0, root as int, j) implies node_rows_updated(
                        a0,
                        j,
                        arena@[j],
                    ) by {
                    if j != root as int {
                        let k = choose|k: int|
                            0 <= k < spec_inputs(a0[root as int]).len() && spec_reaches(
                                a0,
                                #[trigger] spec_inputs(a0[root as int])[k] as int,
                                j,
                            );
                        assert(ins@[k] == spec_inputs(a0[root as int])[k]);
                        assert(exists|i2: int|
                            0 <= i2 < n as int && spec_reaches(a0, ins@[i2] as int, j));
                        assert(node_rows_updated(a0, j, before_set[j]));
                        assert(arena@[j] == before_set[j]);
                    }
                }
            }
            (None, est, 0)
        },
        PlanNode::Join { input_left, input_right, options, .. } => {
            let slice = options.slice;
            let is_left = matches!(options.how, JoinType::Left);
            let is_cross_outer = matches!(
                options.how,
                JoinType::Cross | JoinType::Outer { .. },
            );
            let il = *input_left;
            let ir = *input_right;
            let lt = set_estimated_row_counts(il, arena, 0);
            let dl = estimate_sizes(lt.0, lt.1, lt.2);
            let ghost amid = arena@;
            proof {
                lemma_updates_cache_eq(a0, amid);
                lemma_cache_eq_wf(a0, amid);
            }
            let rt = set_estimated_row_counts(ir, arena, 0);
            let ghost aright = arena@;
            proof {
                lemma_estimate_cache_eq(a0, amid, ir as int, 0);
                lemma_updates_compose(a0, amid, arena@);
                lemma_estimate_bounds(a0, il as int, 0);
                lemma_estimate_bounds(a0, ir as int, 0);
                let sl = spec_estimate(a0, il as int, 0);
                let sr = spec_estimate(a0, ir as int, 0);
                lemma_decay_est_bounds(sl.est, sl.filters);
                lemma_decay_est_bounds(sr.est, sr.filters);
            }
            let dr = estimate_sizes(rt.0, rt.1, rt.2);
            let combined: (Option<usize>, usize, usize) = if is_left {
                (dl.0, dl.1, lt.2)
            } else if is_cross_outer {
                match (dl.0, dr.0) {
                    (Some(lk), Some(rk)) => (Some(sat_mul_usize(lk, rk)), dl.1, 0),
                    (Some(lk), None) => (None, sat_mul_usize(dl.1, dr.1), 0),
                    (None, _) => (None, sat_mul_usize(dl.1, dr.1), 0),
                }
            } else {
                if dl.1 > dr.1 {
                    (dl.0, dl.1, 0)
                } else {
                    (dr.0, dr.1, 0)
                }
            };
            let out = apply_slice(combined, slice);
            let ghost before_set = arena@;
            arena.set_join_rows(root, dl, dr);
            proof {
                assert(dl == spec_join_rows_left(a0, root as int));
                assert(dr == spec_join_rows_right(a0, root as int));
                assert(node_cache_eq(a0[root as int], before_set[root as int]));
                assert(join_with_rows(before_set[root as int], dl, dr) == join_with_rows(
                    a0[root as int],
                    dl,
                    dr,
                ));
                assert(node_rows_updated(a0, root as int, arena@[root as int]));
                assert(rows_updates_only(a0, arena@));
                lemma_updates_cache_eq(a0, arena@);
                lemma_cache_eq_wf(a0, arena@);
                assert forall|j: int|
                    0 <= j < a0.len() && (a0[j] is Union || a0[j] is Join) && #[trigger]
                    spec_reaches(a0, root as int, j) implies node_rows_updated(
                        a0,
                        j,
                        arena@[j],
                    ) by {
                    if j != root as int {
                        let k = choose|k: int|
                            0 <= k < spec_inputs(a0[root as int]).len() && spec_reaches(
                                a0,
                                #[trigger] spec_inputs(a0[root as int])[k] as int,
                                j,
                            );
                        assert(spec_inputs(a0[root as int]) == seq![il, ir]);
                        if k == 0 {
                            assert(spec_reaches(a0, il as int, j));
                            assert(node_rows_updated(a0, j, amid[j]));
                            lemma_node_update_persists(a0, amid, aright, j);
                            lemma_reaches_below(a0, il as int, j);
                            assert(arena@[j] == aright[j]);
                        } else {
                            assert(k == 1);
                            assert(spec_reaches(a0, ir as int, j));
                            lemma_reaches_cache_eq(a0, amid, ir as int, j);
                            assert(node_cache_eq(a0[j], amid[j]));
                            assert(amid[j] is Union || amid[j] is Join);
                            assert(spec_reaches(amid, ir as int, j));
                            assert(node_rows_updated(amid, j, aright[j]));
                            lemma_node_update_transfers(a0, amid, j, aright[j]);
                            lemma_reaches_below(a0, ir as int, j);
                            assert(arena@[j] == aright[j]);
                        }
                    }
                }
            }
            out
        },
        n => {
            let ins = n.copy_inputs();
            let ghost target = spec_estimate(a0, root as int, filter_count as int);
            proof {
                assert(target == spec_sum_inputs(
                    a0,
                    root as int,
                    ins@,
                    0,
                    filter_count as int,
                ));
            }
            let m = ins.len();
            let mut known: Option<usize> = None;
            let mut est: usize = 0;
            let mut fil: usize = 0;
            let mut i: usize = 0;
            while i < m
                invariant
                    i <= m,
                    arena.wf(),
                    rows_updates_only(a0, arena@),
                    ({
                        let rest = spec_sum_inputs(
                            a0,
                            root as int,
                            ins@,
                            i as int,
                            filter_count as int,
                        );
                        &&& (if known is Some {
                            known
                        } else {
                            rest.known
                        }) == target.known
                        &&& sat_add(est as int, rest.est) == target.est
                        &&& sat_add(fil as int, rest.filters) == target.filters
                    }),
                    forall|j: int|
                        (0 <= j < a0.len() && (a0[j] is Union || a0[j] is Join) && (exists|i2: int|
                            0 <= i2 < i as int && spec_reaches(a0, ins@[i2] as int, j)))
                            ==> node_rows_updated(a0, j, #[trigger] arena@[j]),
                decreases m - i,
            {
                let child = ins[i];
                let ghost acur = arena@;
                proof {
                    lemma_updates_cache_eq(a0, acur);
                    lemma_cache_eq_wf(a0, acur);
                }
                let t = set_estimated_row_counts(child, arena, filter_count);
                proof {
                    lemma_estimate_cache_eq(a0, acur, child as int, filter_count as int);
                    lemma_updates_compose(a0, acur, arena@);
                    lemma_estimate_bounds(a0, child as int, filter_count as int);
                    lemma_sum_inputs_bounds(
                        a0,
                        root as int,
                        ins@,
                        i as int + 1,
                        filter_count as int,
                    );
                    lemma_sat_add_assoc(
                        est as int,
                        t.1 as int,
                        spec_sum_inputs(a0, root as int, ins@, i as int + 1, filter_count as int).est,
                    );
                    lemma_sat_add_assoc(
                        fil as int,
                        t.2 as int,
                        spec_sum_inputs(
                            a0,
                            root as int,
                            ins@,
                            i as int + 1,
                            filter_count as int,
                        ).filters,
                    );
                    assert forall|j: int|
                        (0 <= j < a0.len() && (a0[j] is Union || a0[j] is Join) && (exists|i2: int|
                            0 <= i2 < i as int + 1 && spec_reaches(
                                a0,
                                ins@[i2] as int,
                                j,
                            ))) implies node_rows_updated(a0, j, arena@[j]) by {
                        let i2 = choose|i2: int|
                            0 <= i2 < i as int + 1 && spec_reaches(a0, ins@[i2] as int, j);
                        if i2 < i as int {
                            assert(node_rows_updated(a0, j, acur[j]));
                            lemma_node_update_persists(a0, acur, arena@, j);
                        } else {
                            assert(spec_reaches(a0, child as int, j));
                            lemma_reaches_cache_eq(a0, acur, child as int, j);
                            assert(node_cache_eq(a0[j], acur[j]));
                            assert(acur[j] is Union || acur[j] is Join);
                            assert(spec_reaches(acur, child as int, j));
                            assert(node_rows_updated(acur, j, arena@[j]));
                            lemma_node_update_transfers(a0, acur, j, arena@[j]);
                        }
                    }
                }
                est = sat_add_usize(est, t.1);
                fil = sat_add_usize(fil, t.2);
                if known.is_none() {
                    known = t.0;
                }
                i += 1;
            }
            proof {
                assert forall|j: int|
                    0 <= j < a0.len() && (a0[j] is Union || a0[j] is Join) && #[trigger]
                    spec_reaches(a0, root as int, j) implies node_rows_updated(
                        a0,
                        j,
                        arena@[j],
                    ) by {
                    if j != root as int {
                        let k = choose|k: int|
                            0 <= k < spec_inputs(a0[root as int]).len() && spec_reaches(
                                a0,
                                #[trigger] spec_inputs(a0[root as int])[k] as int,
                                j,
                            );
                        assert(ins@[k] == spec_inputs(a0[root as int])[k]);
                        assert(exists|i2: int|
                            0 <= i2 < m as int && spec_reaches(a0, ins@[i2] as int, j));
                    }
                }
            }
            (known, est, fil)
        },
    }
}

} // verus!
