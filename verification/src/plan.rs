use vstd::prelude::*;
use crate::expr::Expr;
use crate::file_info::FileInfo;
use crate::schema::{schema_wf, Schema};
use crate::transform::SchemaTransform;

verus! {

/// Options of a union node, with the estimator's cached row pair.
#[derive(Debug)]
pub struct UnionOptions {
    /// An optional output slice (offset, length) applied after the union.
    pub slice: Option<(i64, usize)>,
    /// Cached (known, estimated) row counts, written by the estimator.
    pub rows: (Option<usize>, usize),
}

/// Extra key columns of an as-of join: per-side "group by" column lists.
#[derive(Debug)]
pub struct AsOfOptions {
    pub left_by: Option<Vec<String>>,
    pub right_by: Option<Vec<String>>,
}

/// The kind of a join.  Schema rules differ per kind: filtering joins keep
/// the left schema; an outer join that does not coalesce keeps both key
/// columns; as-of joins are not equi-joins and keep differently named
/// right keys.
#[derive(Debug)]
pub enum JoinType {
    Inner,
    Left,
    Outer { coalesce: bool },
    Cross,
    Semi,
    Anti,
    AsOf(AsOfOptions),
}

/// Join configuration: the kind, the suffix for colliding right-hand
/// column names, an optional output slice, and the estimator's cached
/// per-side row pairs.
#[derive(Debug)]
pub struct JoinOptions {
    pub how: JoinType,
    pub suffix: String,
    pub slice: Option<(i64, usize)>,
    /// Cached decayed (known, estimated) rows of the left input.
    pub rows_left: (Option<usize>, usize),
    /// Cached decayed (known, estimated) rows of the right input.
    pub rows_right: (Option<usize>, usize),
}

/// The one-shot failure cell of a deferred-error node.
#[derive(Debug)]
pub enum ErrorState {
    /// The construction failure, not yet surfaced.
    Pending(String),
    /// The failure has been handed out once already.
    Consumed,
}

/// One relational operator of the plan graph.  Children are referenced by
/// arena index, never embedded, so a node can feed several parents.
#[derive(Debug)]
#[allow(inconsistent_fields)]
pub enum PlanNode {
    /// A lazy file source.
    Scan { file_info: FileInfo },
    /// Concatenation of same-schema branches.
    Union { inputs: Vec<usize>, options: UnionOptions },
    Cache { input: usize },
    Sort { input: usize },
    /// An already materialized in-memory source.
    DataFrameScan { schema: Schema, n_rows: usize },
    /// A row filter.
    Selection { input: usize, predicate: Expr },
    Projection { input: usize, schema: Schema },
    Aggregate { input: usize, schema: Schema },
    Join {
        input_left: usize,
        input_right: usize,
        schema: Schema,
        left_on: Vec<Expr>,
        right_on: Vec<Expr>,
        options: JoinOptions,
    },
    /// Column append.
    HStack { input: usize, schema: Schema },
    Distinct { input: usize },
    Sink { input: usize },
    Slice { input: usize, offset: i64, len: usize },
    /// A schema-transforming operator.
    MapFunction { input: usize, transform: SchemaTransform },
    /// A deferred construction failure, surfaced at first resolution.
    Error { state: ErrorState },
    /// A schema injected from an external context.
    ExtContext { input: usize, schema: Schema },
    /// Horizontal concatenation.
    HConcat { inputs: Vec<usize>, schema: Schema },
    /// A host-provided source outside this engine's control.
    ExternalScan { schema: Schema },
}

/// The direct children of a node, as arena indices.
pub open spec fn spec_inputs(n: PlanNode) -> Seq<usize> {
    match n {
        PlanNode::Scan { .. } => Seq::empty(),
        PlanNode::Union { inputs, .. } => inputs@,
        PlanNode::Cache { input } => seq![input],
        PlanNode::Sort { input } => seq![input],
        PlanNode::DataFrameScan { .. } => Seq::empty(),
        PlanNode::Selection { input, .. } => seq![input],
        PlanNode::Projection { input, .. } => seq![input],
        PlanNode::Aggregate { input, .. } => seq![input],
        PlanNode::Join { input_left, input_right, .. } => seq![input_left, input_right],
        PlanNode::HStack { input, .. } => seq![input],
        PlanNode::Distinct { input } => seq![input],
        PlanNode::Sink { input } => seq![input],
        PlanNode::Slice { input, .. } => seq![input],
        PlanNode::MapFunction { input, .. } => seq![input],
        PlanNode::Error { .. } => Seq::empty(),
        PlanNode::ExtContext { input, .. } => seq![input],
        PlanNode::HConcat { inputs, .. } => inputs@,
        PlanNode::ExternalScan { .. } => Seq::empty(),
    }
}

/// Any schema a node stores must have unique column names.
pub open spec fn node_schemas_wf(n: PlanNode) -> bool {
    match n {
        PlanNode::Scan { file_info } => schema_wf(file_info.schema@),
        PlanNode::DataFrameScan { schema, .. } => schema_wf(schema@),
        PlanNode::Projection { schema, .. } => schema_wf(schema@),
        PlanNode::Aggregate { schema, .. } => schema_wf(schema@),
        PlanNode::Join { schema, .. } => schema_wf(schema@),
        PlanNode::HStack { schema, .. } => schema_wf(schema@),
        PlanNode::ExtContext { schema, .. } => schema_wf(schema@),
        PlanNode::HConcat { schema, .. } => schema_wf(schema@),
        PlanNode::ExternalScan { schema } => schema_wf(schema@),
        _ => true,
    }
}

/// What must hold of the node stored at index `i`: children come earlier
/// in the arena (the graph is acyclic because plans are built bottom up),
/// a union has at least one branch, and stored schemas are well formed.
pub open spec fn node_wf(n: PlanNode, i: int) -> bool {
    &&& forall|k: int| 0 <= k < spec_inputs(n).len() ==> (#[trigger] spec_inputs(n)[k]) < i
    &&& (n matches PlanNode::Union { inputs, .. } ==> inputs@.len() > 0)
    &&& node_schemas_wf(n)
}

/// Well-formedness of the whole arena.
pub open spec fn arena_wf(nodes: Seq<PlanNode>) -> bool {
    forall|i: int| 0 <= i < nodes.len() ==> node_wf(#[trigger] nodes[i], i)
}

/// The shared owning container of plan nodes.  Everything else refers to a
/// node by its index, which permits graph sharing without ownership
/// cycles.
#[derive(Debug)]
pub struct Arena {
    nodes: Vec<PlanNode>,
}

impl View for Arena {
    type V = Seq<PlanNode>;

    closed spec fn view(&self) -> Seq<PlanNode> {
        self.nodes@
    }
}

impl Arena {
    pub open spec fn wf(&self) -> bool {
        arena_wf(self@)
    }

    pub fn new() -> (r: Arena)
        ensures
            r@ == Seq::<PlanNode>::empty(),
            r.wf(),
    {
        Arena { nodes: Vec::new() }
    }

    pub fn node_count(&self) -> (r: usize)
        ensures
            r == self@.len(),
    {
        self.nodes.len()
    }

    /// Append a node whose children are already in the arena; its index is
    /// returned.
    pub fn add(&mut self, node: PlanNode) -> (r: usize)
        requires
            node_wf(node, old(self)@.len() as int),
            old(self).wf(),
        ensures
            final(self)@ == old(self)@.push(node),
            r == old(self)@.len(),
            final(self).wf(),
    {
        let r = self.nodes.len();
        self.nodes.push(node);
        proof {
            assert forall|i: int| 0 <= i < self@.len() implies node_wf(
                #[trigger] self@[i],
                i,
            ) by {
                if i < r as int {
                    assert(old(self)@[i] == self@[i]);
                    assert(node_wf(old(self)@[i], i));
                }
            }
        }
        r
    }

    pub fn get(&self, i: usize) -> (r: &PlanNode)
        requires
            i < self@.len(),
        ensures
            *r == self@[i as int],
    {
        &self.nodes[i]
    }
}

/// The same union node with its cached row pair replaced.
pub open spec fn union_with_rows(n: PlanNode, rows: (Option<usize>, usize)) -> PlanNode {
    match n {
        PlanNode::Union { inputs, options } => PlanNode::Union {
            inputs,
            options: UnionOptions { slice: options.slice, rows },
        },
        _ => n,
    }
}

/// The same join node with its cached per-side row pairs replaced.
pub open spec fn join_with_rows(
    n: PlanNode,
    rows_left: (Option<usize>, usize),
    rows_right: (Option<usize>, usize),
) -> PlanNode {
    match n {
        PlanNode::Join { input_left, input_right, schema, left_on, right_on, options } => {
            PlanNode::Join {
                input_left,
                input_right,
                schema,
                left_on,
                right_on,
                options: JoinOptions {
                    how: options.how,
                    suffix: options.suffix,
                    slice: options.slice,
                    rows_left,
                    rows_right,
                },
            }
        },
        _ => n,
    }
}

impl Arena {
    /// Cache the estimator's row pair into a union node.
    pub fn set_union_rows(&mut self, i: usize, rows: (Option<usize>, usize))
        requires
            i < old(self)@.len(),
            old(self)@[i as int] is Union,
        ensures
            final(self)@ == old(self)@.update(i as int, union_with_rows(old(self)@[i as int], rows)),
    {
        let node = &mut self.nodes[i];
        match node {
            PlanNode::Union { options, .. } => {
                options.rows = rows;
            },
            _ => {},
        }
        proof {
            assert(self@ =~= old(self)@.update(
                i as int,
                union_with_rows(old(self)@[i as int], rows),
            ));
        }
    }

    /// Mark a deferred-error node's one-shot cell as consumed.
    pub(crate) fn set_error_consumed(&mut self, i: usize)
        requires
            i < old(self)@.len(),
            old(self)@[i as int] is Error,
        ensures
            final(self)@ == old(self)@.update(
                i as int,
                PlanNode::Error { state: ErrorState::Consumed },
            ),
    {
        let node = &mut self.nodes[i];
        match node {
            PlanNode::Error { state } => {
                *state = ErrorState::Consumed;
            },
            _ => {},
        }
        proof {
            assert(self@ =~= old(self)@.update(
                i as int,
                PlanNode::Error { state: ErrorState::Consumed },
            ));
        }
    }

    /// Cache the estimator's per-side row pairs into a join node.
    pub fn set_join_rows(
        &mut self,
        i: usize,
        rows_left: (Option<usize>, usize),
        rows_right: (Option<usize>, usize),
    )
        requires
            i < old(self)@.len(),
            old(self)@[i as int] is Join,
        ensures
            final(self)@ == old(self)@.update(
                i as int,
                join_with_rows(old(self)@[i as int], rows_left, rows_right),
            ),
    {
        let node = &mut self.nodes[i];
        match node {
            PlanNode::Join { options, .. } => {
                options.rows_left = rows_left;
                options.rows_right = rows_right;
            },
            _ => {},
        }
        proof {
            assert(self@ =~= old(self)@.update(
                i as int,
                join_with_rows(old(self)@[i as int], rows_left, rows_right),
            ));
        }
    }
}

impl PlanNode {
    /// Copy the direct input indices of this node into a fresh buffer.
    pub fn copy_inputs(&self) -> (r: Vec<usize>)
        ensures
            r@ == spec_inputs(*self),
    {
        match self {
            PlanNode::Union { inputs, .. } => clone_indices(inputs),
            PlanNode::HConcat { inputs, .. } => clone_indices(inputs),
            PlanNode::Cache { input } => vec![*input],
            PlanNode::Sort { input } => vec![*input],
            PlanNode::Selection { input, .. } => vec![*input],
            PlanNode::Projection { input, .. } => vec![*input],
            PlanNode::Aggregate { input, .. } => vec![*input],
            PlanNode::Join { input_left, input_right, .. } => vec![*input_left, *input_right],
            PlanNode::HStack { input, .. } => vec![*input],
            PlanNode::Distinct { input } => vec![*input],
            PlanNode::Sink { input } => vec![*input],
            PlanNode::Slice { input, .. } => vec![*input],
            PlanNode::MapFunction { input, .. } => vec![*input],
            PlanNode::ExtContext { input, .. } => vec![*input],
            _ => Vec::new(),
        }
    }
}

pub(crate) fn clone_indices(v: &Vec<usize>) -> (r: Vec<usize>)
    ensures
        r@ == v@,
{
    let n = v.len();
    let mut r: Vec<usize> = Vec::new();
    let mut i: usize = 0;
    while i < n
        invariant
            n == v@.len(),
            i <= n,
            r@ == v@.take(i as int),
        decreases n - i,
    {
        r.push(v[i]);
        proof {
            assert(r@ =~= v@.take(i as int + 1));
        }
        i += 1;
    }
    proof {
        assert(v@.take(n as int) =~= v@);
    }
    r
}

} // verus!
