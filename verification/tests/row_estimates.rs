use plan_schema::{
    estimate_sizes, set_estimated_row_counts, Arena, DataType, Expr, FileInfo, JoinOptions,
    JoinType, Operator, PlanNode, Schema, UnionOptions,
};

fn schema_of(cols: &[(&str, DataType)]) -> Schema {
    let mut s = Schema::new();
    for (name, dtype) in cols {
        s.with_column(name.to_string(), *dtype);
    }
    s
}

fn scan_node(rows: (Option<usize>, usize)) -> PlanNode {
    PlanNode::Scan { file_info: FileInfo::new(schema_of(&[("a", DataType::Int)]), None, rows) }
}

fn df_scan(n_rows: usize) -> PlanNode {
    PlanNode::DataFrameScan { schema: schema_of(&[("a", DataType::Int)]), n_rows }
}

fn join_options(how: JoinType) -> JoinOptions {
    JoinOptions {
        how,
        suffix: "_right".to_string(),
        slice: None,
        rows_left: (None, 0),
        rows_right: (None, 0),
    }
}

#[test]
fn decay_of_two_filters_drops_known_and_shrinks_estimate() {
    assert_eq!(estimate_sizes(Some(100), 100, 2), (None, 81));
}

#[test]
fn decay_of_one_filter_keeps_ninety_percent() {
    assert_eq!(estimate_sizes(None, 100, 1), (None, 90));
}

#[test]
fn decay_without_filters_is_identity() {
    assert_eq!(estimate_sizes(Some(7), 9, 0), (Some(7), 9));
    assert_eq!(estimate_sizes(None, 9, 0), (None, 9));
}

#[test]
fn decay_rounds_down_at_each_step() {
    assert_eq!(estimate_sizes(None, 5, 2), (None, 3));
}

#[test]
fn scan_reports_its_own_estimate() {
    let mut arena = Arena::new();
    let scan = arena.add(scan_node((Some(42), 40)));
    let out = set_estimated_row_counts(scan, &mut arena, 3);
    assert_eq!(out, (Some(42), 40, 3));
}

#[test]
fn dataframe_scan_knows_its_height() {
    let mut arena = Arena::new();
    let df = arena.add(df_scan(17));
    let out = set_estimated_row_counts(df, &mut arena, 0);
    assert_eq!(out, (Some(17), 17, 0));
}

#[test]
fn external_scan_has_no_estimate() {
    let mut arena = Arena::new();
    let ext = arena.add(PlanNode::ExternalScan { schema: schema_of(&[("a", DataType::Int)]) });
    let out = set_estimated_row_counts(ext, &mut arena, 1);
    assert_eq!(out, (None, usize::MAX, 1));
}

#[test]
fn slice_clamps_estimate_and_known() {
    let mut arena = Arena::new();
    let df = arena.add(df_scan(100));
    let slice = arena.add(PlanNode::Slice { input: df, offset: 0, len: 5 });
    let out = set_estimated_row_counts(slice, &mut arena, 0);
    assert_eq!(out, (Some(5), 5, 0));
}

#[test]
fn slice_keeps_smaller_known_count() {
    let mut arena = Arena::new();
    let scan = arena.add(scan_node((Some(3), 100)));
    let slice = arena.add(PlanNode::Slice { input: scan, offset: 0, len: 5 });
    let out = set_estimated_row_counts(slice, &mut arena, 0);
    assert_eq!(out, (Some(3), 5, 0));
}

#[test]
fn selection_counts_predicates_for_decay() {
    // One comparison in the predicate plus the floor of one gives two
    // filters; a union branch then decays its estimate accordingly.
    let mut arena = Arena::new();
    let df = arena.add(df_scan(100));
    let predicate = Expr::Binary(
        Box::new(Expr::Col("a".to_string())),
        Operator::Gt,
        Box::new(Expr::Lit(DataType::Int)),
    );
    let sel = arena.add(PlanNode::Selection { input: df, predicate });
    let union = arena.add(PlanNode::Union {
        inputs: vec![sel],
        options: UnionOptions { slice: None, rows: (None, 0) },
    });
    let out = set_estimated_row_counts(union, &mut arena, 0);
    assert_eq!(out, (None, 81, 0));
}

#[test]
fn union_sums_branches_and_reports_no_known_count() {
    let mut arena = Arena::new();
    let b1 = arena.add(df_scan(10));
    let b2 = arena.add(df_scan(20));
    let union = arena.add(PlanNode::Union {
        inputs: vec![b1, b2],
        options: UnionOptions { slice: None, rows: (None, 0) },
    });
    let out = set_estimated_row_counts(union, &mut arena, 0);
    assert_eq!(out, (None, 30, 0));
    match arena.get(union) {
        PlanNode::Union { options, .. } => assert_eq!(options.rows, (None, 30)),
        other => panic!("unexpected node: {:?}", other),
    }
}

#[test]
fn union_slice_clamps_the_sum() {
    let mut arena = Arena::new();
    let b1 = arena.add(df_scan(10));
    let b2 = arena.add(df_scan(20));
    let union = arena.add(PlanNode::Union {
        inputs: vec![b1, b2],
        options: UnionOptions { slice: Some((0, 12)), rows: (None, 0) },
    });
    let out = set_estimated_row_counts(union, &mut arena, 0);
    assert_eq!(out, (None, 12, 0));
    match arena.get(union) {
        PlanNode::Union { options, .. } => assert_eq!(options.rows, (None, 12)),
        other => panic!("unexpected node: {:?}", other),
    }
}

fn join_node(left: usize, right: usize, how: JoinType) -> PlanNode {
    PlanNode::Join {
        input_left: left,
        input_right: right,
        schema: schema_of(&[("a", DataType::Int)]),
        left_on: vec![Expr::Col("a".to_string())],
        right_on: vec![Expr::Col("a".to_string())],
        options: join_options(how),
    }
}

#[test]
fn cross_join_multiplies_known_counts() {
    let mut arena = Arena::new();
    let l = arena.add(df_scan(4));
    let r = arena.add(df_scan(5));
    let join = arena.add(join_node(l, r, JoinType::Cross));
    let out = set_estimated_row_counts(join, &mut arena, 0);
    assert_eq!(out, (Some(20), 4, 0));
    match arena.get(join) {
        PlanNode::Join { options, .. } => {
            assert_eq!(options.rows_left, (Some(4), 4));
            assert_eq!(options.rows_right, (Some(5), 5));
        },
        other => panic!("unexpected node: {:?}", other),
    }
}

#[test]
fn cross_join_without_known_counts_multiplies_estimates() {
    let mut arena = Arena::new();
    let l = arena.add(scan_node((None, 4)));
    let r = arena.add(scan_node((None, 5)));
    let join = arena.add(join_node(l, r, JoinType::Cross));
    let out = set_estimated_row_counts(join, &mut arena, 0);
    assert_eq!(out, (None, 20, 0));
}

#[test]
fn left_join_carries_the_left_pair() {
    let mut arena = Arena::new();
    let l = arena.add(df_scan(4));
    let r = arena.add(df_scan(50));
    let join = arena.add(join_node(l, r, JoinType::Left));
    let out = set_estimated_row_counts(join, &mut arena, 0);
    assert_eq!(out, (Some(4), 4, 0));
}

#[test]
fn inner_join_takes_the_larger_side() {
    let mut arena = Arena::new();
    let l = arena.add(df_scan(4));
    let r = arena.add(df_scan(5));
    let join = arena.add(join_node(l, r, JoinType::Inner));
    let out = set_estimated_row_counts(join, &mut arena, 0);
    assert_eq!(out, (Some(5), 5, 0));
}

#[test]
fn default_nodes_sum_inputs_with_first_known_winning() {
    let mut arena = Arena::new();
    let scan = arena.add(df_scan(7));
    let sort = arena.add(PlanNode::Sort { input: scan });
    let out = set_estimated_row_counts(sort, &mut arena, 2);
    assert_eq!(out, (Some(7), 7, 2));
}

#[test]
fn estimator_fills_caches_of_nested_nodes() {
    let mut arena = Arena::new();
    let l = arena.add(df_scan(3));
    let r = arena.add(df_scan(4));
    let join = arena.add(join_node(l, r, JoinType::Inner));
    let extra = arena.add(df_scan(5));
    let union = arena.add(PlanNode::Union {
        inputs: vec![join, extra],
        options: UnionOptions { slice: None, rows: (None, 0) },
    });
    let out = set_estimated_row_counts(union, &mut arena, 0);
    assert_eq!(out, (None, 9, 0));
    match arena.get(join) {
        PlanNode::Join { options, .. } => {
            assert_eq!(options.rows_left, (Some(3), 3));
            assert_eq!(options.rows_right, (Some(4), 4));
        },
        other => panic!("unexpected node: {:?}", other),
    }
    match arena.get(union) {
        PlanNode::Union { options, .. } => assert_eq!(options.rows, (None, 9)),
        other => panic!("unexpected node: {:?}", other),
    }
}

#[test]
fn first_input_reporting_a_known_count_wins() {
    let mut arena = Arena::new();
    let a = arena.add(scan_node((None, 10)));
    let b = arena.add(df_scan(20));
    let concat = arena.add(PlanNode::HConcat {
        inputs: vec![a, b],
        schema: schema_of(&[("a", DataType::Int)]),
    });
    let out = set_estimated_row_counts(concat, &mut arena, 0);
    assert_eq!(out, (Some(20), 30, 0));
}

#[test]
fn estimator_leaves_non_cache_nodes_alone() {
    let mut arena = Arena::new();
    let scan = arena.add(scan_node((Some(8), 8)));
    let slice = arena.add(PlanNode::Slice { input: scan, offset: 0, len: 5 });
    set_estimated_row_counts(slice, &mut arena, 0);
    match arena.get(scan) {
        PlanNode::Scan { file_info } => assert_eq!(file_info.row_estimation, (Some(8), 8)),
        other => panic!("unexpected node: {:?}", other),
    }
}
