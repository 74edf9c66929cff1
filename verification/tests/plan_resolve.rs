use plan_schema::{
    Arena, DataType, ErrorState, Expr, FileInfo, HivePartitions, PlanNode, Schema, SchemaError,
    SchemaTransform,
};

fn schema_of(cols: &[(&str, DataType)]) -> Schema {
    let mut s = Schema::new();
    for (name, dtype) in cols {
        s.with_column(name.to_string(), *dtype);
    }
    s
}

fn assert_schema(s: &Schema, expected: &[(&str, DataType)]) {
    assert_eq!(s.len(), expected.len());
    for (i, (name, dtype)) in expected.iter().enumerate() {
        assert_eq!(s.name_at(i).as_str(), *name);
        assert_eq!(s.dtype_at(i), *dtype);
    }
}

fn scan_node(cols: &[(&str, DataType)], rows: (Option<usize>, usize)) -> PlanNode {
    PlanNode::Scan { file_info: FileInfo::new(schema_of(cols), None, rows) }
}

#[test]
fn pass_through_nodes_borrow_the_input_schema() {
    let mut arena = Arena::new();
    let scan = arena.add(scan_node(&[("a", DataType::Int), ("b", DataType::Str)], (None, 10)));
    let sort = arena.add(PlanNode::Sort { input: scan });
    let cache = arena.add(PlanNode::Cache { input: sort });
    let distinct = arena.add(PlanNode::Distinct { input: cache });
    let out = arena.schema(distinct).unwrap();
    assert_schema(out.as_schema(), &[("a", DataType::Int), ("b", DataType::Str)]);
}

#[test]
fn resolving_twice_gives_identical_schemas() {
    let mut arena = Arena::new();
    let scan = arena.add(scan_node(&[("a", DataType::Int), ("b", DataType::Str)], (None, 10)));
    let slice = arena.add(PlanNode::Slice { input: scan, offset: 0, len: 3 });
    let first = arena.schema(slice).unwrap().into_schema();
    let second = arena.schema(slice).unwrap().into_schema();
    assert_eq!(first.len(), second.len());
    for i in 0..first.len() {
        assert_eq!(first.name_at(i), second.name_at(i));
        assert_eq!(first.dtype_at(i), second.dtype_at(i));
    }
    assert_schema(&first, &[("a", DataType::Int), ("b", DataType::Str)]);
}

#[test]
fn defining_nodes_return_their_stored_schema() {
    let mut arena = Arena::new();
    let scan = arena.add(scan_node(&[("a", DataType::Int)], (None, 10)));
    let proj = arena.add(PlanNode::Projection {
        input: scan,
        schema: schema_of(&[("a", DataType::Int), ("a2", DataType::Int)]),
    });
    let out = arena.schema(proj).unwrap();
    assert_schema(out.as_schema(), &[("a", DataType::Int), ("a2", DataType::Int)]);
}

#[test]
fn union_takes_first_input_schema() {
    let mut arena = Arena::new();
    let s1 = arena.add(scan_node(&[("a", DataType::Int)], (Some(1), 1)));
    let s2 = arena.add(scan_node(&[("a", DataType::Int)], (Some(2), 2)));
    let union = arena.add(PlanNode::Union {
        inputs: vec![s1, s2],
        options: plan_schema::UnionOptions { slice: None, rows: (None, 0) },
    });
    let out = arena.schema(union).unwrap();
    assert_schema(out.as_schema(), &[("a", DataType::Int)]);
}

#[test]
fn rename_transform_renames_in_place() {
    let mut arena = Arena::new();
    let scan = arena.add(scan_node(&[("a", DataType::Int), ("b", DataType::Str)], (None, 10)));
    let map = arena.add(PlanNode::MapFunction {
        input: scan,
        transform: SchemaTransform::Rename {
            pairs: vec![("a".to_string(), "x".to_string())],
        },
    });
    let out = arena.schema(map).unwrap();
    assert_schema(out.as_schema(), &[("x", DataType::Int), ("b", DataType::Str)]);
}

#[test]
fn rename_to_existing_name_is_rejected() {
    let mut arena = Arena::new();
    let scan = arena.add(scan_node(&[("a", DataType::Int), ("b", DataType::Str)], (None, 10)));
    let map = arena.add(PlanNode::MapFunction {
        input: scan,
        transform: SchemaTransform::Rename {
            pairs: vec![("a".to_string(), "b".to_string())],
        },
    });
    match arena.schema(map).unwrap_err() {
        SchemaError::DuplicateColumn(name) => assert_eq!(name, "b"),
        other => panic!("unexpected error: {:?}", other),
    }
}

#[test]
fn rename_of_missing_column_is_rejected() {
    let mut arena = Arena::new();
    let scan = arena.add(scan_node(&[("a", DataType::Int)], (None, 10)));
    let map = arena.add(PlanNode::MapFunction {
        input: scan,
        transform: SchemaTransform::Rename {
            pairs: vec![("zz".to_string(), "x".to_string())],
        },
    });
    match arena.schema(map).unwrap_err() {
        SchemaError::UnknownColumn(name) => assert_eq!(name, "zz"),
        other => panic!("unexpected error: {:?}", other),
    }
}

#[test]
fn row_index_transform_prepends_column() {
    let mut arena = Arena::new();
    let scan = arena.add(scan_node(&[("a", DataType::Int)], (None, 10)));
    let map = arena.add(PlanNode::MapFunction {
        input: scan,
        transform: SchemaTransform::RowIndex { name: "idx".to_string() },
    });
    let out = arena.schema(map).unwrap();
    assert_schema(out.as_schema(), &[("idx", DataType::Int), ("a", DataType::Int)]);
}

#[test]
fn row_index_collision_is_rejected() {
    let mut arena = Arena::new();
    let scan = arena.add(scan_node(&[("a", DataType::Int)], (None, 10)));
    let map = arena.add(PlanNode::MapFunction {
        input: scan,
        transform: SchemaTransform::RowIndex { name: "a".to_string() },
    });
    match arena.schema(map).unwrap_err() {
        SchemaError::DuplicateColumn(name) => assert_eq!(name, "a"),
        other => panic!("unexpected error: {:?}", other),
    }
}

#[test]
fn deferred_error_is_surfaced_once() {
    let mut arena = Arena::new();
    let err = arena.add(PlanNode::Error {
        state: ErrorState::Pending("bad plan".to_string()),
    });
    match arena.schema(err).unwrap_err() {
        SchemaError::Deferred(msg) => assert_eq!(msg, "bad plan"),
        other => panic!("unexpected error: {:?}", other),
    }
    match arena.schema(err).unwrap_err() {
        SchemaError::ResolvedTwice => {},
        other => panic!("unexpected error: {:?}", other),
    }
}

#[test]
fn hive_merge_of_new_columns_extends_schema() {
    let mut info = FileInfo::new(
        schema_of(&[("a", DataType::Int), ("b", DataType::Str)]),
        None,
        (Some(10), 10),
    );
    let parts = HivePartitions::from_schema(schema_of(&[("year", DataType::Int), (
        "month",
        DataType::Int,
    )]));
    info.init_hive_partitions(Some(parts)).unwrap();
    assert_eq!(info.schema.len(), 4);
    assert_schema(
        &info.schema,
        &[
            ("a", DataType::Int),
            ("b", DataType::Str),
            ("year", DataType::Int),
            ("month", DataType::Int),
        ],
    );
    assert!(info.hive_parts.is_some());
    assert_eq!(info.row_estimation, (Some(10), 10));
}

#[test]
fn hive_merge_collision_fails_and_leaves_schema_alone() {
    let mut info = FileInfo::new(
        schema_of(&[("a", DataType::Int), ("b", DataType::Str)]),
        None,
        (None, 10),
    );
    let parts = HivePartitions::from_schema(schema_of(&[("b", DataType::Int)]));
    match info.init_hive_partitions(Some(parts)).unwrap_err() {
        SchemaError::HiveCollision => {},
        other => panic!("unexpected error: {:?}", other),
    }
    assert_schema(&info.schema, &[("a", DataType::Int), ("b", DataType::Str)]);
    assert!(info.hive_parts.is_none());
}

#[test]
fn hive_init_without_partitions_is_accepted() {
    let mut info = FileInfo::new(schema_of(&[("a", DataType::Int)]), None, (None, 10));
    info.init_hive_partitions(None).unwrap();
    assert!(info.hive_parts.is_none());
    assert_schema(&info.schema, &[("a", DataType::Int)]);
}

#[test]
fn hive_update_without_partition_info_is_a_no_op() {
    let mut info = FileInfo::new(schema_of(&[("a", DataType::Int)]), None, (None, 10));
    info.update_hive_partitions(None).unwrap();
    assert!(info.hive_parts.is_none());
}

#[test]
fn hive_update_rejects_unpartitioned_path() {
    let mut info = FileInfo::new(schema_of(&[("a", DataType::Int)]), None, (None, 10));
    let parts = HivePartitions::from_schema(schema_of(&[("year", DataType::Int)]));
    info.init_hive_partitions(Some(parts)).unwrap();
    match info.update_hive_partitions(None).unwrap_err() {
        SchemaError::NotHivePartitioned => {},
        other => panic!("unexpected error: {:?}", other),
    }
}

#[test]
fn hive_update_replaces_partition_info_and_keeps_schema() {
    let mut info = FileInfo::new(schema_of(&[("a", DataType::Int)]), None, (None, 10));
    let parts = HivePartitions::from_schema(schema_of(&[("year", DataType::Int)]));
    info.init_hive_partitions(Some(parts)).unwrap();
    let len_after_init = info.schema.len();
    let fresh = HivePartitions::from_schema(schema_of(&[("year", DataType::Int)]));
    info.update_hive_partitions(Some(fresh)).unwrap();
    assert_eq!(info.schema.len(), len_after_init);
    assert!(info.hive_parts.is_some());
}

#[test]
fn literal_join_key_resolves_to_literal_column() {
    let schema = schema_of(&[("a", DataType::Int)]);
    let expr = Expr::Lit(DataType::Boolean);
    let (name, dtype) = expr.to_field(&schema).unwrap();
    assert_eq!(name, "literal");
    assert_eq!(dtype, DataType::Boolean);
}
