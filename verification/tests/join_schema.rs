use plan_schema::{det_join_schema, AsOfOptions, DataType, Expr, JoinOptions, JoinType, Schema, SchemaError};

fn schema_of(cols: &[(&str, DataType)]) -> Schema {
    let mut s = Schema::new();
    for (name, dtype) in cols {
        s.with_column(name.to_string(), *dtype);
    }
    s
}

fn assert_schema(s: &Schema, expected: &[(&str, DataType)]) {
    assert_eq!(s.len(), expected.len());
    for (i, (name, dtype)) in expected.iter().enumerate() {
        assert_eq!(s.name_at(i).as_str(), *name);
        assert_eq!(s.dtype_at(i), *dtype);
    }
}

fn options(how: JoinType, suffix: &str) -> JoinOptions {
    JoinOptions {
        how,
        suffix: suffix.to_string(),
        slice: None,
        rows_left: (None, 0),
        rows_right: (None, 0),
    }
}

fn left_ab() -> Schema {
    schema_of(&[("a", DataType::Int), ("b", DataType::Str)])
}

fn right_ac() -> Schema {
    schema_of(&[("a", DataType::Int), ("c", DataType::Str)])
}

fn on(name: &str) -> Vec<Expr> {
    vec![Expr::Col(name.to_string())]
}

#[test]
fn semi_join_keeps_left_schema() {
    let out = det_join_schema(
        &left_ab(),
        &right_ac(),
        &on("a"),
        &on("a"),
        &options(JoinType::Semi, "_right"),
    )
    .unwrap();
    assert_schema(&out, &[("a", DataType::Int), ("b", DataType::Str)]);
}

#[test]
fn anti_join_keeps_left_schema() {
    let out = det_join_schema(
        &left_ab(),
        &right_ac(),
        &on("a"),
        &on("a"),
        &options(JoinType::Anti, "_right"),
    )
    .unwrap();
    assert_schema(&out, &[("a", DataType::Int), ("b", DataType::Str)]);
}

#[test]
fn inner_join_merges_key_column() {
    let out = det_join_schema(
        &left_ab(),
        &right_ac(),
        &on("a"),
        &on("a"),
        &options(JoinType::Inner, "_right"),
    )
    .unwrap();
    assert_schema(
        &out,
        &[("a", DataType::Int), ("b", DataType::Str), ("c", DataType::Str)],
    );
}

#[test]
fn cross_join_suffixes_colliding_right_column() {
    let out = det_join_schema(
        &left_ab(),
        &right_ac(),
        &Vec::new(),
        &Vec::new(),
        &options(JoinType::Cross, "_r"),
    )
    .unwrap();
    assert_schema(
        &out,
        &[
            ("a", DataType::Int),
            ("b", DataType::Str),
            ("a_r", DataType::Int),
            ("c", DataType::Str),
        ],
    );
}

#[test]
fn outer_no_coalesce_keeps_both_key_columns() {
    let out = det_join_schema(
        &left_ab(),
        &right_ac(),
        &on("a"),
        &on("a"),
        &options(JoinType::Outer { coalesce: false }, "_right"),
    )
    .unwrap();
    assert_schema(
        &out,
        &[
            ("a", DataType::Int),
            ("b", DataType::Str),
            ("a_right", DataType::Int),
            ("c", DataType::Str),
        ],
    );
}

#[test]
fn outer_with_coalesce_merges_key_columns() {
    let out = det_join_schema(
        &left_ab(),
        &right_ac(),
        &on("a"),
        &on("a"),
        &options(JoinType::Outer { coalesce: true }, "_right"),
    )
    .unwrap();
    assert_schema(
        &out,
        &[("a", DataType::Int), ("b", DataType::Str), ("c", DataType::Str)],
    );
}

#[test]
fn aliased_key_contributes_its_alias() {
    let left_on = vec![Expr::Alias(
        Box::new(Expr::Col("a".to_string())),
        "k".to_string(),
    )];
    let out = det_join_schema(
        &left_ab(),
        &right_ac(),
        &left_on,
        &on("a"),
        &options(JoinType::Inner, "_right"),
    )
    .unwrap();
    assert_schema(
        &out,
        &[
            ("a", DataType::Int),
            ("b", DataType::Str),
            ("k", DataType::Int),
            ("c", DataType::Str),
        ],
    );
}

#[test]
fn cast_key_overlays_its_type() {
    let left_on = vec![Expr::Cast(
        Box::new(Expr::Col("a".to_string())),
        DataType::Date,
    )];
    let out = det_join_schema(
        &left_ab(),
        &right_ac(),
        &left_on,
        &on("a"),
        &options(JoinType::Inner, "_right"),
    )
    .unwrap();
    assert_schema(
        &out,
        &[("a", DataType::Date), ("b", DataType::Str), ("c", DataType::Str)],
    );
}

#[test]
fn unknown_left_key_is_reported() {
    let err = det_join_schema(
        &left_ab(),
        &right_ac(),
        &on("zz"),
        &on("a"),
        &options(JoinType::Inner, "_right"),
    )
    .unwrap_err();
    match err {
        SchemaError::UnknownColumn(name) => assert_eq!(name, "zz"),
        other => panic!("unexpected error: {:?}", other),
    }
}

#[test]
fn unknown_right_key_is_reported() {
    let err = det_join_schema(
        &left_ab(),
        &right_ac(),
        &on("a"),
        &on("zz"),
        &options(JoinType::Inner, "_right"),
    )
    .unwrap_err();
    match err {
        SchemaError::UnknownColumn(name) => assert_eq!(name, "zz"),
        other => panic!("unexpected error: {:?}", other),
    }
}

#[test]
fn asof_keeps_differently_named_right_key() {
    let left = schema_of(&[("t", DataType::Int), ("v", DataType::Str)]);
    let right = schema_of(&[("t2", DataType::Int), ("w", DataType::Str)]);
    let how = JoinType::AsOf(AsOfOptions { left_by: None, right_by: None });
    let out = det_join_schema(&left, &right, &on("t"), &on("t2"), &options(how, "_right"))
        .unwrap();
    assert_schema(
        &out,
        &[
            ("t", DataType::Int),
            ("v", DataType::Str),
            ("t2", DataType::Int),
            ("w", DataType::Str),
        ],
    );
}

#[test]
fn asof_suffixes_right_key_colliding_with_left_column() {
    let left = schema_of(&[("t", DataType::Int), ("u", DataType::Int)]);
    let right = schema_of(&[("u", DataType::Int), ("w", DataType::Str)]);
    let how = JoinType::AsOf(AsOfOptions { left_by: None, right_by: None });
    let out = det_join_schema(&left, &right, &on("t"), &on("u"), &options(how, "_right"))
        .unwrap();
    assert_schema(
        &out,
        &[
            ("t", DataType::Int),
            ("u", DataType::Int),
            ("u_right", DataType::Int),
            ("w", DataType::Str),
        ],
    );
}

#[test]
fn asof_matching_by_keys_are_deduplicated() {
    let left = schema_of(&[("t", DataType::Int), ("g", DataType::Str), ("v", DataType::Int)]);
    let right = schema_of(&[("t", DataType::Int), ("g", DataType::Str), ("w", DataType::Int)]);
    let how = JoinType::AsOf(AsOfOptions {
        left_by: Some(vec!["g".to_string()]),
        right_by: Some(vec!["g".to_string()]),
    });
    let out = det_join_schema(&left, &right, &on("t"), &on("t"), &options(how, "_right"))
        .unwrap();
    assert_schema(
        &out,
        &[
            ("t", DataType::Int),
            ("g", DataType::Str),
            ("v", DataType::Int),
            ("w", DataType::Int),
        ],
    );
}

#[test]
fn schema_with_column_updates_in_place() {
    let mut s = left_ab();
    s.with_column("a".to_string(), DataType::Date);
    assert_schema(&s, &[("a", DataType::Date), ("b", DataType::Str)]);
    s.with_column("z".to_string(), DataType::Boolean);
    assert_schema(
        &s,
        &[("a", DataType::Date), ("b", DataType::Str), ("z", DataType::Boolean)],
    );
}
