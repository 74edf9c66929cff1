use vstd::prelude::*;
use vstd::string::StringExecFns;
use crate::error::{SchemaError, SchemaErrorView};
use crate::expr::{spec_to_field, Expr};
use crate::plan::{JoinOptions, JoinType};
use crate::schema::{
    contains_name, lemma_upsert_wf, schema_wf, spec_upsert, DataType, Schema, SpecField,
};

verus! {

/// Whether a sequence of column names holds `name`.
pub open spec fn names_contain(v: Seq<String>, name: Seq<char>) -> bool {
    exists|j: int| 0 <= j < v.len() && v[j]@ == name
}

/// The as-of dedup rule: a right column is dropped outright, instead of
/// suffixed, when both sides list it as an as-of "by" key of the same
/// name; the left copy then serves both.
pub open spec fn spec_asof_dedup(how: JoinType, name: Seq<char>) -> bool {
    match how {
        JoinType::AsOf(a) => match (a.left_by, a.right_by) {
            (Some(lb), Some(rb)) => names_contain(lb@, name) && names_contain(rb@, name),
            _ => false,
        },
        _ => false,
    }
}

/// Overlay the resolved output field of each of `exprs[k..]` (resolved
/// against `left`) onto `acc`: the join keys' final left-side names and
/// types, first resolution error wins.
pub open spec fn spec_overlay_keys(
    acc: Seq<SpecField>,
    left: Seq<SpecField>,
    exprs: Seq<Expr>,
    k: int,
) -> Result<Seq<SpecField>, SchemaErrorView>
    decreases exprs.len() - k,
{
    if k < 0 || k >= exprs.len() {
        Ok(acc)
    } else {
        match spec_to_field(exprs[k], left) {
            Ok(f) => spec_overlay_keys(spec_upsert(acc, f.0, f.1), left, exprs, k + 1),
            Err(e) => Err(e),
        }
    }
}

/// The as-of extra-key rule over the key pairs `k..`: an as-of join is no
/// equi-join, so when a key pair resolves to different names the right
/// key's field is kept too, suffixed if its name collides with a left
/// column.
pub open spec fn spec_asof_extras(
    acc: Seq<SpecField>,
    left: Seq<SpecField>,
    right: Seq<SpecField>,
    left_on: Seq<Expr>,
    right_on: Seq<Expr>,
    suffix: Seq<char>,
    k: int,
) -> Result<Seq<SpecField>, SchemaErrorView>
    decreases left_on.len() - k,
{
    if k < 0 || k >= left_on.len() || k >= right_on.len() {
        Ok(acc)
    } else {
        match spec_to_field(left_on[k], left) {
            Err(e) => Err(e),
            Ok(fl) => match spec_to_field(right_on[k], right) {
                Err(e) => Err(e),
                Ok(fr) => {
                    let acc1 = if fl.0 != fr.0 {
                        if contains_name(left, fr.0) {
                            spec_upsert(acc, fr.0 + suffix, fr.1)
                        } else {
                            spec_upsert(acc, fr.0, fr.1)
                        }
                    } else {
                        acc
                    };
                    spec_asof_extras(acc1, left, right, left_on, right_on, suffix, k + 1)
                },
            },
        }
    }
}

/// The names contributed by the right-side join keys `k..`, in order,
/// appended to `acc`; these are the right columns a merging join drops.
pub open spec fn spec_right_key_names(
    acc: Seq<Seq<char>>,
    right: Seq<SpecField>,
    right_on: Seq<Expr>,
    k: int,
) -> Result<Seq<Seq<char>>, SchemaErrorView>
    decreases right_on.len() - k,
{
    if k < 0 || k >= right_on.len() {
        Ok(acc)
    } else {
        match spec_to_field(right_on[k], right) {
            Ok(f) => spec_right_key_names(acc.push(f.0), right, right_on, k + 1),
            Err(e) => Err(e),
        }
    }
}

/// Append the right columns `k..` onto `acc`: merged key columns are
/// dropped (unless a non-coalescing outer join keeps them), a name that
/// collides with a left column is suffixed, and the as-of dedup rule may
/// drop a collided column outright.
pub open spec fn spec_append_right(
    acc: Seq<SpecField>,
    left: Seq<SpecField>,
    right: Seq<SpecField>,
    keys: Seq<Seq<char>>,
    how: JoinType,
    suffix: Seq<char>,
    k: int,
) -> Seq<SpecField>
    decreases right.len() - k,
{
    if k < 0 || k >= right.len() {
        acc
    } else {
        let name = right[k].0;
        let dtype = right[k].1;
        let keep = !keys.contains(name) || (how matches JoinType::Outer { coalesce: false });
        let acc1 = if keep {
            if contains_name(left, name) {
                if spec_asof_dedup(how, name) {
                    acc
                } else {
                    spec_upsert(acc, name + suffix, dtype)
                }
            } else {
                spec_upsert(acc, name, dtype)
            }
        } else {
            acc
        };
        spec_append_right(acc1, left, right, keys, how, suffix, k + 1)
    }
}

/// The output schema of a join.  Filtering joins keep the left schema;
/// otherwise the left schema is overlaid with the left keys' resolved
/// fields, an as-of join keeps differently named right keys, and the
/// right columns follow, the left side always winning the bare name and
/// the colliding right column taking the suffix.
pub open spec fn spec_det_join_schema(
    left: Seq<SpecField>,
    right: Seq<SpecField>,
    left_on: Seq<Expr>,
    right_on: Seq<Expr>,
    how: JoinType,
    suffix: Seq<char>,
) -> Result<Seq<SpecField>, SchemaErrorView> {
    match how {
        JoinType::Semi => Ok(left),
        JoinType::Anti => Ok(left),
        _ => match spec_overlay_keys(left, left, left_on, 0) {
            Err(e) => Err(e),
            Ok(acc1) => {
                let step2 = if how is AsOf {
                    spec_asof_extras(acc1, left, right, left_on, right_on, suffix, 0)
                } else {
                    Ok(acc1)
                };
                match step2 {
                    Err(e) => Err(e),
                    Ok(acc2) => match spec_right_key_names(Seq::empty(), right, right_on, 0) {
                        Err(e) => Err(e),
                        Ok(keys) => Ok(
                            spec_append_right(acc2, left, right, keys, how, suffix, 0),
                        ),
                    },
                }
            },
        },
    }
}

/// A semi or anti join is a filtering operation: its output schema is
/// exactly the left input schema, whatever the right schema, the keys and
/// the configuration say.
pub proof fn lemma_semi_anti_join_schema(
    left: Seq<SpecField>,
    right: Seq<SpecField>,
    left_on: Seq<Expr>,
    right_on: Seq<Expr>,
    how: JoinType,
    suffix: Seq<char>,
)
    requires
        how is Semi || how is Anti,
    ensures
        spec_det_join_schema(left, right, left_on, right_on, how, suffix) == Ok::<
            Seq<SpecField>,
            SchemaErrorView,
        >(left),
{
}

pub proof fn lemma_overlay_keys_wf_ordered(
    acc: Seq<SpecField>,
    left: Seq<SpecField>,
    exprs: Seq<Expr>,
    k: int,
)
    requires
        schema_wf(acc),
        spec_overlay_keys(acc, left, exprs, k) is Ok,
    ensures
        schema_wf(spec_overlay_keys(acc, left, exprs, k)->Ok_0),
        spec_overlay_keys(acc, left, exprs, k)->Ok_0.len() >= acc.len(),
        forall|i: int|
            0 <= i < acc.len() ==> (#[trigger] spec_overlay_keys(acc, left, exprs, k)->Ok_0[i]).0
                == acc[i].0,
    decreases exprs.len() - k,
{
    if 0 <= k < exprs.len() {
        match spec_to_field(exprs[k], left) {
            Ok(f) => {
                lemma_upsert_wf(acc, f.0, f.1);
                crate::schema::lemma_upsert_preserves_order(acc, f.0, f.1);
                lemma_overlay_keys_wf_ordered(spec_upsert(acc, f.0, f.1), left, exprs, k + 1);
            },
            Err(_) => {},
        }
    }
}

pub proof fn lemma_asof_extras_wf_ordered(
    acc: Seq<SpecField>,
    left: Seq<SpecField>,
    right: Seq<SpecField>,
    left_on: Seq<Expr>,
    right_on: Seq<Expr>,
    suffix: Seq<char>,
    k: int,
)
    requires
        schema_wf(acc),
        spec_asof_extras(acc, left, right, left_on, right_on, suffix, k) is Ok,
    ensures
        schema_wf(spec_asof_extras(acc, left, right, left_on, right_on, suffix, k)->Ok_0),
        spec_asof_extras(acc, left, right, left_on, right_on, suffix, k)->Ok_0.len() >= acc.len(),
        forall|i: int|
            0 <= i < acc.len() ==> (#[trigger] spec_asof_extras(
                acc,
                left,
                right,
                left_on,
                right_on,
                suffix,
                k,
            )->Ok_0[i]).0 == acc[i].0,
    decreases left_on.len() - k,
{
    if 0 <= k < left_on.len() && k < right_on.len() {
        match spec_to_field(left_on[k], left) {
            Err(_) => {},
            Ok(fl) => match spec_to_field(right_on[k], right) {
                Err(_) => {},
                Ok(fr) => {
                    let acc1 = if fl.0 != fr.0 {
                        if contains_name(left, fr.0) {
                            spec_upsert(acc, fr.0 + suffix, fr.1)
                        } else {
                            spec_upsert(acc, fr.0, fr.1)
                        }
                    } else {
                        acc
                    };
                    if fl.0 != fr.0 {
                        if contains_name(left, fr.0) {
                            lemma_upsert_wf(acc, fr.0 + suffix, fr.1);
                            crate::schema::lemma_upsert_preserves_order(acc, fr.0 + suffix, fr.1);
                        } else {
                            lemma_upsert_wf(acc, fr.0, fr.1);
                            crate::schema::lemma_upsert_preserves_order(acc, fr.0, fr.1);
                        }
                    }
                    lemma_asof_extras_wf_ordered(acc1, left, right, left_on, right_on, suffix, k + 1);
                },
            },
        }
    }
}

pub proof fn lemma_append_right_wf_ordered(
    acc: Seq<SpecField>,
    left: Seq<SpecField>,
    right: Seq<SpecField>,
    keys: Seq<Seq<char>>,
    how: JoinType,
    suffix: Seq<char>,
    k: int,
)
    requires
        schema_wf(acc),
    ensures
        schema_wf(spec_append_right(acc, left, right, keys, how, suffix, k)),
        spec_append_right(acc, left, right, keys, how, suffix, k).len() >= acc.len(),
        forall|i: int|
            0 <= i < acc.len() ==> (#[trigger] spec_append_right(
                acc,
                left,
                right,
                keys,
                how,
                suffix,
                k,
            )[i]).0 == acc[i].0,
    decreases right.len() - k,
{
    if 0 <= k < right.len() {
        let name = right[k].0;
        let dtype = right[k].1;
        lemma_upsert_wf(acc, name + suffix, dtype);
        crate::schema::lemma_upsert_preserves_order(acc, name + suffix, dtype);
        lemma_upsert_wf(acc, name, dtype);
        crate::schema::lemma_upsert_preserves_order(acc, name, dtype);
        let keep = !keys.contains(name) || (how matches JoinType::Outer { coalesce: false });
        let acc1 = if keep {
            if contains_name(left, name) {
                if spec_asof_dedup(how, name) {
                    acc
                } else {
                    spec_upsert(acc, name + suffix, dtype)
                }
            } else {
                spec_upsert(acc, name, dtype)
            }
        } else {
            acc
        };
        lemma_append_right_wf_ordered(acc1, left, right, keys, how, suffix, k + 1);
    }
}

/// Every schema a join produces has unique column names, and it preserves
/// the left-then-right append order: the left input's columns stand first,
/// in their original order and under their original names, and appended
/// right-side columns follow.
pub proof fn lemma_join_schema_unique_ordered(
    left: Seq<SpecField>,
    right: Seq<SpecField>,
    left_on: Seq<Expr>,
    right_on: Seq<Expr>,
    how: JoinType,
    suffix: Seq<char>,
)
    requires
        schema_wf(left),
        schema_wf(right),
        spec_det_join_schema(left, right, left_on, right_on, how, suffix) is Ok,
    ensures
        schema_wf(spec_det_join_schema(left, right, left_on, right_on, how, suffix)->Ok_0),
        spec_det_join_schema(left, right, left_on, right_on, how, suffix)->Ok_0.len()
            >= left.len(),
        forall|i: int|
            0 <= i < left.len() ==> (#[trigger] spec_det_join_schema(
                left,
                right,
                left_on,
                right_on,
                how,
                suffix,
            )->Ok_0[i]).0 == left[i].0,
{
    match how {
        JoinType::Semi => {},
        JoinType::Anti => {},
        _ => {
            let step1 = spec_overlay_keys(left, left, left_on, 0);
            lemma_overlay_keys_wf_ordered(left, left, left_on, 0);
            let acc1 = step1->Ok_0;
            let step2 = if how is AsOf {
                spec_asof_extras(acc1, left, right, left_on, right_on, suffix, 0)
            } else {
                Ok(acc1)
            };
            if how is AsOf {
                lemma_asof_extras_wf_ordered(acc1, left, right, left_on, right_on, suffix, 0);
            }
            let acc2 = step2->Ok_0;
            let keys = spec_right_key_names(Seq::empty(), right, right_on, 0)->Ok_0;
            lemma_append_right_wf_ordered(acc2, left, right, keys, how, suffix, 0);
        },
    }
}

/// `name` with the join suffix appended.
fn suffix_name(name: &String, suffix: &String) -> (r: String)
    ensures
        r@ == name@ + suffix@,
{
    name.clone().concat(suffix.as_str())
}

/// Whether `v` holds a string whose characters equal `name`'s.
fn vec_contains_name(v: &Vec<String>, name: &String) -> (r: bool)
    ensures
        r == names_contain(v@, name@),
{
    let n = v.len();
    let mut i: usize = 0;
    while i < n
        invariant
            n == v@.len(),
            i <= n,
            forall|j: int| 0 <= j < i ==> v@[j]@ != name@,
        decreases n - i,
    {
        if v[i] == *name {
            return true;
        }
        i += 1;
    }
    false
}

/// Compute a join's output schema from the two input schemas, the per-side
/// join key expressions, and the join configuration.  Deterministic; no
/// data is touched.
#[verifier::loop_isolation(false)]
pub fn det_join_schema(
    schema_left: &Schema,
    schema_right: &Schema,
    left_on: &Vec<Expr>,
    right_on: &Vec<Expr>,
    options: &JoinOptions,
) -> (r: Result<Schema, SchemaError>)
    requires
        schema_left.wf(),
        schema_right.wf(),
    ensures
        match r {
            Ok(s) => spec_det_join_schema(
                schema_left@,
                schema_right@,
                left_on@,
                right_on@,
                options.how,
                options.suffix@,
            ) == Ok::<Seq<SpecField>, SchemaErrorView>(s@) && s.wf(),
            Err(e) => spec_det_join_schema(
                schema_left@,
                schema_right@,
                left_on@,
                right_on@,
                options.how,
                options.suffix@,
            ) == Err::<Seq<SpecField>, SchemaErrorView>(e@),
        },
{
    let ghost goal = spec_det_join_schema(
        schema_left@,
        schema_right@,
        left_on@,
        right_on@,
        options.how,
        options.suffix@,
    );
    if matches!(options.how, JoinType::Semi | JoinType::Anti) {
        return Ok(schema_left.duplicate());
    }
    let mut out = schema_left.duplicate();

    // Overlay the resolved left-side join key fields: a key may alias or
    // cast, and this fixes its final name and type on the left side.
    let n1 = left_on.len();
    let mut k: usize = 0;
    while k < n1
        invariant
            n1 == left_on@.len(),
            k <= n1,
            schema_left.wf(),
            out.wf(),
            !(options.how is Semi),
            !(options.how is Anti),
            goal == spec_det_join_schema(
                schema_left@,
                schema_right@,
                left_on@,
                right_on@,
                options.how,
                options.suffix@,
            ),
            spec_overlay_keys(schema_left@, schema_left@, left_on@, 0) == spec_overlay_keys(
                out@,
                schema_left@,
                left_on@,
                k as int,
            ),
        decreases n1 - k,
    {
        let ghost before = out@;
        match left_on[k].to_field(schema_left) {
            Err(e) => {
                proof {
                    assert(spec_overlay_keys(before, schema_left@, left_on@, k as int) == Err::<
                        Seq<SpecField>,
                        SchemaErrorView,
                    >(e@));
                }
                return Err(e);
            },
            Ok(f) => {
                out.with_column(f.0, f.1);
            },
        }
        k += 1;
    }
    let ghost acc1 = out@;
    proof {
        assert(spec_overlay_keys(schema_left@, schema_left@, left_on@, 0) == Ok::<
            Seq<SpecField>,
            SchemaErrorView,
        >(acc1));
    }

    // An as-of join is not an equi-join: a right key resolving to another
    // name than its left partner is kept, suffixed on collision.
    let is_asof = matches!(options.how, JoinType::AsOf(_));
    if is_asof {
        let n2 = if left_on.len() < right_on.len() {
            left_on.len()
        } else {
            right_on.len()
        };
        let mut k2: usize = 0;
        while k2 < n2
            invariant
                n2 == if left_on@.len() < right_on@.len() {
                    left_on@.len()
                } else {
                    right_on@.len()
                },
                k2 <= n2,
                schema_left.wf(),
                schema_right.wf(),
                out.wf(),
                !(options.how is Semi),
                !(options.how is Anti),
                options.how is AsOf,
                goal == spec_det_join_schema(
                    schema_left@,
                    schema_right@,
                    left_on@,
                    right_on@,
                    options.how,
                    options.suffix@,
                ),
                spec_overlay_keys(schema_left@, schema_left@, left_on@, 0) == Ok::<
                    Seq<SpecField>,
                    SchemaErrorView,
                >(acc1),
                spec_asof_extras(
                    acc1,
                    schema_left@,
                    schema_right@,
                    left_on@,
                    right_on@,
                    options.suffix@,
                    0,
                ) == spec_asof_extras(
                    out@,
                    schema_left@,
                    schema_right@,
                    left_on@,
                    right_on@,
                    options.suffix@,
                    k2 as int,
                ),
            decreases n2 - k2,
        {
            let ghost before = out@;
            let fl = match left_on[k2].to_field(schema_left) {
                Err(e) => {
                    proof {
                        assert(spec_asof_extras(
                            before,
                            schema_left@,
                            schema_right@,
                            left_on@,
                            right_on@,
                            options.suffix@,
                            k2 as int,
                        ) == Err::<Seq<SpecField>, SchemaErrorView>(e@));
                    }
                    return Err(e);
                },
                Ok(f) => f,
            };
            let fr = match right_on[k2].to_field(schema_right) {
                Err(e) => {
                    proof {
                        assert(spec_asof_extras(
                            before,
                            schema_left@,
                            schema_right@,
                            left_on@,
                            right_on@,
                            options.suffix@,
                            k2 as int,
                        ) == Err::<Seq<SpecField>, SchemaErrorView>(e@));
                    }
                    return Err(e);
                },
                Ok(f) => f,
            };
            if !(fl.0 == fr.0) {
                if schema_left.contains(&fr.0) {
                    let new_name = suffix_name(&fr.0, &options.suffix);
                    out.with_column(new_name, fr.1);
                } else {
                    out.with_column(fr.0, fr.1);
                }
            }
            proof {
                assert(spec_asof_extras(
                    before,
                    schema_left@,
                    schema_right@,
                    left_on@,
                    right_on@,
                    options.suffix@,
                    k2 as int,
                ) == spec_asof_extras(
                    out@,
                    schema_left@,
                    schema_right@,
                    left_on@,
                    right_on@,
                    options.suffix@,
                    k2 as int + 1,
                ));
            }
            k2 += 1;
        }
    }
    let ghost acc2 = out@;
    proof {
        if options.how is AsOf {
            assert(spec_asof_extras(
                acc1,
                schema_left@,
                schema_right@,
                left_on@,
                right_on@,
                options.suffix@,
                0,
            ) == Ok::<Seq<SpecField>, SchemaErrorView>(acc2));
        }
    }

    // The names the right-side keys resolve to: a merging join drops these
    // right columns, since their values merge into the left key columns.
    let mut keys: Vec<String> = Vec::new();
    proof {
        assert(keys@.map_values(|s: String| s@) =~= Seq::<Seq<char>>::empty());
    }
    let n3 = right_on.len();
    let mut k3: usize = 0;
    while k3 < n3
        invariant
            n3 == right_on@.len(),
            k3 <= n3,
            schema_right.wf(),
            spec_right_key_names(Seq::empty(), schema_right@, right_on@, 0)
                == spec_right_key_names(
                keys@.map_values(|s: String| s@),
                schema_right@,
                right_on@,
                k3 as int,
            ),
        decreases n3 - k3,
    {
        let ghost kv = keys@.map_values(|s: String| s@);
        match right_on[k3].to_field(schema_right) {
            Err(e) => {
                proof {
                    assert(spec_right_key_names(kv, schema_right@, right_on@, k3 as int) == Err::<
                        Seq<Seq<char>>,
                        SchemaErrorView,
                    >(e@));
                }
                return Err(e);
            },
            Ok(f) => {
                let ghost fname = f.0@;
                keys.push(f.0);
                proof {
                    assert(keys@.map_values(|s: String| s@) =~= kv.push(fname));
                    assert(spec_right_key_names(kv, schema_right@, right_on@, k3 as int)
                        == spec_right_key_names(
                        kv.push(fname),
                        schema_right@,
                        right_on@,
                        k3 as int + 1,
                    ));
                }
            },
        }
        k3 += 1;
    }
    let ghost keyv = keys@.map_values(|s: String| s@);
    proof {
        assert(spec_right_key_names(Seq::empty(), schema_right@, right_on@, 0) == Ok::<
            Seq<Seq<char>>,
            SchemaErrorView,
        >(keyv));
    }

    // Append the right columns: the left side always wins the bare name;
    // a colliding right column is suffixed, except the as-of dedup case.
    let n4 = schema_right.len();
    let mut k4: usize = 0;
    while k4 < n4
        invariant
            n4 == schema_right@.len(),
            k4 <= n4,
            schema_left.wf(),
            schema_right.wf(),
            out.wf(),
            keyv == keys@.map_values(|s: String| s@),
            spec_append_right(
                acc2,
                schema_left@,
                schema_right@,
                keyv,
                options.how,
                options.suffix@,
                0,
            ) == spec_append_right(
                out@,
                schema_left@,
                schema_right@,
                keyv,
                options.how,
                options.suffix@,
                k4 as int,
            ),
        decreases n4 - k4,
    {
        let ghost before = out@;
        let name = schema_right.name_at(k4).clone();
        let dtype = schema_right.dtype_at(k4);
        let is_key = vec_contains_name(&keys, &name);
        proof {
            assert(is_key == keyv.contains(name@)) by {
                if names_contain(keys@, name@) {
                    let j = choose|j: int| 0 <= j < keys@.len() && keys@[j]@ == name@;
                    assert(keyv[j] == name@);
                }
                if keyv.contains(name@) {
                    let j = choose|j: int| 0 <= j < keyv.len() && keyv[j] == name@;
                    assert(keys@[j]@ == name@);
                }
            }
        }
        let mut dedup = false;
        match &options.how {
            JoinType::AsOf(a) => {
                match (&a.left_by, &a.right_by) {
                    (Some(lb), Some(rb)) => {
                        if vec_contains_name(lb, &name) && vec_contains_name(rb, &name) {
                            dedup = true;
                        }
                    },
                    _ => {},
                }
            },
            _ => {},
        }
        proof {
            assert(dedup == spec_asof_dedup(options.how, name@));
        }
        let outer_keep = matches!(options.how, JoinType::Outer { coalesce: false });
        if !is_key || outer_keep {
            if schema_left.contains(&name) {
                if !dedup {
                    let new_name = suffix_name(&name, &options.suffix);
                    out.with_column(new_name, dtype);
                }
            } else {
                out.with_column(name, dtype);
            }
        }
        proof {
            assert(spec_append_right(
                before,
                schema_left@,
                schema_right@,
                keyv,
                options.how,
                options.suffix@,
                k4 as int,
            ) == spec_append_right(
                out@,
                schema_left@,
                schema_right@,
                keyv,
                options.how,
                options.suffix@,
                k4 as int + 1,
            ));
        }
        k4 += 1;
    }
    proof {
        assert(spec_append_right(
            acc2,
            schema_left@,
            schema_right@,
            keyv,
            options.how,
            options.suffix@,
            0,
        ) == out@);
    }
    Ok(out)
}

} // verus!
