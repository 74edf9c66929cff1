use vstd::prelude::*;
use crate::error::{SchemaError, SchemaErrorView};
use crate::schema::{contains_name, name_index, schema_wf, DataType, Schema, SpecField};

verus! {

/// The schema transform of a map-function operator: a user-chosen column
/// mapping step whose effect on the schema is known without running it.
#[derive(Debug)]
pub enum SchemaTransform {
    /// Rename columns, each `(existing, new)` pair in order.
    Rename { pairs: Vec<(String, String)> },
    /// Prepend an integer row-index column of the given name.
    RowIndex { name: String },
}

/// One rename step: the column `from` takes the name `to`, in place.  A
/// missing `from` is an unknown-column error; a `to` that another column
/// already uses would break name uniqueness and is rejected.
pub open spec fn spec_rename_one(s: Seq<SpecField>, from: Seq<char>, to: Seq<char>) -> Result<
    Seq<SpecField>,
    SchemaErrorView,
> {
    if !contains_name(s, from) {
        Err(SchemaErrorView::UnknownColumn(from))
    } else if to != from && contains_name(s, to) {
        Err(SchemaErrorView::DuplicateColumn(to))
    } else {
        Ok(s.update(name_index(s, from), (to, s[name_index(s, from)].1)))
    }
}

/// The rename pairs of `pairs[k..]` folded over `s`, first error wins.
pub open spec fn spec_rename_from(
    s: Seq<SpecField>,
    pairs: Seq<(Seq<char>, Seq<char>)>,
    k: int,
) -> Result<Seq<SpecField>, SchemaErrorView>
    decreases pairs.len() - k,
{
    if k < 0 || k >= pairs.len() {
        Ok(s)
    } else {
        match spec_rename_one(s, pairs[k].0, pairs[k].1) {
            Ok(s1) => spec_rename_from(s1, pairs, k + 1),
            Err(e) => Err(e),
        }
    }
}

pub open spec fn spec_pairs_view(pairs: Seq<(String, String)>) -> Seq<(Seq<char>, Seq<char>)> {
    pairs.map_values(|p: (String, String)| (p.0@, p.1@))
}

/// What a transform does to a schema.
pub open spec fn spec_apply_transform(t: SchemaTransform, s: Seq<SpecField>) -> Result<
    Seq<SpecField>,
    SchemaErrorView,
> {
    match t {
        SchemaTransform::Rename { pairs } => spec_rename_from(s, spec_pairs_view(pairs@), 0),
        SchemaTransform::RowIndex { name } => if contains_name(s, name@) {
            Err(SchemaErrorView::DuplicateColumn(name@))
        } else {
            Ok(seq![(name@, DataType::Int)] + s)
        },
    }
}

/// A rename step keeps names unique.
pub proof fn lemma_rename_one_wf(s: Seq<SpecField>, from: Seq<char>, to: Seq<char>)
    requires
        schema_wf(s),
        spec_rename_one(s, from, to) is Ok,
    ensures
        schema_wf(spec_rename_one(s, from, to)->Ok_0),
{
    let k = name_index(s, from);
    assert(s[k].0 == from);
    let r = s.update(k, (to, s[k].1));
    assert forall|i: int, j: int| 0 <= i < j < r.len() implies r[i].0 != r[j].0 by {
        if i != k && j != k {
            assert(r[i].0 == s[i].0);
            assert(r[j].0 == s[j].0);
        } else if i == k {
            assert(r[j].0 == s[j].0);
            if to == from {
                assert(r[i].0 == s[i].0);
            } else {
                assert(!contains_name(s, to));
            }
        } else {
            assert(r[i].0 == s[i].0);
            if to == from {
                assert(r[j].0 == s[j].0);
            } else {
                assert(!contains_name(s, to));
            }
        }
    }
}

/// Applying a whole transform keeps names unique.
pub proof fn lemma_apply_transform_wf(t: SchemaTransform, s: Seq<SpecField>)
    requires
        schema_wf(s),
        spec_apply_transform(t, s) is Ok,
    ensures
        schema_wf(spec_apply_transform(t, s)->Ok_0),
{
    match t {
        SchemaTransform::Rename { pairs } => {
            lemma_rename_from_wf(s, spec_pairs_view(pairs@), 0);
        },
        SchemaTransform::RowIndex { name } => {
            let r = seq![(name@, DataType::Int)] + s;
            assert forall|i: int, j: int| 0 <= i < j < r.len() implies r[i].0 != r[j].0 by {
                if i == 0 {
                    assert(r[j].0 == s[j - 1].0);
                    assert(!contains_name(s, name@));
                } else {
                    assert(r[i].0 == s[i - 1].0);
                    assert(r[j].0 == s[j - 1].0);
                }
            }
        },
    }
}

pub proof fn lemma_rename_from_wf(s: Seq<SpecField>, pairs: Seq<(Seq<char>, Seq<char>)>, k: int)
    requires
        schema_wf(s),
        spec_rename_from(s, pairs, k) is Ok,
    ensures
        schema_wf(spec_rename_from(s, pairs, k)->Ok_0),
    decreases pairs.len() - k,
{
    if 0 <= k < pairs.len() {
        match spec_rename_one(s, pairs[k].0, pairs[k].1) {
            Ok(s1) => {
                lemma_rename_one_wf(s, pairs[k].0, pairs[k].1);
                lemma_rename_from_wf(s1, pairs, k + 1);
            },
            Err(_) => {},
        }
    }
}

impl SchemaTransform {
    /// Apply this transform to `schema`, producing the transformed schema.
    pub fn apply(&self, schema: &Schema) -> (r: Result<Schema, SchemaError>)
        requires
            schema.wf(),
        ensures
            match r {
                Ok(out) => spec_apply_transform(*self, schema@) == Ok::<
                    Seq<SpecField>,
                    SchemaErrorView,
                >(out@) && out.wf(),
                Err(e) => spec_apply_transform(*self, schema@) == Err::<
                    Seq<SpecField>,
                    SchemaErrorView,
                >(e@),
            },
    {
        match self {
            SchemaTransform::Rename { pairs } => {
                let ghost pv = spec_pairs_view(pairs@);
                let mut out = schema.duplicate();
                let n = pairs.len();
                let mut k: usize = 0;
                while k < n
                    invariant
                        n == pv.len(),
                        k <= n,
                        pairs@.len() == pv.len(),
                        pv == spec_pairs_view(pairs@),
                        out.wf(),
                        spec_apply_transform(*self, schema@) == spec_rename_from(
                            out@,
                            pv,
                            k as int,
                        ),
                    decreases n - k,
                {
                    let ghost before = out@;
                    let from = &pairs[k].0;
                    let to = &pairs[k].1;
                    proof {
                        assert(pv[k as int] == (from@, to@));
                    }
                    match out.position(from) {
                        None => {
                            proof {
                                assert(spec_rename_one(before, from@, to@) == Err::<
                                    Seq<SpecField>,
                                    SchemaErrorView,
                                >(SchemaErrorView::UnknownColumn(from@)));
                                assert(spec_rename_from(before, pv, k as int) == Err::<
                                    Seq<SpecField>,
                                    SchemaErrorView,
                                >(SchemaErrorView::UnknownColumn(from@)));
                            }
                            return Err(SchemaError::UnknownColumn(from.clone()));
                        },
                        Some(i) => {
                            proof {
                                assert(contains_name(before, from@));
                                assert(before[name_index(before, from@)].0 == from@);
                                assert(name_index(before, from@) == i as int);
                            }
                            if !(*to == *from) && out.contains(to) {
                                proof {
                                    assert(spec_rename_one(before, from@, to@) == Err::<
                                        Seq<SpecField>,
                                        SchemaErrorView,
                                    >(SchemaErrorView::DuplicateColumn(to@)));
                                    assert(spec_rename_from(before, pv, k as int) == Err::<
                                        Seq<SpecField>,
                                        SchemaErrorView,
                                    >(SchemaErrorView::DuplicateColumn(to@)));
                                }
                                return Err(SchemaError::DuplicateColumn(to.clone()));
                            }
                            let dtype = out.dtype_at(i);
                            out.replace_at(i, to.clone(), dtype);
                            proof {
                                if to@ == from@ {
                                    assert(spec_rename_one(before, from@, to@) == Ok::<
                                        Seq<SpecField>,
                                        SchemaErrorView,
                                    >(out@));
                                } else {
                                    assert(spec_rename_one(before, from@, to@) == Ok::<
                                        Seq<SpecField>,
                                        SchemaErrorView,
                                    >(out@));
                                }
                                lemma_rename_one_wf(before, from@, to@);
                            }
                        },
                    }
                    k += 1;
                }
                Ok(out)
            },
            SchemaTransform::RowIndex { name } => {
                if schema.contains(name) {
                    Err(SchemaError::DuplicateColumn(name.clone()))
                } else {
                    let mut out = Schema::new();
                    out.with_column(name.clone(), DataType::Int);
                    let ghost head = seq![(name@, DataType::Int)];
                    proof {
                        assert(out@ =~= head);
                    }
                    let n = schema.len();
                    let mut i: usize = 0;
                    while i < n
                        invariant
                            n == schema@.len(),
                            i <= n,
                            schema.wf(),
                            !contains_name(schema@, name@),
                            head == seq![(name@, DataType::Int)],
                            out@ == head + schema@.take(i as int),
                            out.wf(),
                        decreases n - i,
                    {
                        let ghost before = out@;
                        let col_name = schema.name_at(i).clone();
                        let dtype = schema.dtype_at(i);
                        proof {
                            assert(!contains_name(before, col_name@)) by {
                                if contains_name(before, col_name@) {
                                    let k = choose|k: int|
                                        0 <= k < before.len() && before[k].0 == col_name@;
                                    if k == 0 {
                                        assert(schema@[i as int].0 == name@);
                                    } else {
                                        assert(before[k] == schema@[k - 1]);
                                        assert(schema@[k - 1].0 == schema@[i as int].0);
                                        assert(k - 1 < i as int);
                                    }
                                }
                            }
                        }
                        out.with_column(col_name, dtype);
                        proof {
                            assert(out@ =~= head + schema@.take(i as int + 1));
                        }
                        i += 1;
                    }
                    proof {
                        assert(schema@.take(n as int) =~= schema@);
                    }
                    Ok(out)
                }
            },
        }
    }
}

} // verus!
