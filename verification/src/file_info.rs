use vstd::prelude::*;
use crate::error::SchemaError;
use crate::schema::{contains_name, schema_wf, spec_merge, spec_upsert, Schema, SpecField};

verus! {

/// Partition columns discovered for one scan path by the external hive
/// path parser.  This core only consumes its schema-producing interface:
/// the statistics schema, one column per partition key.
#[derive(Debug)]
pub struct HivePartitions {
    stats_schema: Schema,
}

impl View for HivePartitions {
    type V = Seq<SpecField>;

    closed spec fn view(&self) -> Seq<SpecField> {
        self.stats_schema@
    }
}

impl HivePartitions {
    pub open spec fn wf(&self) -> bool {
        schema_wf(self@)
    }

    pub fn from_schema(stats_schema: Schema) -> (r: HivePartitions)
        ensures
            r@ == stats_schema@,
    {
        HivePartitions { stats_schema }
    }

    pub fn schema(&self) -> (r: &Schema)
        ensures
            r@ == self@,
    {
        &self.stats_schema
    }
}

/// Per-scan metadata: the scan's schema, an optional reduced reader
/// schema, a row-estimation pair (known count if any, estimated count),
/// and the partition columns merged into the schema, if any.
#[derive(Debug)]
pub struct FileInfo {
    pub schema: Schema,
    /// The schema handed to the storage reader; the main schema can carry
    /// extra hive partition columns on top of it.
    pub reader_schema: Option<Schema>,
    /// Known size, if exact, and estimated size.
    pub row_estimation: (Option<usize>, usize),
    pub hive_parts: Option<HivePartitions>,
}

impl FileInfo {
    pub open spec fn wf(&self) -> bool {
        schema_wf(self.schema@)
    }

    pub fn new(
        schema: Schema,
        reader_schema: Option<Schema>,
        row_estimation: (Option<usize>, usize),
    ) -> (r: FileInfo)
        ensures
            r.schema@ == schema@,
            r.reader_schema == reader_schema,
            r.row_estimation == row_estimation,
            r.hive_parts is None,
    {
        FileInfo { schema, reader_schema, row_estimation, hive_parts: None }
    }

    /// Merge externally parsed partition columns into the scan schema.
    ///
    /// `parts` is what the hive path parser returned for the scan's path:
    /// `None` when the path is not hive partitioned.  The merge itself
    /// would silently overwrite a column whose name the file schema
    /// already has, so the merged length is checked against the sum of the
    /// two input lengths; a shortfall means a collision, and the whole
    /// operation fails without touching `self`.
    pub fn init_hive_partitions(&mut self, parts: Option<HivePartitions>) -> (r: Result<
        (),
        SchemaError,
    >)
        requires
            old(self).wf(),
            parts matches Some(p) ==> old(self).schema@.len() + p@.len() <= usize::MAX,
        ensures
            final(self).reader_schema == old(self).reader_schema,
            final(self).row_estimation == old(self).row_estimation,
            match parts {
                None => r is Ok && final(self).schema == old(self).schema
                    && final(self).hive_parts is None,
                Some(p) => {
                    if spec_merge(old(self).schema@, p@).len() == old(self).schema@.len()
                        + p@.len() {
                        &&& r is Ok
                        &&& final(self).schema@ == spec_merge(old(self).schema@, p@)
                        &&& final(self).hive_parts matches Some(h) && h@ == p@
                    } else {
                        &&& r matches Err(e) && e is HiveCollision
                        &&& final(self).schema == old(self).schema
                        &&& final(self).hive_parts == old(self).hive_parts
                    }
                },
            },
            final(self).wf(),
    {
        match parts {
            None => {
                self.hive_parts = None;
                Ok(())
            },
            Some(p) => {
                let expected_len = self.schema.len() + p.schema().len();
                let mut merged = self.schema.duplicate();
                merged.merge(p.schema());
                if merged.len() == expected_len {
                    self.schema = merged;
                    self.hive_parts = Some(p);
                    Ok(())
                } else {
                    Err(SchemaError::HiveCollision)
                }
            },
        }
    }

    /// Refresh the partition info when the same scan is re-pointed at a
    /// different file of a homogeneously partitioned set.  The schema is
    /// not touched.  A scan without partition info ignores the call; one
    /// with partition info rejects a path that did not parse as hive
    /// partitioned, because a mix of partitioned and unpartitioned files
    /// under one scan is invalid.
    pub fn update_hive_partitions(&mut self, parts: Option<HivePartitions>) -> (r: Result<
        (),
        SchemaError,
    >)
        ensures
            final(self).schema == old(self).schema,
            final(self).reader_schema == old(self).reader_schema,
            final(self).row_estimation == old(self).row_estimation,
            match old(self).hive_parts {
                None => r is Ok && final(self).hive_parts is None,
                Some(_) => match parts {
                    None => r matches Err(e) && e is NotHivePartitioned && final(self).hive_parts
                        == old(self).hive_parts,
                    Some(_) => r is Ok && final(self).hive_parts == parts,
                },
            },
    {
        if self.hive_parts.is_some() {
            match parts {
                None => Err(SchemaError::NotHivePartitioned),
                Some(p) => {
                    self.hive_parts = Some(p);
                    Ok(())
                },
            }
        } else {
            Ok(())
        }
    }
}

/// Merging can only keep or grow the left schema, and never grows past the
/// sum of both lengths.
pub proof fn lemma_merge_len_bounds(s: Seq<SpecField>, t: Seq<SpecField>)
    ensures
        s.len() <= spec_merge(s, t).len() <= s.len() + t.len(),
    decreases t.len(),
{
    if t.len() > 0 {
        lemma_merge_len_bounds(spec_upsert(s, t[0].0, t[0].1), t.drop_first());
    }
}

/// The hive merge length check detects exactly the name collisions: the
/// merged schema has the sum of both lengths precisely when no partition
/// column name already occurs in the file schema.
pub proof fn lemma_merge_len_iff_disjoint(s: Seq<SpecField>, t: Seq<SpecField>)
    requires
        schema_wf(s),
        schema_wf(t),
    ensures
        spec_merge(s, t).len() == s.len() + t.len() <==> (forall|i: int|
            0 <= i < t.len() ==> !contains_name(s, t[i].0)),
    decreases t.len(),
{
    if t.len() > 0 {
        let h = t[0];
        let rest = t.drop_first();
        let s1 = spec_upsert(s, h.0, h.1);
        crate::schema::lemma_upsert_wf(s, h.0, h.1);
        assert(forall|i: int| 0 <= i < rest.len() ==> rest[i] == t[i + 1]);
        assert(schema_wf(rest));
        lemma_merge_len_iff_disjoint(s1, rest);
        assert(spec_merge(s, t) == spec_merge(s1, rest));
        if contains_name(s, h.0) {
            lemma_merge_len_bounds(s1, rest);
            assert(s1.len() == s.len());
            assert(spec_merge(s, t).len() < s.len() + t.len());
            assert(contains_name(s, t[0].0));
        } else {
            assert(s1 == s.push(h));
            assert(s1.len() == s.len() + 1);
            assert forall|i: int| 0 <= i < rest.len() implies (contains_name(s1, rest[i].0)
                <==> contains_name(s, rest[i].0)) by {
                assert(rest[i].0 == t[i + 1].0);
                assert(t[0].0 != t[i + 1].0);
                if contains_name(s1, rest[i].0) {
                    let k = choose|k: int| 0 <= k < s1.len() && s1[k].0 == rest[i].0;
                    if k < s.len() {
                        assert(s[k].0 == rest[i].0);
                    } else {
                        assert(s1[k].0 == h.0);
                        assert(false);
                    }
                }
                if contains_name(s, rest[i].0) {
                    let k = choose|k: int| 0 <= k < s.len() && s[k].0 == rest[i].0;
                    assert(s1[k].0 == rest[i].0);
                }
            }
            if forall|i: int| 0 <= i < t.len() ==> !contains_name(s, t[i].0) {
                assert forall|i: int| 0 <= i < rest.len() implies !contains_name(
                    s1,
                    rest[i].0,
                ) by {
                    assert(rest[i] == t[i + 1]);
                    assert(!contains_name(s, t[i + 1].0));
                }
                assert(spec_merge(s1, rest).len() == s1.len() + rest.len());
            } else {
                let bad = choose|i: int| !(0 <= i < t.len() ==> !contains_name(s, t[i].0));
                assert(0 <= bad < t.len() && contains_name(s, t[bad].0));
                assert(bad != 0);
                assert(rest[bad - 1] == t[bad]);
                assert(contains_name(s1, rest[bad - 1].0));
                assert(spec_merge(s1, rest).len() != s1.len() + rest.len());
            }
        }
    }
}

} // verus!
