use vstd::prelude::*;

verus! {

/// The data type carried by a column.  The planner only transports types
/// through operators; it never inspects data values, so a small closed set
/// is enough.
#[derive(Clone, Copy, Debug, PartialEq, Eq, Structural)]
pub enum DataType {
    Boolean,
    Int,
    Str,
    Date,
    Unknown,
}

/// One column at the specification level: its name and its type.
pub type SpecField = (Seq<char>, DataType);

/// Whether some column of `s` is named `name`.
pub open spec fn contains_name(s: Seq<SpecField>, name: Seq<char>) -> bool {
    exists|i: int| 0 <= i < s.len() && s[i].0 == name
}

/// The index of the column of `s` named `name`; meaningful only when
/// `contains_name(s, name)` holds and names are unique.
pub open spec fn name_index(s: Seq<SpecField>, name: Seq<char>) -> int {
    choose|i: int| 0 <= i < s.len() && s[i].0 == name
}

/// Well-formedness of a schema: column names are pairwise distinct.
pub open spec fn schema_wf(s: Seq<SpecField>) -> bool {
    forall|i: int, j: int| 0 <= i < j < s.len() ==> s[i].0 != s[j].0
}

/// Insert-or-update, the way an ordered name map behaves: an existing name
/// keeps its position and takes the new type; a fresh name is appended.
pub open spec fn spec_upsert(s: Seq<SpecField>, name: Seq<char>, dtype: DataType) -> Seq<
    SpecField,
> {
    if contains_name(s, name) {
        s.update(name_index(s, name), (name, dtype))
    } else {
        s.push((name, dtype))
    }
}

/// Folding `spec_upsert` over `other`, front first: the merge of two
/// schemas, left columns first.
pub open spec fn spec_merge(s: Seq<SpecField>, other: Seq<SpecField>) -> Seq<SpecField>
    decreases other.len(),
{
    if other.len() == 0 {
        s
    } else {
        spec_merge(spec_upsert(s, other[0].0, other[0].1), other.drop_first())
    }
}

/// An ordered mapping from column name to data type.  Order is the
/// user-visible column order and is preserved by every transformation;
/// names are unique within one schema.
#[derive(Debug)]
pub struct Schema {
    fields: Vec<(String, DataType)>,
}

impl View for Schema {
    type V = Seq<SpecField>;

    closed spec fn view(&self) -> Seq<SpecField> {
        Seq::new(self.fields@.len(), |i: int| (self.fields@[i].0@, self.fields@[i].1))
    }
}

impl Schema {
    /// Names are unique.
    pub open spec fn wf(&self) -> bool {
        schema_wf(self@)
    }

    pub fn new() -> (r: Schema)
        ensures
            r@ == Seq::<SpecField>::empty(),
            r.wf(),
    {
        let r = Schema { fields: Vec::new() };
        proof {
            assert(r@ =~= Seq::<SpecField>::empty());
        }
        r
    }

    pub fn len(&self) -> (r: usize)
        ensures
            r == self@.len(),
    {
        self.fields.len()
    }

    pub fn name_at(&self, i: usize) -> (r: &String)
        requires
            i < self@.len(),
        ensures
            r@ == self@[i as int].0,
    {
        &self.fields[i].0
    }

    pub fn dtype_at(&self, i: usize) -> (r: DataType)
        requires
            i < self@.len(),
        ensures
            r == self@[i as int].1,
    {
        self.fields[i].1
    }

    /// The position of the column named `name`, if any; under `wf` this is
    /// the unique such position.
    pub fn position(&self, name: &String) -> (r: Option<usize>)
        ensures
            match r {
                Some(i) => i < self@.len() && self@[i as int].0 == name@ && (forall|j: int|
                    0 <= j < i ==> self@[j].0 != name@),
                None => !contains_name(self@, name@),
            },
    {
        let n = self.fields.len();
        let mut i: usize = 0;
        while i < n
            invariant
                n == self@.len(),
                i <= n,
                forall|j: int| 0 <= j < i ==> self@[j].0 != name@,
            decreases n - i,
        {
            if self.fields[i].0 == *name {
                return Some(i);
            }
            i += 1;
        }
        None
    }

    pub fn contains(&self, name: &String) -> (r: bool)
        ensures
            r == contains_name(self@, name@),
    {
        self.position(name).is_some()
    }

    /// Insert-or-update: an existing name keeps its position and takes the
    /// new type; a fresh name is appended at the end.
    pub fn with_column(&mut self, name: String, dtype: DataType)
        requires
            old(self).wf(),
        ensures
            final(self)@ == spec_upsert(old(self)@, name@, dtype),
            final(self).wf(),
    {
        let ghost s0 = self@;
        match self.position(&name) {
            Some(i) => {
                proof {
                    let k = name_index(s0, name@);
                    assert(s0[k].0 == name@);
                    assert(s0[i as int].0 == name@);
                    assert(k == i as int);
                }
                self.fields.set(i, (name, dtype));
                proof {
                    assert(self@ =~= spec_upsert(s0, name@, dtype));
                    lemma_upsert_wf(s0, name@, dtype);
                }
            },
            None => {
                self.fields.push((name, dtype));
                proof {
                    assert(self@ =~= spec_upsert(s0, name@, dtype));
                    lemma_upsert_wf(s0, name@, dtype);
                }
            },
        }
    }

    /// Append every column of `other`, insert-or-update style, keeping
    /// `self`'s columns first in their original order.
    pub fn merge(&mut self, other: &Schema)
        requires
            old(self).wf(),
        ensures
            final(self)@ == spec_merge(old(self)@, other@),
            final(self).wf(),
    {
        let ghost s0 = self@;
        let ghost t = other@;
        proof {
            assert(t.skip(0) =~= t);
        }
        let n = other.fields.len();
        let mut i: usize = 0;
        while i < n
            invariant
                n == t.len(),
                i <= n,
                other@ == t,
                self.wf(),
                spec_merge(s0, t) == spec_merge(self@, t.skip(i as int)),
            decreases n - i,
        {
            let ghost before = self@;
            let name = other.fields[i].0.clone();
            let dtype = other.fields[i].1;
            proof {
                assert(name@ == t[i as int].0);
            }
            self.with_column(name, dtype);
            proof {
                assert(t.skip(i as int).drop_first() =~= t.skip(i as int + 1));
                assert(t.skip(i as int)[0] == t[i as int]);
                assert(spec_merge(before, t.skip(i as int)) == spec_merge(
                    spec_upsert(before, t[i as int].0, t[i as int].1),
                    t.skip(i as int + 1),
                ));
            }
            i += 1;
        }
        proof {
            assert(t.skip(n as int) =~= Seq::<SpecField>::empty());
        }
    }

    /// Overwrite the column at position `i`, keeping every other column in
    /// place.  Callers are responsible for keeping names unique.
    pub(crate) fn replace_at(&mut self, i: usize, name: String, dtype: DataType)
        requires
            i < old(self)@.len(),
        ensures
            final(self)@ == old(self)@.update(i as int, (name@, dtype)),
    {
        self.fields.set(i, (name, dtype));
        proof {
            assert(self@ =~= old(self)@.update(i as int, (name@, dtype)));
        }
    }

    /// A deep copy: same columns, same order.
    pub fn duplicate(&self) -> (r: Schema)
        ensures
            r@ == self@,
    {
        let n = self.fields.len();
        let mut fields: Vec<(String, DataType)> = Vec::new();
        let mut i: usize = 0;
        while i < n
            invariant
                n == self@.len(),
                i <= n,
                fields@.len() == i,
                forall|j: int| 0 <= j < i ==> (fields@[j].0@, fields@[j].1) == self@[j],
            decreases n - i,
        {
            let name = self.fields[i].0.clone();
            let dtype = self.fields[i].1;
            fields.push((name, dtype));
            i += 1;
        }
        let r = Schema { fields };
        proof {
            assert(r@ =~= self@);
        }
        r
    }
}

/// Upserting keeps names unique: an update leaves the name sequence
/// unchanged, and an append only happens when the name is fresh.
pub proof fn lemma_upsert_wf(s: Seq<SpecField>, name: Seq<char>, dtype: DataType)
    requires
        schema_wf(s),
    ensures
        schema_wf(spec_upsert(s, name, dtype)),
{
    if contains_name(s, name) {
        let k = name_index(s, name);
        let r = s.update(k, (name, dtype));
        assert forall|i: int, j: int| 0 <= i < j < r.len() implies r[i].0 != r[j].0 by {
            assert(r[i].0 == s[i].0);
            assert(r[j].0 == s[j].0);
        }
    } else {
        let r = s.push((name, dtype));
        assert forall|i: int, j: int| 0 <= i < j < r.len() implies r[i].0 != r[j].0 by {
            if j == s.len() {
                assert(r[i].0 == s[i].0);
                assert(!(s[i].0 == name));
            } else {
                assert(r[i].0 == s[i].0);
                assert(r[j].0 == s[j].0);
            }
        }
    }
}

/// Upserting never disturbs the existing column order: the old name
/// sequence is a prefix of the new one (equal to it on an update).
pub proof fn lemma_upsert_preserves_order(s: Seq<SpecField>, name: Seq<char>, dtype: DataType)
    ensures
        spec_upsert(s, name, dtype).len() >= s.len(),
        forall|i: int|
            0 <= i < s.len() ==> #[trigger] spec_upsert(s, name, dtype)[i].0 == s[i].0,
{
}

} // verus!
