use vstd::prelude::*;

verus! {

/// Specification-level image of a [`SchemaError`]: the same variants with
/// column names abstracted to character sequences.
pub enum SchemaErrorView {
    UnknownColumn(Seq<char>),
    DuplicateColumn(Seq<char>),
    HiveCollision,
    NotHivePartitioned,
    Deferred(Seq<char>),
    ResolvedTwice,
}

/// A failure of schema inference.  Every operation of this crate either
/// succeeds completely or returns one of these; no partial schema is ever
/// handed out.
#[derive(Debug)]
pub enum SchemaError {
    /// A join key or map-function transform referenced a column that is
    /// absent from the schema it was resolved against.
    UnknownColumn(String),
    /// A transform would have produced two columns of the same name.
    DuplicateColumn(String),
    /// Merging hive partition columns into a scan schema would have
    /// overwritten a column the file schema already has.
    HiveCollision,
    /// A scan that already carries partition info was re-pointed at a path
    /// that did not parse as hive partitioned.
    NotHivePartitioned,
    /// A plan node that had already failed during plan construction; the
    /// stored message is surfaced the first time its schema is requested.
    Deferred(String),
    /// The failure of a deferred-error node was requested a second time.
    ResolvedTwice,
}

impl View for SchemaError {
    type V = SchemaErrorView;

    open spec fn view(&self) -> SchemaErrorView {
        match self {
            SchemaError::UnknownColumn(name) => SchemaErrorView::UnknownColumn(name@),
            SchemaError::DuplicateColumn(name) => SchemaErrorView::DuplicateColumn(name@),
            SchemaError::HiveCollision => SchemaErrorView::HiveCollision,
            SchemaError::NotHivePartitioned => SchemaErrorView::NotHivePartitioned,
            SchemaError::Deferred(msg) => SchemaErrorView::Deferred(msg@),
            SchemaError::ResolvedTwice => SchemaErrorView::ResolvedTwice,
        }
    }
}

} // verus!
