use vstd::prelude::*;
use crate::types::{ColumnSpec, ColumnType};

verus! {

/// What can be asked of a schema: an ordered list of columns, each with a
/// name, a type and a nullability.
pub trait Schema {
    /// The columns, in order.
    spec fn columns(&self) -> Seq<ColumnSpec>;

    /// The number of columns.
    fn len(&self) -> (n: usize)
        ensures
            n == self.columns().len(),
    ;

    /// The name of a column.
    fn name(&self, index: usize) -> (s: &str)
        requires
            index < self.columns().len(),
        ensures
            s@ == self.columns()[index as int].name,
    ;

    /// The type of a column.
    fn ctype(&self, index: usize) -> (t: ColumnType)
        requires
            index < self.columns().len(),
        ensures
            t == self.columns()[index as int].ctype,
    ;

    /// Whether a column may hold nulls.
    fn nullable(&self, index: usize) -> (b: bool)
        requires
            index < self.columns().len(),
        ensures
            b == self.columns()[index as int].nullable,
    ;
}

/// One column of a schema.
pub struct ColumnDef {
    pub name: String,
    pub ctype: ColumnType,
    pub nullable: bool,
}

impl View for ColumnDef {
    type V = ColumnSpec;

    open spec fn view(&self) -> ColumnSpec {
        ColumnSpec { name: self.name@, ctype: self.ctype, nullable: self.nullable }
    }
}

/// The schema of a file: its columns in the order in which a row holds
/// their values. Names may repeat.
pub struct Schema2 {
    cols: Vec<ColumnDef>,
}

impl View for Schema2 {
    type V = Seq<ColumnSpec>;

    closed spec fn view(&self) -> Seq<ColumnSpec> {
        Seq::new(self.cols@.len(), |i: int| self.cols@[i]@)
    }
}

/// The types of a list of columns.
pub open spec fn types_of(cols: Seq<ColumnSpec>) -> Seq<ColumnType> {
    Seq::new(cols.len(), |i: int| cols[i].ctype)
}

impl Schema2 {
    /// A schema without columns.
    pub fn new() -> (s: Schema2)
        ensures
            s@ == Seq::<ColumnSpec>::empty(),
    {
        let s = Schema2 { cols: Vec::new() };
        assert(s@ =~= Seq::<ColumnSpec>::empty());
        s
    }

    /// Appends a column.
    pub fn add(&mut self, name: &str, ctype: ColumnType, nullable: bool)
        ensures
            final(self)@ == old(self)@.push(ColumnSpec { name: name@, ctype, nullable }),
    {
        self.cols.push(ColumnDef { name: name.to_owned(), ctype, nullable });
        assert(self@ =~= old(self)@.push(ColumnSpec { name: name@, ctype, nullable }));
    }

    /// Sets whether a column may hold nulls.
    pub fn set_nullable(&mut self, index: usize, nullability: bool)
        requires
            index < old(self)@.len(),
        ensures
            final(self)@ == old(self)@.update(
                index as int,
                ColumnSpec {
                    name: old(self)@[index as int].name,
                    ctype: old(self)@[index as int].ctype,
                    nullable: nullability,
                },
            ),
    {
        self.cols[index].nullable = nullability;
        assert(self@ =~= old(self)@.update(
            index as int,
            ColumnSpec {
                name: old(self)@[index as int].name,
                ctype: old(self)@[index as int].ctype,
                nullable: nullability,
            },
        ));
    }

    /// The index of the first column with the given name, if there is one.
    pub fn find(&self, name: &str) -> (r: Option<usize>)
        ensures
            match r {
                Some(i) => i < self@.len() && self@[i as int].name == name@ && forall|k: int|
                    0 <= k < i ==> self@[k].name != name@,
                None => forall|k: int| 0 <= k < self@.len() ==> self@[k].name != name@,
            },
    {
        let mut i: usize = 0;
        while i < self.cols.len()
            invariant
                i <= self.cols.len(),
                forall|k: int| 0 <= k < i ==> self@[k].name != name@,
            decreases self.cols.len() - i,
        {
            if str_eq(self.cols[i].name.as_str(), name) {
                return Some(i);
            }
            i += 1;
        }
        None
    }
}

/// Whether two strings hold the same text.
pub fn str_eq(a: &str, b: &str) -> (r: bool)
    ensures
        r == (a@ == b@),
{
    let x = a.to_owned();
    let y = b.to_owned();
    x == y
}

impl Schema for Schema2 {
    open spec fn columns(&self) -> Seq<ColumnSpec> {
        self@
    }

    fn len(&self) -> (n: usize) {
        self.cols.len()
    }

    fn name(&self, index: usize) -> (s: &str) {
        self.cols[index].name.as_str()
    }

    fn ctype(&self, index: usize) -> (t: ColumnType) {
        self.cols[index].ctype
    }

    fn nullable(&self, index: usize) -> (b: bool) {
        self.cols[index].nullable
    }
}

} // verus!
