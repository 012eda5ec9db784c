use vstd::prelude::*;
use crate::schema2::str_eq;
use crate::types::{row_view, Cell, Column, ColumnValue};

verus! {

/// The values of one row, each under the column that describes it.
pub struct Row<'a> {
    columns: &'a [Column],
    values: Vec<ColumnValue>,
    nullval: ColumnValue,
}

/// Whether `i` is the first column with the given name.
pub open spec fn column_named_at(columns: Seq<Column>, name: Seq<char>, i: int) -> bool {
    &&& 0 <= i < columns.len()
    &&& columns[i].name@ == name
    &&& forall|k: int| 0 <= k < i ==> columns[k].name@ != name
}

impl<'a> Row<'a> {
    /// The columns.
    pub closed spec fn columns(&self) -> Seq<Column> {
        self.columns@
    }

    /// The cells, one for each column.
    pub closed spec fn cells(&self) -> Seq<Cell> {
        row_view(self.values@)
    }

    pub closed spec fn wf(&self) -> bool {
        self.values@.len() == self.columns@.len() && self.nullval@ is Null
    }

    /// A row of nulls.
    pub fn new(cols: &'a [Column]) -> (r: Row<'a>)
        ensures
            r.wf(),
            r.columns() == cols@,
            r.cells() == Seq::new(cols@.len(), |i: int| Cell::Null),
    {
        let mut values: Vec<ColumnValue> = Vec::new();
        let mut i: usize = 0;
        while i < cols.len()
            invariant
                i <= cols@.len(),
                row_view(values@) == Seq::new(i as nat, |k: int| Cell::Null),
            decreases cols@.len() - i,
        {
            let ghost before = values@;
            values.push(ColumnValue::Null);
            i += 1;
            proof {
                crate::write2::lemma_row_view_push(before, ColumnValue::Null);
                assert(row_view(values@) =~= Seq::new(i as nat, |k: int| Cell::Null));
            }
        }
        Row { values, columns: cols, nullval: ColumnValue::Null }
    }

    /// Sets the value of a column that holds a null.
    pub fn push(&mut self, colidx: usize, v: ColumnValue)
        requires
            old(self).wf(),
            colidx < old(self).cells().len(),
            old(self).cells()[colidx as int] is Null,
        ensures
            final(self).wf(),
            final(self).columns() == old(self).columns(),
            final(self).cells() == old(self).cells().update(colidx as int, v@),
    {
        self.values.set(colidx, v);
        assert(self.cells() =~= old(self).cells().update(colidx as int, v@));
    }

    /// The value of a column by its index; a null beyond the last column.
    pub fn geti(&self, colidx: usize) -> (v: &ColumnValue)
        requires
            self.wf(),
        ensures
            v@ == if colidx < self.cells().len() {
                self.cells()[colidx as int]
            } else {
                Cell::Null
            },
    {
        if colidx < self.values.len() {
            &self.values[colidx]
        } else {
            &self.nullval
        }
    }

    /// The value of the first column with the given name; a null where no
    /// column has it.
    pub fn getn(&self, colname: &str) -> (v: &ColumnValue)
        requires
            self.wf(),
        ensures
            forall|i: int| column_named_at(self.columns(), colname@, i) ==> v@ == self.cells()[i],
            (forall|i: int| 0 <= i < self.columns().len() ==> self.columns()[i].name@ != colname@)
                ==> v@ is Null,
    {
        let mut i: usize = 0;
        while i < self.columns.len()
            invariant
                i <= self.columns@.len(),
                self.wf(),
                forall|k: int| 0 <= k < i ==> self.columns@[k].name@ != colname@,
            decreases self.columns@.len() - i,
        {
            if str_eq(self.columns[i].name.as_str(), colname) {
                assert(self.columns()[i as int].name@ == colname@);
                return &self.values[i];
            }
            i += 1;
        }
        &self.nullval
    }
}

} // verus!
