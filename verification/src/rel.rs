use vstd::prelude::*;
use crate::ast::{eval, Expr};
use crate::buf::{ReadBuf, Source};
use crate::err::OpenError;
use crate::layout::{parse_row, parse_schema};
use crate::mmapbuf::{mapped, MmapBuf};
use crate::scan::{file_rows, lemma_row_progress, lemma_row_width, scan_goes_on};
use crate::schema2::{str_eq, types_of, Schema, Schema2};
use crate::types::{row_view, Cell, ColumnSpec, ColumnType, ColumnValue};
use crate::unique::UniqueRelation;
use crate::write2::{read_schema_v2, schema_read_row};
use memmap::Mmap;

verus! {

/// Whether two lists of columns agree in length, names and types.
pub open spec fn same_shape(a: Seq<ColumnSpec>, b: Seq<ColumnSpec>) -> bool {
    &&& a.len() == b.len()
    &&& forall|i: int|
        0 <= i < a.len() ==> (#[trigger] a[i]).name == b[i].name && a[i].ctype == b[i].ctype
}

/// Agreement in shape carries over from one list to the next.
pub proof fn lemma_same_shape_chain(a: Seq<ColumnSpec>, b: Seq<ColumnSpec>, c: Seq<ColumnSpec>)
    requires
        same_shape(a, b) || same_shape(b, a),
        same_shape(b, c) || same_shape(c, b),
    ensures
        same_shape(a, c),
{
    assert forall|i: int| 0 <= i < a.len() implies (#[trigger] a[i]).name == c[i].name && a[i].ctype
        == c[i].ctype by {
        assert(a[i].name == b[i].name && a[i].ctype == b[i].ctype) by {
            if same_shape(a, b) {
            } else {
                assert(b[i].name == a[i].name);
            }
        }
        assert(b[i].name == c[i].name && b[i].ctype == c[i].ctype) by {
            if same_shape(b, c) {
            } else {
                assert(c[i].name == b[i].name);
            }
        }
    }
}

/// A stream of rows that is read row by row, with the columns that its
/// rows have.
pub trait Relation {
    /// Whether the relation is in a state that its operations keep up.
    spec fn inv(&self) -> bool;

    /// Whether the relation has columns to report. A union without members
    /// has none.
    spec fn described(&self) -> bool;

    /// The columns of the rows.
    spec fn columns(&self) -> Seq<ColumnSpec>;

    /// The row that the last read made current, if there is one.
    spec fn current(&self) -> Option<Seq<Cell>>;

    /// The rows that further reads will make current, in order.
    spec fn rows(&self) -> Seq<Seq<Cell>>;

    /// The number of operators that are stacked on top of each other in
    /// this relation.
    spec fn depth(&self) -> nat;

    /// The current row has one cell for each column.
    proof fn lemma_current_width(&self)
        requires
            self.inv(),
        ensures
            self.current() matches Some(r) ==> r.len() == self.columns().len(),
    ;

    /// Whether the relation has columns to report.
    fn is_described(&self) -> (b: bool)
        requires
            self.inv(),
        ensures
            b == self.described(),
    ;

    /// The number of columns.
    fn length(&self) -> (n: usize)
        requires
            self.inv(),
            self.described(),
        ensures
            n == self.columns().len(),
    ;

    /// Moves on to the next row. Returns whether there is one; once there
    /// is none, there never is one again.
    fn read(&mut self) -> (ok: bool)
        requires
            old(self).inv(),
        ensures
            final(self).inv(),
            final(self).described() == old(self).described(),
            final(self).depth() == old(self).depth(),
            same_shape(final(self).columns(), old(self).columns()),
            ok == (old(self).rows().len() > 0),
            ok ==> final(self).current() == Some(old(self).rows()[0]) && final(self).rows() == old(
                self,
            ).rows().skip(1),
            !ok ==> final(self).current() is None && final(self).rows().len() == 0,
    ;

    /// The name of column `n`.
    fn name(&self, n: usize) -> (s: String)
        requires
            self.inv(),
            self.described(),
            n < self.columns().len(),
        ensures
            s@ == self.columns()[n as int].name,
    ;

    /// The type of column `n`.
    fn ctype(&self, n: usize) -> (t: ColumnType)
        requires
            self.inv(),
            self.described(),
            n < self.columns().len(),
        ensures
            t == self.columns()[n as int].ctype,
    ;

    /// Whether column `n` may hold nulls.
    fn nullable(&self, n: usize) -> (b: bool)
        requires
            self.inv(),
            self.described(),
            n < self.columns().len(),
        ensures
            b == self.columns()[n as int].nullable,
    ;

    /// The value of column `n` in the current row.
    fn value(&self, n: usize) -> (v: &ColumnValue)
        requires
            self.inv(),
            self.current() is Some,
            n < self.current().unwrap().len(),
        ensures
            v@ == self.current().unwrap()[n as int],
    ;
}

/// The relation without columns and without rows.
pub struct EmptyRelation {
    nothing: ColumnValue,
}

impl EmptyRelation {
    /// The cell that the relation keeps to hand out as a value. It is never
    /// asked for, as there is never a current row.
    pub closed spec fn filler(&self) -> Cell {
        self.nothing@
    }

    /// The relation without columns and without rows. It has no current
    /// row, and the value that it keeps to hand out is the null.
    pub fn new() -> (r: EmptyRelation)
        ensures
            r.inv(),
            r.filler() is Null,
            r.described(),
            r.columns() == Seq::<ColumnSpec>::empty(),
            r.rows() == Seq::<Seq<Cell>>::empty(),
            r.current() is None,
    {
        EmptyRelation { nothing: ColumnValue::Null }
    }
}

impl Relation for EmptyRelation {
    open spec fn inv(&self) -> bool {
        self.filler() is Null
    }

    open spec fn described(&self) -> bool {
        true
    }

    open spec fn columns(&self) -> Seq<ColumnSpec> {
        Seq::empty()
    }

    open spec fn current(&self) -> Option<Seq<Cell>> {
        None
    }

    open spec fn rows(&self) -> Seq<Seq<Cell>> {
        Seq::empty()
    }

    open spec fn depth(&self) -> nat {
        0
    }

    proof fn lemma_current_width(&self) {
    }

    fn is_described(&self) -> (b: bool) {
        true
    }

    fn length(&self) -> (n: usize) {
        0
    }

    fn read(&mut self) -> (ok: bool)
        ensures
            final(self).filler() == old(self).filler(),
    {
        false
    }

    fn name(&self, n: usize) -> (s: String) {
        "null".to_owned()
    }

    fn ctype(&self, n: usize) -> (t: ColumnType) {
        ColumnType::String
    }

    fn nullable(&self, n: usize) -> (b: bool) {
        false
    }

    fn value(&self, n: usize) -> (v: &ColumnValue) {
        &self.nothing
    }
}

/// The rows of one file, read through a memory map.
pub struct FileRelation {
    schema: Schema2,
    m: MmapBuf,
    current: Vec<ColumnValue>,
    done: bool,
    name: String,
}

impl FileRelation {
    /// The schema that the file's header holds.
    pub closed spec fn schema(&self) -> Seq<ColumnSpec> {
        self.schema@
    }

    /// What is left to scan.
    pub closed spec fn source(&self) -> Source {
        self.m.source()
    }

    /// Whether the scan has ended.
    pub closed spec fn finished(&self) -> bool {
        self.done
    }

    /// The cells of the row buffer.
    pub closed spec fn buffer(&self) -> Seq<Cell> {
        row_view(self.current@)
    }

    /// The name under which the file was opened.
    pub closed spec fn origin(&self) -> Seq<char> {
        self.name@
    }

    /// Opens the mapped bytes of a file as a relation: reads the schema
    /// header and stands before the first row, with a current row of
    /// nulls. Fails where nothing is mapped, and where the bytes do not
    /// begin with a well-formed header.
    pub fn new(m: Mmap, fname: &str) -> (r: Result<FileRelation, OpenError>)
        ensures
            match r {
                Ok(f) => {
                    let p = parse_schema(Source { pending: mapped(m), eof: false });
                    &&& mapped(m).len() > 0
                    &&& p.columns == Some(f.schema())
                    &&& f.source() == p.left
                    &&& !f.finished()
                    &&& f.buffer() == Seq::new(f.schema().len(), |i: int| Cell::Null)
                    &&& f.origin() == fname@
                    &&& f.inv()
                },
                Err(e) => if mapped(m).len() == 0 {
                    e == OpenError::EmptyFile
                } else {
                    e == OpenError::SchemaParseError && parse_schema(
                        Source { pending: mapped(m), eof: false },
                    ).columns is None
                },
            },
    {
        let mut mmapbuf = MmapBuf::new(m);
        if mmapbuf.len() == 0 {
            return Err(OpenError::EmptyFile);
        }
        assert(mmapbuf.source().pending =~= mapped(m));
        let sch = match read_schema_v2(&mut mmapbuf) {
            Some(s) => s,
            None => {
                return Err(OpenError::SchemaParseError);
            },
        };
        let mut readvec: Vec<ColumnValue> = Vec::new();
        let n = sch.len();
        let mut i: usize = 0;
        while i < n
            invariant
                i <= n,
                row_view(readvec@) == Seq::new(i as nat, |k: int| Cell::Null),
            decreases n - i,
        {
            let ghost r0 = readvec@;
            readvec.push(ColumnValue::Null);
            i += 1;
            proof {
                crate::write2::lemma_row_view_push(r0, ColumnValue::Null);
                assert(row_view(readvec@) =~= Seq::new(i as nat, |k: int| Cell::Null));
            }
        }
        Ok(FileRelation { schema: sch, m: mmapbuf, current: readvec, done: false, name: fname.to_owned() })
    }
}

impl Relation for FileRelation {
    open spec fn inv(&self) -> bool {
        self.buffer().len() == self.schema().len()
    }

    open spec fn described(&self) -> bool {
        true
    }

    open spec fn columns(&self) -> Seq<ColumnSpec> {
        self.schema()
    }

    open spec fn current(&self) -> Option<Seq<Cell>> {
        if self.finished() {
            None
        } else {
            Some(self.buffer())
        }
    }

    open spec fn rows(&self) -> Seq<Seq<Cell>> {
        if self.finished() {
            Seq::empty()
        } else {
            file_rows(types_of(self.schema()), self.source())
        }
    }

    open spec fn depth(&self) -> nat {
        0
    }

    proof fn lemma_current_width(&self) {
    }

    fn is_described(&self) -> (b: bool) {
        true
    }

    fn length(&self) -> (n: usize) {
        self.schema.len()
    }

    /// Reads rows until one is whole. A row with a wrong checksum, a
    /// payload that does not decompress or a text that is not UTF-8 is
    /// skipped. The end of the data, also inside a row, ends the scan for
    /// good.
    fn read(&mut self) -> (ok: bool)
        ensures
            final(self).schema() == old(self).schema(),
            final(self).origin() == old(self).origin(),
    {
        if self.done {
            return false;
        }
        if self.schema.len() == 0 {
            self.done = true;
            return false;
        }
        let ghost types = types_of(self.schema@);
        loop
            invariant
                !self.done,
                self.schema == old(self).schema,
                self.name == old(self).name,
                types == types_of(self.schema@),
                types.len() > 0,
                row_view(self.current@).len() == self.schema@.len(),
                file_rows(types, self.m.source()) == old(self).rows(),
            decreases self.m.source().pending.len(),
        {
            let ghost src = self.m.source();
            proof {
                if scan_goes_on(parse_row(types, src).outcome) {
                    lemma_row_progress(types, src);
                }
                if parse_row(types, src).outcome is Ok {
                    lemma_row_width(types, src);
                }
            }
            match schema_read_row(&mut self.m, &mut self.current, &self.schema) {
                Ok(()) => {
                    proof {
                        let row = row_view(self.current@);
                        assert((seq![row] + file_rows(types, self.m.source())).skip(1)
                            =~= file_rows(types, self.m.source()));
                    }
                    return true;
                },
                Err(e) => {
                    if !e.is_recoverable() {
                        self.done = true;
                        return false;
                    }
                },
            }
        }
    }

    fn name(&self, n: usize) -> (s: String) {
        self.schema.name(n).to_owned()
    }

    fn ctype(&self, n: usize) -> (t: ColumnType) {
        self.schema.ctype(n)
    }

    fn nullable(&self, n: usize) -> (b: bool) {
        self.schema.nullable(n)
    }

    fn value(&self, n: usize) -> (v: &ColumnValue) {
        &self.current[n]
    }
}

/// The rows among `rows` of which `e` holds, in order.
pub open spec fn kept_rows(rows: Seq<Seq<Cell>>, e: Expr) -> Seq<Seq<Cell>>
    decreases rows.len(),
{
    if rows.len() == 0 {
        Seq::empty()
    } else if e.holds(rows[0]) {
        seq![rows[0]] + kept_rows(rows.skip(1), e)
    } else {
        kept_rows(rows.skip(1), e)
    }
}

/// The rows of a relation for which a predicate holds.
pub struct Restriction {
    rel: Box<AnyRelation>,
    e: Expr,
}

impl Restriction {
    /// The relation whose rows are filtered.
    pub closed spec fn base(&self) -> AnyRelation {
        *self.rel
    }

    /// The predicate.
    pub closed spec fn predicate(&self) -> Expr {
        self.e
    }

    /// The restriction of `base` to the rows of which `e` holds. The
    /// predicate may name only columns that `base` has.
    pub fn new(base: Box<AnyRelation>, e: Expr) -> (r: Restriction)
        requires
            base.inv(),
            e.within(base.columns().len()),
        ensures
            r.base() == *base,
            r.predicate() == e,
            r.inv(),
    {
        Restriction { rel: base, e }
    }
}

impl Relation for Restriction {
    open spec fn inv(&self) -> bool
        decreases self,
    {
        self.base().inv() && self.predicate().within(self.base().columns().len())
    }

    open spec fn described(&self) -> bool
        decreases self,
    {
        self.base().described()
    }

    open spec fn columns(&self) -> Seq<ColumnSpec>
        decreases self,
    {
        self.base().columns()
    }

    open spec fn current(&self) -> Option<Seq<Cell>>
        decreases self,
    {
        self.base().current()
    }

    open spec fn rows(&self) -> Seq<Seq<Cell>>
        decreases self,
    {
        kept_rows(self.base().rows(), self.predicate())
    }

    open spec fn depth(&self) -> nat
        decreases self,
    {
        1 + self.base().depth()
    }

    proof fn lemma_current_width(&self)
        decreases self,
    {
        self.base().lemma_current_width();
    }

    fn is_described(&self) -> (b: bool)
        decreases self.depth(),
    {
        self.rel.is_described()
    }

    fn length(&self) -> (n: usize)
        decreases self.depth(),
    {
        self.rel.length()
    }

    /// Reads on in the base until the predicate holds of a row.
    fn read(&mut self) -> (ok: bool)
        ensures
            final(self).predicate() == old(self).predicate(),
        decreases old(self).depth(),
    {
        loop
            invariant
                self.rel.inv(),
                self.rel.depth() == old(self).rel.depth(),
                self.e == old(self).e,
                self.rel.described() == old(self).rel.described(),
                same_shape(self.rel.columns(), old(self).rel.columns()),
                self.e.within(old(self).rel.columns().len()),
                kept_rows(self.rel.rows(), self.e) == kept_rows(old(self).rel.rows(), old(self).e),
            decreases self.rel.rows().len(),
        {
            let ghost before = self.rel.rows();
            let ok = self.rel.read();
            if !ok {
                return false;
            }
            proof {
                self.rel.lemma_current_width();
            }
            if eval(&self.rel, &self.e) {
                proof {
                    assert((seq![before[0]] + kept_rows(before.skip(1), self.e)).skip(1)
                        =~= kept_rows(before.skip(1), self.e));
                }
                return true;
            }
        }
    }

    fn name(&self, n: usize) -> (s: String)
        decreases self.depth(),
    {
        self.rel.name(n)
    }

    fn ctype(&self, n: usize) -> (t: ColumnType)
        decreases self.depth(),
    {
        self.rel.ctype(n)
    }

    fn nullable(&self, n: usize) -> (b: bool)
        decreases self.depth(),
    {
        self.rel.nullable(n)
    }

    fn value(&self, n: usize) -> (v: &ColumnValue)
        decreases self.depth(),
    {
        self.rel.value(n)
    }
}

/// The cells of a row at the given columns, in the order given.
pub open spec fn project_row(row: Seq<Cell>, colmap: Seq<usize>) -> Seq<Cell> {
    Seq::new(colmap.len(), |i: int| row[colmap[i] as int])
}

/// The columns at the given indices, in the order given.
pub open spec fn project_columns(cols: Seq<ColumnSpec>, colmap: Seq<usize>) -> Seq<ColumnSpec> {
    Seq::new(colmap.len(), |i: int| cols[colmap[i] as int])
}

/// Each of the rows, projected.
pub open spec fn project_rows(rows: Seq<Seq<Cell>>, colmap: Seq<usize>) -> Seq<Seq<Cell>> {
    Seq::new(rows.len(), |k: int| project_row(rows[k], colmap))
}

/// Whether `i` is the first column with the given name.
pub open spec fn named_at(cols: Seq<ColumnSpec>, name: Seq<char>, i: int) -> bool {
    &&& 0 <= i < cols.len()
    &&& cols[i].name == name
    &&& forall|k: int| 0 <= k < i ==> cols[k].name != name
}

/// Whether no column has the given name.
pub open spec fn unnamed(cols: Seq<ColumnSpec>, name: Seq<char>) -> bool {
    forall|k: int| 0 <= k < cols.len() ==> cols[k].name != name
}

/// The index of the first column of a relation with the given name, if
/// there is one.
pub fn find_column(rel: &AnyRelation, name: &str) -> (r: Option<usize>)
    requires
        rel.inv(),
        rel.described(),
    ensures
        match r {
            Some(i) => named_at(rel.columns(), name@, i as int),
            None => unnamed(rel.columns(), name@),
        },
{
    let n = rel.length();
    let mut i: usize = 0;
    while i < n
        invariant
            i <= n,
            n == rel.columns().len(),
            rel.inv(),
            rel.described(),
            forall|k: int| 0 <= k < i ==> rel.columns()[k].name != name@,
        decreases n - i,
    {
        let s = rel.name(i);
        if str_eq(s.as_str(), name) {
            return Some(i);
        }
        i += 1;
    }
    None
}

/// The indices of the first columns of a relation with the given names, or
/// nothing where one of the names is the name of no column.
pub fn find_columns(rel: &AnyRelation, cols: &Vec<String>) -> (r: Option<Vec<usize>>)
    requires
        rel.inv(),
        rel.described(),
    ensures
        match r {
            Some(map) => map@.len() == cols@.len() && forall|j: int|
                0 <= j < cols@.len() ==> named_at(
                    rel.columns(),
                    (#[trigger] cols@[j])@,
                    map@[j] as int,
                ),
            None => exists|j: int| 0 <= j < cols@.len() && unnamed(rel.columns(), (#[trigger] cols@[j])@),
        },
{
    let mut colmap: Vec<usize> = Vec::new();
    let mut j: usize = 0;
    while j < cols.len()
        invariant
            j <= cols@.len(),
            rel.inv(),
            rel.described(),
            colmap@.len() == j,
            forall|k: int|
                0 <= k < j ==> named_at(rel.columns(), (#[trigger] cols@[k])@, colmap@[k] as int),
        decreases cols@.len() - j,
    {
        match find_column(rel, cols[j].as_str()) {
            Some(i) => {
                colmap.push(i);
            },
            None => {
                return None;
            },
        }
        j += 1;
    }
    Some(colmap)
}

/// A relation with some of the columns of another one, in a chosen order.
pub struct Projection {
    relation: Box<AnyRelation>,
    colmap: Vec<usize>,
}

impl Projection {
    /// The relation whose columns are chosen from.
    pub closed spec fn base(&self) -> AnyRelation {
        *self.relation
    }

    /// For each column of the projection, the column of the base that it
    /// shows.
    pub closed spec fn map(&self) -> Seq<usize> {
        self.colmap@
    }

    /// The projection of `rel` on the columns with the names `cols`, each
    /// name standing for the first column that has it. There is no
    /// projection where one of the names is the name of no column.
    pub fn new(rel: Box<AnyRelation>, cols: Vec<String>) -> (r: Option<Projection>)
        requires
            rel.inv(),
            rel.described(),
        ensures
            match r {
                Some(p) => p.base() == *rel && p.inv() && p.map().len() == cols@.len() && forall|
                    j: int,
                |
                    0 <= j < cols@.len() ==> named_at(
                        rel.columns(),
                        (#[trigger] cols@[j])@,
                        p.map()[j] as int,
                    ),
                None => exists|j: int|
                    0 <= j < cols@.len() && unnamed(rel.columns(), (#[trigger] cols@[j])@),
            },
    {
        match find_columns(&rel, &cols) {
            Some(colmap) => {
                let p = Projection { relation: rel, colmap };
                proof {
                    assert forall|i: int| 0 <= i < p.map().len() implies (#[trigger] p.map()[i])
                        < p.base().columns().len() by {
                        assert(named_at(rel.columns(), cols@[i]@, p.map()[i] as int));
                    }
                }
                Some(p)
            },
            None => None,
        }
    }
}

impl Relation for Projection {
    open spec fn inv(&self) -> bool
        decreases self,
    {
        &&& self.base().inv()
        &&& self.base().described()
        &&& forall|i: int|
            0 <= i < self.map().len() ==> (#[trigger] self.map()[i]) < self.base().columns().len()
    }

    open spec fn described(&self) -> bool {
        true
    }

    open spec fn columns(&self) -> Seq<ColumnSpec>
        decreases self,
    {
        project_columns(self.base().columns(), self.map())
    }

    open spec fn current(&self) -> Option<Seq<Cell>>
        decreases self,
    {
        match self.base().current() {
            Some(row) => Some(project_row(row, self.map())),
            None => None,
        }
    }

    open spec fn rows(&self) -> Seq<Seq<Cell>>
        decreases self,
    {
        project_rows(self.base().rows(), self.map())
    }

    open spec fn depth(&self) -> nat
        decreases self,
    {
        1 + self.base().depth()
    }

    proof fn lemma_current_width(&self)
        decreases self,
    {
        assert(self.columns() == project_columns(self.base().columns(), self.map()));
        assert(project_columns(self.base().columns(), self.map()).len() == self.map().len());
        match self.base().current() {
            Some(row) => {
                assert(self.current() == Some(project_row(row, self.map())));
                assert(project_row(row, self.map()).len() == self.map().len());
            },
            None => {},
        }
    }

    fn is_described(&self) -> (b: bool) {
        true
    }

    fn length(&self) -> (n: usize) {
        assert(self.columns() == project_columns(self.base().columns(), self.map()));
        self.colmap.len()
    }

    fn read(&mut self) -> (ok: bool)
        ensures
            final(self).map() == old(self).map(),
        decreases old(self).depth(),
    {
        let ok = self.relation.read();
        proof {
            if ok {
                assert(project_rows(old(self).base().rows(), self.map()).skip(1)
                    =~= project_rows(old(self).base().rows().skip(1), self.map()));
            }
            assert(self.columns() == project_columns(self.base().columns(), self.map()));
            assert(old(self).columns() == project_columns(
                old(self).base().columns(),
                old(self).map(),
            ));
            assert forall|i: int| 0 <= i < self.map().len() implies (#[trigger] self.map()[i])
                < self.base().columns().len() by {
                assert(old(self).map()[i] < old(self).base().columns().len());
            }
        }
        ok
    }

    fn name(&self, n: usize) -> (s: String)
        decreases self.depth(),
    {
        assert(self.columns() == project_columns(self.base().columns(), self.map()));
        let m = self.colmap[n];
        assert(self.map()[n as int] < self.base().columns().len());
        self.relation.name(m)
    }

    fn ctype(&self, n: usize) -> (t: ColumnType)
        decreases self.depth(),
    {
        assert(self.columns() == project_columns(self.base().columns(), self.map()));
        let m = self.colmap[n];
        assert(self.map()[n as int] < self.base().columns().len());
        self.relation.ctype(m)
    }

    fn nullable(&self, n: usize) -> (b: bool)
        decreases self.depth(),
    {
        assert(self.columns() == project_columns(self.base().columns(), self.map()));
        let m = self.colmap[n];
        assert(self.map()[n as int] < self.base().columns().len());
        self.relation.nullable(m)
    }

    fn value(&self, n: usize) -> (v: &ColumnValue)
        decreases self.depth(),
    {
        proof {
            self.relation.lemma_current_width();
            assert(self.current() == Some(
                project_row(self.base().current().unwrap(), self.map()),
            ));
        }
        let m = self.colmap[n];
        assert(self.map()[n as int] < self.base().columns().len());
        self.relation.value(m)
    }
}

/// The rows of the relations from the index `from` on, one relation after
/// the other.
pub open spec fn concat_rows(rels: Seq<AnyRelation>, from: nat) -> Seq<Seq<Cell>>
    decreases rels, rels.len() - from,
{
    if from >= rels.len() {
        Seq::empty()
    } else {
        rels[from as int].rows() + concat_rows(rels, from + 1)
    }
}

/// The depths of the relations, and one for each, added up.
pub open spec fn members_depth(rels: Seq<AnyRelation>) -> nat
    decreases rels, rels.len(),
{
    if rels.len() == 0 {
        0
    } else {
        members_depth(rels.drop_last()) + 1 + rels.last().depth()
    }
}

/// Each relation is less deep than all of them together.
pub proof fn lemma_member_depth(rels: Seq<AnyRelation>, k: int)
    requires
        0 <= k < rels.len(),
    ensures
        rels[k].depth() < members_depth(rels),
    decreases rels.len(),
{
    assert(members_depth(rels) == members_depth(rels.drop_last()) + 1 + rels.last().depth());
    if k < rels.len() - 1 {
        lemma_member_depth(rels.drop_last(), k);
    }
}

/// The depth of all together stays where one of them is replaced by a
/// relation of the same depth.
pub proof fn lemma_members_depth_update(rels: Seq<AnyRelation>, k: int, r: AnyRelation)
    requires
        0 <= k < rels.len(),
        r.depth() == rels[k].depth(),
    ensures
        members_depth(rels.update(k, r)) == members_depth(rels),
    decreases rels.len(),
{
    let next = rels.update(k, r);
    assert(members_depth(rels) == members_depth(rels.drop_last()) + 1 + rels.last().depth());
    assert(members_depth(next) == members_depth(next.drop_last()) + 1 + next.last().depth());
    if k < rels.len() - 1 {
        lemma_members_depth_update(rels.drop_last(), k, r);
        assert(next.drop_last() =~= rels.drop_last().update(k, r));
    } else {
        assert(next.drop_last() =~= rels.drop_last());
    }
}

/// The rows of several relations with the same columns, one relation after
/// the other.
pub struct ConcatRelation {
    relations: Vec<AnyRelation>,
    current: usize,
}

impl ConcatRelation {
    /// The members, in order.
    pub closed spec fn members(&self) -> Seq<AnyRelation> {
        self.relations@
    }

    /// The index of the member that is being read.
    pub closed spec fn cursor(&self) -> nat {
        self.current as nat
    }

    /// The index of the member that describes the columns: the one being
    /// read, or the last one once all are read.
    pub open spec fn active(&self) -> int {
        if self.cursor() < self.members().len() {
            self.cursor() as int
        } else {
            self.members().len() - 1
        }
    }

    /// A union without members.
    pub fn new() -> (r: ConcatRelation)
        ensures
            r.members().len() == 0,
            r.cursor() == 0,
            r.inv(),
    {
        ConcatRelation { relations: Vec::new(), current: 0 }
    }

    /// The number of members.
    pub fn size(&self) -> (n: usize)
        ensures
            n == self.members().len(),
    {
        self.relations.len()
    }

    /// Appends a member, unless the union has members already and the new
    /// one differs from the first of them in the number of its columns, or
    /// in the name or the type of one. Nullability may differ.
    pub fn add(&mut self, rel: Box<AnyRelation>) -> (ok: bool)
        requires
            old(self).inv(),
            rel.inv(),
            rel.described(),
        ensures
            final(self).inv(),
            final(self).cursor() == old(self).cursor(),
            ok == (old(self).members().len() == 0 || same_shape(
                old(self).members()[0].columns(),
                rel.columns(),
            )),
            ok ==> final(self).members() == old(self).members().push(*rel),
            !ok ==> final(self).members() == old(self).members(),
    {
        if self.relations.len() > 0 {
            let first = &self.relations[0];
            let n = first.length();
            if n != rel.length() {
                return false;
            }
            let mut i: usize = 0;
            while i < n
                invariant
                    i <= n,
                    *self == *old(self),
                    self.inv(),
                    self.relations@.len() > 0,
                    *first == self.relations@[0],
                    first.inv(),
                    first.described(),
                    rel.inv(),
                    rel.described(),
                    n == first.columns().len(),
                    n == rel.columns().len(),
                    forall|k: int|
                        0 <= k < i ==> (#[trigger] first.columns()[k]).name == rel.columns()[k].name
                            && first.columns()[k].ctype == rel.columns()[k].ctype,
                decreases n - i,
            {
                let a = first.name(i);
                let b = rel.name(i);
                if a != b {
                    return false;
                }
                if first.ctype(i) != rel.ctype(i) {
                    return false;
                }
                i += 1;
            }
        }
        let ghost before = self.relations@;
        self.relations.push(*rel);
        proof {
            assert forall|k: int| 0 <= k < self.relations@.len() implies (
            #[trigger] self.relations@[k]).inv() && self.relations@[k].described() && same_shape(
                self.relations@[0].columns(),
                self.relations@[k].columns(),
            ) by {
                if k < before.len() {
                    assert(before[k].inv());
                }
            }
        }
        true
    }
}

impl Relation for ConcatRelation {
    open spec fn inv(&self) -> bool
        decreases self,
    {
        &&& self.cursor() <= self.members().len()
        &&& forall|k: int|
            0 <= k < self.members().len() ==> (#[trigger] self.members()[k]).inv()
                && self.members()[k].described() && same_shape(
                self.members()[0].columns(),
                self.members()[k].columns(),
            )
    }

    open spec fn described(&self) -> bool {
        self.members().len() > 0
    }

    open spec fn columns(&self) -> Seq<ColumnSpec>
        decreases self,
    {
        if self.members().len() == 0 {
            Seq::empty()
        } else {
            self.members()[self.active()].columns()
        }
    }

    open spec fn current(&self) -> Option<Seq<Cell>>
        decreases self,
    {
        if self.cursor() < self.members().len() {
            self.members()[self.cursor() as int].current()
        } else {
            None
        }
    }

    open spec fn rows(&self) -> Seq<Seq<Cell>>
        decreases self,
    {
        concat_rows(self.members(), self.cursor())
    }

    open spec fn depth(&self) -> nat
        decreases self,
    {
        1 + members_depth(self.members())
    }

    proof fn lemma_current_width(&self)
        decreases self,
    {
        if self.cursor() < self.members().len() {
            self.members()[self.cursor() as int].lemma_current_width();
        }
    }

    fn is_described(&self) -> (b: bool) {
        self.relations.len() > 0
    }

    fn length(&self) -> (n: usize)
        decreases self.depth(),
    {
        proof {
            lemma_member_depth(self.relations@, 0);
            assert(self.relations@[0].inv());
            assert(self.relations@[self.active()].inv());
        }
        self.relations[0].length()
    }

    /// Reads on in the member being read, and moves to the next member
    /// where that one has no more rows.
#[verifier::rlimit(40)]
    fn read(&mut self) -> (ok: bool)
        ensures
            final(self).members().len() == old(self).members().len(),
        decreases old(self).depth(),
    {
        let n = self.relations.len();
        while self.current < n
            invariant
                self.inv(),
                members_depth(self.relations@) == members_depth(old(self).relations@),
                n == self.relations@.len(),
                n == old(self).relations@.len(),
                old(self).inv(),
                self.current >= old(self).current,
                concat_rows(self.relations@, self.current as nat) == concat_rows(
                    old(self).relations@,
                    old(self).current as nat,
                ),
                forall|i: int|
                    0 <= i < n ==> same_shape(
                        (#[trigger] self.relations@[i]).columns(),
                        old(self).relations@[i].columns(),
                    ),
            decreases n - self.current,
        {
            let ghost before = self.relations@;
            let ghost k = self.current as int;
            proof {
                lemma_member_depth(before, k);
                assert(before[k].inv());
            }
            let ok = self.relations[self.current].read();
            proof {
                assert(self.relations@ =~= before.update(k, self.relations@[k]));
                lemma_members_depth_update(before, k, self.relations@[k]);
                lemma_concat_rows_update(before, self.relations@, k as nat, (k + 1) as nat);
                assert forall|i: int| 0 <= i < n implies same_shape(
                    (#[trigger] self.relations@[i]).columns(),
                    old(self).relations@[i].columns(),
                ) by {
                    assert(same_shape(before[i].columns(), old(self).relations@[i].columns()));
                    if i == k {
                        lemma_same_shape_chain(
                            self.relations@[i].columns(),
                            before[i].columns(),
                            old(self).relations@[i].columns(),
                        );
                    }
                }
                assert forall|i: int| 0 <= i < n implies (#[trigger] self.relations@[i]).inv()
                    && self.relations@[i].described() && same_shape(
                    self.relations@[0].columns(),
                    self.relations@[i].columns(),
                ) by {
                    assert(before[i].inv());
                    assert(before[0].inv());
                    assert(old(self).relations@[i].inv());
                    assert(old(self).relations@[0].inv());
                    lemma_same_shape_chain(
                        self.relations@[0].columns(),
                        old(self).relations@[0].columns(),
                        old(self).relations@[i].columns(),
                    );
                    lemma_same_shape_chain(
                        self.relations@[0].columns(),
                        old(self).relations@[i].columns(),
                        self.relations@[i].columns(),
                    );
                }
            }
            if ok {
                proof {
                    assert((before[k].rows() + concat_rows(before, (k + 1) as nat)).skip(1)
                        =~= before[k].rows().skip(1) + concat_rows(before, (k + 1) as nat));
                    self.lemma_columns_steady(*old(self));
                }
                return true;
            }
            proof {
                assert(self.relations@[k].rows() + concat_rows(self.relations@, (k + 1) as nat)
                    =~= concat_rows(self.relations@, (k + 1) as nat));
                assert(before[k].rows() =~= Seq::<Seq<Cell>>::empty());
            }
            self.current += 1;
        }
        proof {
            if n > 0 {
                self.lemma_columns_steady(*old(self));
            }
        }
        false
    }

    fn name(&self, n: usize) -> (s: String)
        decreases self.depth(),
    {
        let k = self.active_index();
        proof {
            lemma_member_depth(self.relations@, k as int);
            assert(self.relations@[k as int].inv());
        }
        self.relations[k].name(n)
    }

    fn ctype(&self, n: usize) -> (t: ColumnType)
        decreases self.depth(),
    {
        let k = self.active_index();
        proof {
            lemma_member_depth(self.relations@, k as int);
            assert(self.relations@[k as int].inv());
        }
        self.relations[k].ctype(n)
    }

    fn nullable(&self, n: usize) -> (b: bool)
        decreases self.depth(),
    {
        let k = self.active_index();
        proof {
            lemma_member_depth(self.relations@, k as int);
            assert(self.relations@[k as int].inv());
        }
        self.relations[k].nullable(n)
    }

    fn value(&self, n: usize) -> (v: &ColumnValue)
        decreases self.depth(),
    {
        proof {
            lemma_member_depth(self.relations@, self.current as int);
            assert(self.relations@[self.current as int].inv());
        }
        self.relations[self.current].value(n)
    }
}

impl ConcatRelation {
    /// The columns keep their shape while the members keep theirs.
    proof fn lemma_columns_steady(&self, before: ConcatRelation)
        requires
            self.inv(),
            before.inv(),
            self.members().len() == before.members().len(),
            self.members().len() > 0,
            forall|i: int|
                0 <= i < self.members().len() ==> same_shape(
                    (#[trigger] self.members()[i]).columns(),
                    before.members()[i].columns(),
                ),
        ensures
            same_shape(self.columns(), before.columns()),
    {
        let a = self.active();
        let b = before.active();
        assert(self.members()[a].inv());
        assert(before.members()[b].inv());
        assert(before.members()[0].inv());
        assert(self.members()[0].inv());
        lemma_same_shape_chain(
            self.members()[a].columns(),
            self.members()[0].columns(),
            before.members()[0].columns(),
        );
        lemma_same_shape_chain(
            self.members()[a].columns(),
            before.members()[0].columns(),
            before.members()[b].columns(),
        );
    }

    /// The index of the member that describes the columns.
    fn active_index(&self) -> (k: usize)
        requires
            self.inv(),
            self.members().len() > 0,
        ensures
            k == self.active(),
    {
        if self.current < self.relations.len() {
            self.current
        } else {
            self.relations.len() - 1
        }
    }
}

/// The rows of a union of two members that has not been read from are
/// the rows of the first member followed by the rows of the second.
pub proof fn lemma_concat_two(a: AnyRelation, b: AnyRelation)
    ensures
        concat_rows(seq![a, b], 0) == a.rows() + b.rows(),
{
    let ms = seq![a, b];
    assert(concat_rows(ms, 2) =~= Seq::<Seq<Cell>>::empty());
    assert(concat_rows(ms, 1) =~= b.rows());
}

/// The rows from an index on do not depend on the members before it.
pub proof fn lemma_concat_rows_update(a: Seq<AnyRelation>, b: Seq<AnyRelation>, k: nat, from: nat)
    requires
        a.len() == b.len(),
        k < from,
        forall|i: int| 0 <= i < a.len() && i != k ==> a[i] == b[i],
    ensures
        concat_rows(a, from) == concat_rows(b, from),
    decreases a.len() - from,
{
    if from < a.len() {
        lemma_concat_rows_update(a, b, k, from + 1);
    }
}

/// Any of the relations of this library: a file, or an operator over
/// relations.
pub enum AnyRelation {
    Empty(EmptyRelation),
    File(FileRelation),
    Restriction(Restriction),
    Concat(ConcatRelation),
    Unique(UniqueRelation),
    Projection(Projection),
}

impl Relation for AnyRelation {
    open spec fn inv(&self) -> bool
        decreases self,
    {
        match self {
            AnyRelation::Empty(r) => r.inv(),
            AnyRelation::File(r) => r.inv(),
            AnyRelation::Restriction(r) => r.inv(),
            AnyRelation::Concat(r) => r.inv(),
            AnyRelation::Unique(r) => r.inv(),
            AnyRelation::Projection(r) => r.inv(),
        }
    }

    open spec fn described(&self) -> bool
        decreases self,
    {
        match self {
            AnyRelation::Empty(r) => r.described(),
            AnyRelation::File(r) => r.described(),
            AnyRelation::Restriction(r) => r.described(),
            AnyRelation::Concat(r) => r.described(),
            AnyRelation::Unique(r) => r.described(),
            AnyRelation::Projection(r) => r.described(),
        }
    }

    open spec fn columns(&self) -> Seq<ColumnSpec>
        decreases self,
    {
        match self {
            AnyRelation::Empty(r) => r.columns(),
            AnyRelation::File(r) => r.columns(),
            AnyRelation::Restriction(r) => r.columns(),
            AnyRelation::Concat(r) => r.columns(),
            AnyRelation::Unique(r) => r.columns(),
            AnyRelation::Projection(r) => r.columns(),
        }
    }

    open spec fn current(&self) -> Option<Seq<Cell>>
        decreases self,
    {
        match self {
            AnyRelation::Empty(r) => r.current(),
            AnyRelation::File(r) => r.current(),
            AnyRelation::Restriction(r) => r.current(),
            AnyRelation::Concat(r) => r.current(),
            AnyRelation::Unique(r) => r.current(),
            AnyRelation::Projection(r) => r.current(),
        }
    }

    open spec fn rows(&self) -> Seq<Seq<Cell>>
        decreases self,
    {
        match self {
            AnyRelation::Empty(r) => r.rows(),
            AnyRelation::File(r) => r.rows(),
            AnyRelation::Restriction(r) => r.rows(),
            AnyRelation::Concat(r) => r.rows(),
            AnyRelation::Unique(r) => r.rows(),
            AnyRelation::Projection(r) => r.rows(),
        }
    }

    open spec fn depth(&self) -> nat
        decreases self,
    {
        1 + match self {
            AnyRelation::Empty(r) => r.depth(),
            AnyRelation::File(r) => r.depth(),
            AnyRelation::Restriction(r) => r.depth(),
            AnyRelation::Concat(r) => r.depth(),
            AnyRelation::Unique(r) => r.depth(),
            AnyRelation::Projection(r) => r.depth(),
        }
    }

    proof fn lemma_current_width(&self)
        decreases self,
    {
        match self {
            AnyRelation::Empty(r) => r.lemma_current_width(),
            AnyRelation::File(r) => r.lemma_current_width(),
            AnyRelation::Restriction(r) => r.lemma_current_width(),
            AnyRelation::Concat(r) => r.lemma_current_width(),
            AnyRelation::Unique(r) => r.lemma_current_width(),
            AnyRelation::Projection(r) => r.lemma_current_width(),
        }
    }

    fn is_described(&self) -> (b: bool)
        decreases self.depth(),
    {
        match self {
            AnyRelation::Empty(r) => r.is_described(),
            AnyRelation::File(r) => r.is_described(),
            AnyRelation::Restriction(r) => r.is_described(),
            AnyRelation::Concat(r) => r.is_described(),
            AnyRelation::Unique(r) => r.is_described(),
            AnyRelation::Projection(r) => r.is_described(),
        }
    }

    fn length(&self) -> (n: usize)
        decreases self.depth(),
    {
        match self {
            AnyRelation::Empty(r) => r.length(),
            AnyRelation::File(r) => r.length(),
            AnyRelation::Restriction(r) => r.length(),
            AnyRelation::Concat(r) => r.length(),
            AnyRelation::Unique(r) => r.length(),
            AnyRelation::Projection(r) => r.length(),
        }
    }

    fn read(&mut self) -> (ok: bool)
        decreases old(self).depth(),
    {
        match self {
            AnyRelation::Empty(r) => r.read(),
            AnyRelation::File(r) => r.read(),
            AnyRelation::Restriction(r) => r.read(),
            AnyRelation::Concat(r) => r.read(),
            AnyRelation::Unique(r) => r.read(),
            AnyRelation::Projection(r) => r.read(),
        }
    }

    fn name(&self, n: usize) -> (s: String)
        decreases self.depth(),
    {
        match self {
            AnyRelation::Empty(r) => r.name(n),
            AnyRelation::File(r) => r.name(n),
            AnyRelation::Restriction(r) => r.name(n),
            AnyRelation::Concat(r) => r.name(n),
            AnyRelation::Unique(r) => r.name(n),
            AnyRelation::Projection(r) => r.name(n),
        }
    }

    fn ctype(&self, n: usize) -> (t: ColumnType)
        decreases self.depth(),
    {
        match self {
            AnyRelation::Empty(r) => r.ctype(n),
            AnyRelation::File(r) => r.ctype(n),
            AnyRelation::Restriction(r) => r.ctype(n),
            AnyRelation::Concat(r) => r.ctype(n),
            AnyRelation::Unique(r) => r.ctype(n),
            AnyRelation::Projection(r) => r.ctype(n),
        }
    }

    fn nullable(&self, n: usize) -> (b: bool)
        decreases self.depth(),
    {
        match self {
            AnyRelation::Empty(r) => r.nullable(n),
            AnyRelation::File(r) => r.nullable(n),
            AnyRelation::Restriction(r) => r.nullable(n),
            AnyRelation::Concat(r) => r.nullable(n),
            AnyRelation::Unique(r) => r.nullable(n),
            AnyRelation::Projection(r) => r.nullable(n),
        }
    }

    fn value(&self, n: usize) -> (v: &ColumnValue)
        decreases self.depth(),
    {
        match self {
            AnyRelation::Empty(r) => r.value(n),
            AnyRelation::File(r) => r.value(n),
            AnyRelation::Restriction(r) => r.value(n),
            AnyRelation::Concat(r) => r.value(n),
            AnyRelation::Unique(r) => r.value(n),
            AnyRelation::Projection(r) => r.value(n),
        }
    }
}

} // verus!
