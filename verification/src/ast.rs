use vstd::prelude::*;
use crate::rel::{AnyRelation, Relation};
use crate::types::{Cell, ColumnValue};

verus! {

/// An operand of a comparison: a column of the current row, or a literal.
#[derive(Debug)]
pub enum Value {
    Ref { col: usize },
    Val { val: ColumnValue },
}

/// A predicate over the current row of a relation.
#[derive(Debug)]
pub enum Expr {
    Equal { l: Value, r: Value },
    NotEqual { l: Value, r: Value },
    IsNull { l: Value },
    NotNull { l: Value },
    And { l: Box<Expr>, r: Box<Expr> },
    Or { l: Box<Expr>, r: Box<Expr> },
    Not { l: Box<Expr> },
}

/// Whether two cells are equal. Numbers of different width are compared by
/// their value. A text equals only a text, a number only a number. Two
/// nulls are equal only where `nulls_equal` says so, and a null equals
/// nothing else.
pub open spec fn cells_equal(l: Cell, r: Cell, nulls_equal: bool) -> bool {
    match (l, r) {
        (Cell::Null, Cell::Null) => nulls_equal,
        (Cell::U32(a), Cell::U32(b)) => a == b,
        (Cell::U32(a), Cell::U64(b)) => a as u64 == b,
        (Cell::U64(a), Cell::U32(b)) => a == b as u64,
        (Cell::U64(a), Cell::U64(b)) => a == b,
        (Cell::Text(a), Cell::Text(b)) => a == b,
        _ => false,
    }
}

impl Value {
    /// Whether the operand names no column beyond the first `n`.
    pub open spec fn within(self, n: nat) -> bool {
        match self {
            Value::Ref { col } => col < n,
            Value::Val { val } => true,
        }
    }

    /// The cell that the operand stands for in a row.
    pub open spec fn cell(self, row: Seq<Cell>) -> Cell {
        match self {
            Value::Ref { col } => row[col as int],
            Value::Val { val } => val@,
        }
    }

    /// Whether the operand names no column beyond the first `n`.
    pub fn fits(&self, n: usize) -> (r: bool)
        ensures
            r == self.within(n as nat),
    {
        match self {
            Value::Ref { col } => *col < n,
            Value::Val { .. } => true,
        }
    }
}

impl Expr {
    /// Whether the predicate names no column beyond the first `n`.
    pub open spec fn within(self, n: nat) -> bool
        decreases self,
    {
        match self {
            Expr::Equal { l, r } => l.within(n) && r.within(n),
            Expr::NotEqual { l, r } => l.within(n) && r.within(n),
            Expr::IsNull { l } => l.within(n),
            Expr::NotNull { l } => l.within(n),
            Expr::And { l, r } => l.within(n) && r.within(n),
            Expr::Or { l, r } => l.within(n) && r.within(n),
            Expr::Not { l } => l.within(n),
        }
    }

    /// Whether the predicate holds of a row.
    pub open spec fn holds(self, row: Seq<Cell>) -> bool
        decreases self,
    {
        match self {
            Expr::Equal { l, r } => cells_equal(l.cell(row), r.cell(row), false),
            Expr::NotEqual { l, r } => !cells_equal(l.cell(row), r.cell(row), false),
            Expr::IsNull { l } => cells_equal(l.cell(row), Cell::Null, true),
            Expr::NotNull { l } => !cells_equal(l.cell(row), Cell::Null, true),
            Expr::And { l, r } => l.holds(row) && r.holds(row),
            Expr::Or { l, r } => l.holds(row) || r.holds(row),
            Expr::Not { l } => !l.holds(row),
        }
    }

    /// Whether the predicate names no column beyond the first `n`.
    pub fn fits(&self, n: usize) -> (r: bool)
        ensures
            r == self.within(n as nat),
        decreases self,
    {
        match self {
            Expr::Equal { l, r } => l.fits(n) && r.fits(n),
            Expr::NotEqual { l, r } => l.fits(n) && r.fits(n),
            Expr::IsNull { l } => l.fits(n),
            Expr::NotNull { l } => l.fits(n),
            Expr::And { l, r } => l.fits(n) && r.fits(n),
            Expr::Or { l, r } => l.fits(n) && r.fits(n),
            Expr::Not { l } => l.fits(n),
        }
    }
}

/// Whether two values are equal, in the sense of `cells_equal`.
pub fn values_equal(lv: &ColumnValue, rv: &ColumnValue, isnull: bool) -> (b: bool)
    ensures
        b == cells_equal(lv@, rv@, isnull),
{
    match lv {
        ColumnValue::Null => match rv {
            ColumnValue::Null => isnull,
            _ => false,
        },
        ColumnValue::U32 { v: u } => match rv {
            ColumnValue::U32 { v } => *u == *v,
            ColumnValue::U64 { v } => (*u as u64) == *v,
            _ => false,
        },
        ColumnValue::U64 { v: u } => match rv {
            ColumnValue::U32 { v } => *u == (*v as u64),
            ColumnValue::U64 { v } => *u == *v,
            _ => false,
        },
        ColumnValue::String { v: u } => match rv {
            ColumnValue::String { v } => *u == *v,
            _ => false,
        },
    }
}

/// Whether two operands are equal in the current row of a relation.
pub fn eq(rel: &AnyRelation, l: &Value, r: &Value, isnull: bool) -> (b: bool)
    requires
        rel.inv(),
        rel.current() is Some,
        l.within(rel.current().unwrap().len()),
        r.within(rel.current().unwrap().len()),
    ensures
        b == cells_equal(
            l.cell(rel.current().unwrap()),
            r.cell(rel.current().unwrap()),
            isnull,
        ),
{
    let lv = match l {
        Value::Val { val } => val,
        Value::Ref { col } => rel.value(*col),
    };
    let rv = match r {
        Value::Val { val } => val,
        Value::Ref { col } => rel.value(*col),
    };
    values_equal(lv, rv, isnull)
}

/// Whether a predicate holds of the current row of a relation.
pub fn eval(rel: &AnyRelation, e: &Expr) -> (b: bool)
    requires
        rel.inv(),
        rel.current() is Some,
        e.within(rel.current().unwrap().len()),
    ensures
        b == e.holds(rel.current().unwrap()),
    decreases e,
{
    let null = Value::Val { val: ColumnValue::Null };
    match e {
        Expr::Equal { l, r } => eq(rel, l, r, false),
        Expr::NotEqual { l, r } => !eq(rel, l, r, false),
        Expr::IsNull { l } => eq(rel, l, &null, true),
        Expr::NotNull { l } => !eq(rel, l, &null, true),
        Expr::And { l, r } => eval(rel, l) && eval(rel, r),
        Expr::Or { l, r } => eval(rel, l) || eval(rel, r),
        Expr::Not { l } => !eval(rel, l),
    }
}

} // verus!
