use vstd::prelude::*;
use vstd::utf8::encode_utf8;
use crate::adlerbuf::adler32_of;
use crate::buf::Source;
use crate::err::SchemaReadError;
use crate::layout::{
    bit_at, cell_bytes, cells_bytes, field_cell, field_reads, group_bytes, group_payload,
    group_width, lemma_pow2_positive, no_fields, null_bits, parse_fields, parse_group,
    parse_groups, parse_row, pow2, row_bytes, texts_decode, Fields, GroupParse, RowParse, GROUP,
};
use crate::scalar::{lemma_u32_le_round_trip, lemma_u64_le_round_trip, u32_le};
use crate::layout::{
    column_bytes, columns_bytes, nullable_byte, parse_columns, parse_schema, schema_bytes,
    type_byte, SchemaParse, VERSION_MARK,
};
use crate::scalar::{lemma_varint_round_trip, varint_bytes};
use crate::types::{Cell, ColumnSpec, ColumnType};
use crate::varstring::{decodes_before, decodes_to, varstring_bytes};

verus! {

/// Whether a cell may stand in a column of the given type: a null in any
/// column, any other value in a column of its own type.
pub open spec fn cell_typed(c: Cell, t: ColumnType) -> bool {
    match c {
        Cell::Null => true,
        Cell::U32(_) => t == ColumnType::U32le,
        Cell::U64(_) => t == ColumnType::U64le,
        Cell::Text(_) => t == ColumnType::String,
    }
}

/// Whether each cell may stand in the column of its index.
pub open spec fn cells_typed(cells: Seq<Cell>, types: Seq<ColumnType>) -> bool {
    &&& cells.len() == types.len()
    &&& forall|i: int| 0 <= i < cells.len() ==> cell_typed(#[trigger] cells[i], types[i])
}

/// Whether `data`, whatever follows it, reads back as the row `cells`
/// under columns of the given types, and leaves what follows it.
pub open spec fn row_decodes(types: Seq<ColumnType>, data: Seq<u8>, cells: Seq<Cell>) -> bool {
    forall|tail: Seq<u8>| #[trigger]
        parse_row(types, Source { pending: data + tail, eof: false }) == (RowParse {
            outcome: Ok(cells),
            left: Source { pending: tail, eof: false },
        })
}

proof fn lemma_pow2_add(a: nat, b: nat)
    ensures
        pow2(a + b) == pow2(a) * pow2(b),
    decreases b,
{
    if b == 0 {
        assert(pow2(a) * 1 == pow2(a)) by (nonlinear_arith);
    } else {
        lemma_pow2_add(a, (b - 1) as nat);
        assert(pow2(a + b) == 2 * pow2((a + b - 1) as nat));
        assert(2 * (pow2(a) * pow2((b - 1) as nat)) == pow2(a) * (2 * pow2((b - 1) as nat)))
            by (nonlinear_arith);
    }
}

/// In the null bitmap of a group, bit `j` is set exactly where cell `j` is
/// null, and no bit beyond the cells is set.
pub proof fn lemma_null_bits(cells: Seq<Cell>, j: nat)
    requires
        j < cells.len(),
    ensures
        bit_at(null_bits(cells), j) <==> cells[j as int] is Null,
        null_bits(cells) < pow2(cells.len()),
    decreases cells.len(),
{
    let n = cells.len();
    let front = cells.drop_last();
    let low = null_bits(front);
    let d = pow2((n - 1) as nat);
    lemma_pow2_positive((n - 1) as nat);
    if n > 1 {
        lemma_null_bits(front, 0);
    }
    assert(low < d) by {
        if n == 1 {
            assert(low == 0);
        }
    }
    if j == n - 1 {
        if cells.last() is Null {
            vstd::arithmetic::div_mod::lemma_div_plus_one(low as int, d as int);
            vstd::arithmetic::div_mod::lemma_basic_div(low as int, d as int);
        } else {
            vstd::arithmetic::div_mod::lemma_basic_div(low as int, d as int);
        }
    } else {
        lemma_null_bits(front, j);
        if cells.last() is Null {
            let m = pow2((n - 2 - j) as nat);
            let dj = pow2(j);
            lemma_pow2_positive(j);
            lemma_pow2_add(j, (n - 1 - j) as nat);
            assert(d == dj * (2 * m));
            vstd::arithmetic::div_mod::lemma_hoist_over_denominator(low as int, (2 * m) as int, dj);
            assert((2 * m) * dj == dj * (2 * m)) by (nonlinear_arith);
        }
    }
}

/// The bytes of two runs of cells are the bytes of the first run followed
/// by the bytes of the second.
pub proof fn lemma_cells_bytes_concat(a: Seq<Cell>, b: Seq<Cell>)
    ensures
        cells_bytes(a + b) == cells_bytes(a) + cells_bytes(b),
    decreases b.len(),
{
    if b.len() == 0 {
        assert(a + b =~= a);
        assert(cells_bytes(a) + cells_bytes(b) =~= cells_bytes(a));
    } else {
        lemma_cells_bytes_concat(a, b.drop_last());
        assert((a + b).drop_last() =~= a + b.drop_last());
        assert(cells_bytes(a) + cells_bytes(b.drop_last()) + cell_bytes(b.last()) =~= cells_bytes(
            a,
        ) + (cells_bytes(b.drop_last()) + cell_bytes(b.last())));
    }
}

/// The bytes of one cell are the bytes of the run that holds just it.
proof fn lemma_cells_bytes_one(c: Cell)
    ensures
        cells_bytes(seq![c]) == cell_bytes(c),
{
    assert(seq![c].drop_last() =~= Seq::<Cell>::empty());
    assert(cells_bytes(Seq::<Cell>::empty()) + cell_bytes(c) =~= cell_bytes(c));
}

/// The encoded cell at the head of a source that has not reached its end
/// reads back as the cell, takes exactly its bytes, and does not reach the
/// end.
proof fn lemma_field_round_trip(c: Cell, t: ColumnType, tail: Seq<u8>)
    requires
        !(c is Null),
        cell_typed(c, t),
        c matches Cell::Text(s) ==> decodes_to(varstring_bytes(encode_utf8(s)), s),
    ensures
        field_reads(t, Source { pending: cell_bytes(c) + tail, eof: false }) == cell_bytes(c).len(),
        field_cell(t, Source { pending: cell_bytes(c) + tail, eof: false }) == Ok::<
            Cell,
            SchemaReadError,
        >(c),
{
    match c {
        Cell::Null => {},
        Cell::U32(v) => {
            lemma_u32_le_round_trip(v, tail);
        },
        Cell::U64(v) => {
            lemma_u64_le_round_trip(v, tail);
        },
        Cell::Text(s) => {
            assert(decodes_before(varstring_bytes(encode_utf8(s)), tail, s));
        },
    }
}

/// The fields of a group, read from the group's own bytes with the group's
/// own null bitmap, are the group's cells.
#[verifier::rlimit(40)]
proof fn lemma_fields_round_trip(g: Seq<Cell>, types: Seq<ColumnType>, tail: Seq<u8>, j: nat)
    requires
        cells_typed(g, types),
        texts_decode(g),
        j <= g.len(),
    ensures
        parse_fields(
            types,
            null_bits(g),
            Source { pending: cells_bytes(g) + tail, eof: false },
            j,
            Fields {
                cells: g.take(j as int),
                fault: None,
                reads: cells_bytes(g.take(j as int)).len(),
                cut: false,
            },
        ) == (Fields { cells: g, fault: None, reads: cells_bytes(g).len(), cut: false }),
    decreases g.len() - j,
{
    let start = Source { pending: cells_bytes(g) + tail, eof: false };
    let done = cells_bytes(g.take(j as int));
    let acc = Fields { cells: g.take(j as int), fault: None, reads: done.len(), cut: false };
    if j >= g.len() {
        assert(g.take(j as int) =~= g);
    } else {
        let c = g[j as int];
        let t = types[j as int];
        lemma_null_bits(g, j);
        assert(g.take(j + 1 as int) =~= g.take(j as int) + seq![c]);
        lemma_cells_bytes_concat(g.take(j as int), seq![c]);
        lemma_cells_bytes_one(c);
        lemma_fields_round_trip(g, types, tail, j + 1);
        if c is Null {
            assert(acc.cells.push(Cell::Null) =~= g.take(j + 1 as int));
            assert(cells_bytes(g.take(j + 1 as int)) =~= done);
        } else {
            let after = g.skip(j + 1 as int);
            assert(g =~= g.take(j + 1 as int) + after);
            lemma_cells_bytes_concat(g.take(j + 1 as int), after);
            let follow = cells_bytes(after) + tail;
            assert(start.pending =~= done + (cell_bytes(c) + follow));
            let here = start.advance(done.len());
            assert(here.pending =~= cell_bytes(c) + follow);
            assert(here == Source { pending: cell_bytes(c) + follow, eof: false });
            assert(cell_typed(c, t));
            lemma_field_round_trip(c, t, follow);
            assert(acc.cells.push(c) =~= g.take(j + 1 as int));
            assert(cells_bytes(g.take(j + 1 as int)).len() == done.len() + cell_bytes(c).len());
        }
    }
}

/// A group whose fields are framed as they were written reads as its cells
/// where the checksum that follows them is theirs, and as a checksum error
/// where it is another one. Either way the read takes the fields and the
/// checksum, and no more.
#[verifier::rlimit(60)]
pub proof fn lemma_group_framed(
    g: Seq<Cell>,
    types: Seq<ColumnType>,
    sum: u32,
    tail: Seq<u8>,
    first: bool,
)
    requires
        cells_typed(g, types),
        texts_decode(g),
        0 < g.len() <= GROUP,
    ensures
        parse_group(
            types,
            Source { pending: group_payload(g) + u32_le(sum) + tail, eof: false },
            first,
        ) == (GroupParse {
            outcome: if sum == adler32_of(group_payload(g)) {
                Ok(g)
            } else {
                Err(SchemaReadError::ChecksumError)
            },
            reads: group_payload(g).len() + 4,
        }),
{
    let payload = group_payload(g);
    let src = Source { pending: payload + u32_le(sum) + tail, eof: false };
    lemma_null_bits(g, 0);
    assert(pow2(g.len()) <= 256) by {
        reveal_with_fuel(pow2, 9);
    }
    let follow = u32_le(sum) + tail;
    assert(src.pending =~= seq![null_bits(g) as u8] + (cells_bytes(g) + follow));
    assert(src.head() as nat == null_bits(g));
    let after_bits = src.advance(1);
    assert(after_bits.pending =~= cells_bytes(g) + follow);
    assert(after_bits == Source { pending: cells_bytes(g) + follow, eof: false });
    lemma_fields_round_trip(g, types, follow, 0);
    assert(g.take(0) =~= Seq::<Cell>::empty());
    let f = parse_fields(types, src.head() as nat, after_bits, 0, no_fields());
    assert(f == Fields { cells: g, fault: None, reads: cells_bytes(g).len(), cut: false });
    let rest_src = after_bits.advance(f.reads);
    assert(rest_src.pending =~= follow);
    lemma_u32_le_round_trip(sum, tail);
    assert(src.pending.take((1 + f.reads) as int) =~= payload);
}

/// A group reads back from its own bytes as its cells, and the read takes
/// exactly those bytes.
pub proof fn lemma_group_round_trip(g: Seq<Cell>, types: Seq<ColumnType>, tail: Seq<u8>, first: bool)
    requires
        cells_typed(g, types),
        texts_decode(g),
        0 < g.len() <= GROUP,
    ensures
        parse_group(types, Source { pending: group_bytes(g) + tail, eof: false }, first) == (
        GroupParse { outcome: Ok(g), reads: group_bytes(g).len() }),
{
    lemma_group_framed(g, types, adler32_of(group_payload(g)), tail, first);
}

/// The groups of a row, from the column `done` on, read back from their own
/// bytes.
#[verifier::rlimit(40)]
proof fn lemma_groups_round_trip(cells: Seq<Cell>, types: Seq<ColumnType>, tail: Seq<u8>, done: nat)
    requires
        cells_typed(cells, types),
        texts_decode(cells),
        done <= cells.len(),
    ensures
        parse_groups(
            types,
            Source { pending: row_bytes(cells.skip(done as int)) + tail, eof: false },
            done,
            cells.take(done as int),
        ) == (RowParse { outcome: Ok(cells), left: Source { pending: tail, eof: false } }),
    decreases cells.len() - done,
{
    let left = cells.skip(done as int);
    let src = Source { pending: row_bytes(left) + tail, eof: false };
    if done >= cells.len() {
        assert(cells.take(done as int) =~= cells);
        assert(row_bytes(left) + tail =~= tail);
    } else {
        let w = group_width((types.len() - done) as nat);
        let g = left.take(w as int);
        let tg = types.subrange(done as int, (done + w) as int);
        let after = left.skip(w as int);
        let follow = row_bytes(after) + tail;
        assert(src.pending =~= group_bytes(g) + follow);
        assert(cells_typed(g, tg)) by {
            assert forall|i: int| 0 <= i < g.len() implies cell_typed(#[trigger] g[i], tg[i]) by {
                assert(g[i] == cells[done + i]);
            }
        }
        assert(texts_decode(g)) by {
            assert forall|i: int| 0 <= i < g.len() implies (#[trigger] g[i] matches Cell::Text(s)
                ==> decodes_to(varstring_bytes(encode_utf8(s)), s)) by {
                assert(g[i] == cells[done + i]);
            }
        }
        lemma_group_round_trip(g, tg, follow, done == 0);
        let next = src.advance(group_bytes(g).len());
        assert(next.pending =~= follow);
        assert(after =~= cells.skip((done + w) as int));
        assert(cells.take(done as int) + g =~= cells.take((done + w) as int));
        lemma_groups_round_trip(cells, types, tail, done + w);
    }
}

/// A row that was written reads back as itself: under columns of types
/// that its cells may stand in, and with texts that read back as
/// themselves, the bytes of the row decode to the row, whatever follows
/// them, and leave exactly what follows them.
pub proof fn lemma_row_round_trip(cells: Seq<Cell>, types: Seq<ColumnType>)
    requires
        cells_typed(cells, types),
        texts_decode(cells),
    ensures
        row_decodes(types, row_bytes(cells), cells),
{
    assert forall|tail: Seq<u8>| #[trigger]
        parse_row(types, Source { pending: row_bytes(cells) + tail, eof: false }) == (RowParse {
            outcome: Ok(cells),
            left: Source { pending: tail, eof: false },
        }) by {
        lemma_groups_round_trip(cells, types, tail, 0);
        assert(cells.skip(0) =~= cells);
        assert(cells.take(0) =~= Seq::<Cell>::empty());
    }
}

/// Decoding the fields of a group yields a null exactly where the bit of the
/// field is set, as long as every field could be decoded.
proof fn lemma_fields_nulls(types: Seq<ColumnType>, bits: nat, start: Source, j: nat, acc: Fields)
    requires
        j <= types.len(),
        acc.cells.len() == j,
        acc.fault is None ==> forall|i: int|
            0 <= i < j ==> (#[trigger] acc.cells[i] is Null <==> bit_at(bits, i as nat)),
    ensures
        ({
            let f = parse_fields(types, bits, start, j, acc);
            &&& acc.fault is Some ==> f.fault is Some
            &&& !f.cut ==> f.cells.len() == types.len()
            &&& !f.cut && f.fault is None ==> forall|i: int|
                0 <= i < types.len() ==> (#[trigger] f.cells[i] is Null <==> bit_at(bits, i as nat))
        }),
    decreases types.len() - j,
{
    if j >= types.len() || acc.cut {
    } else if bit_at(bits, j) {
        lemma_fields_nulls(
            types,
            bits,
            start,
            j + 1,
            Fields { cells: acc.cells.push(Cell::Null), ..acc },
        );
    } else {
        let here = start.advance(acc.reads);
        let reads = acc.reads + field_reads(types[j as int], here);
        if start.advance(reads).eof {
        } else {
            match field_cell(types[j as int], here) {
                Ok(c) => {
                    lemma_fields_nulls(
                        types,
                        bits,
                        start,
                        j + 1,
                        Fields { cells: acc.cells.push(c), reads, ..acc },
                    );
                },
                Err(e) => {
                    lemma_fields_nulls(
                        types,
                        bits,
                        start,
                        j + 1,
                        Fields {
                            cells: acc.cells.push(Cell::Null),
                            fault: if acc.fault is Some {
                                acc.fault
                            } else {
                                Some(e)
                            },
                            reads,
                            cut: false,
                        },
                    );
                },
            }
        }
    }
}

/// In a group that was read, cell `i` is null exactly where bit `i` of the
/// group's null byte is set.
pub proof fn lemma_null_bitmap_on_read(types: Seq<ColumnType>, src: Source, first: bool, i: nat)
    requires
        parse_group(types, src, first).outcome is Ok,
        i < types.len(),
    ensures
        parse_group(types, src, first).outcome->Ok_0.len() == types.len(),
        parse_group(types, src, first).outcome->Ok_0[i as int] is Null <==> bit_at(
            src.head() as nat,
            i,
        ),
{
    lemma_fields_nulls(types, src.head() as nat, src.advance(1), 0, no_fields());
}

/// Whether the name of every column, once encoded, reads back as itself.
pub open spec fn names_decode(cols: Seq<ColumnSpec>) -> bool {
    forall|i: int|
        0 <= i < cols.len() ==> decodes_to(
            varstring_bytes(encode_utf8((#[trigger] cols[i]).name)),
            cols[i].name,
        )
}

/// Whether `data`, whatever follows it, reads back as the schema header of
/// the columns `cols`, and leaves what follows it.
pub open spec fn schema_decodes(data: Seq<u8>, cols: Seq<ColumnSpec>) -> bool {
    forall|tail: Seq<u8>| #[trigger]
        parse_schema(Source { pending: data + tail, eof: false }) == (SchemaParse {
            columns: Some(cols),
            left: Source { pending: tail, eof: false },
        })
}

/// The bytes of two runs of columns are the bytes of the first run followed
/// by the bytes of the second.
proof fn lemma_columns_bytes_concat(a: Seq<ColumnSpec>, b: Seq<ColumnSpec>)
    ensures
        columns_bytes(a + b) == columns_bytes(a) + columns_bytes(b),
    decreases b.len(),
{
    if b.len() == 0 {
        assert(a + b =~= a);
        assert(columns_bytes(a) + columns_bytes(b) =~= columns_bytes(a));
    } else {
        lemma_columns_bytes_concat(a, b.drop_last());
        assert((a + b).drop_last() =~= a + b.drop_last());
        assert(columns_bytes(a) + columns_bytes(b.drop_last()) + column_bytes(b.last())
            =~= columns_bytes(a) + (columns_bytes(b.drop_last()) + column_bytes(b.last())));
    }
}

/// The columns of a header, from the column `k` on, read back from their
/// own bytes.
#[verifier::rlimit(40)]
proof fn lemma_columns_round_trip(cols: Seq<ColumnSpec>, tail: Seq<u8>, k: nat)
    requires
        names_decode(cols),
        k <= cols.len(),
    ensures
        parse_columns(
            Source { pending: columns_bytes(cols.skip(k as int)) + tail, eof: false },
            (cols.len() - k) as nat,
            cols.take(k as int),
        ) == (SchemaParse { columns: Some(cols), left: Source { pending: tail, eof: false } }),
    decreases cols.len() - k,
{
    let left = cols.skip(k as int);
    let src = Source { pending: columns_bytes(left) + tail, eof: false };
    if k >= cols.len() {
        assert(cols.take(k as int) =~= cols);
        assert(columns_bytes(left) + tail =~= tail);
    } else {
        let c = cols[k as int];
        let after = cols.skip((k + 1) as int);
        assert(left =~= seq![c] + after);
        lemma_columns_bytes_concat(seq![c], after);
        assert(seq![c].drop_last() =~= Seq::<ColumnSpec>::empty());
        assert(seq![c].last() == c);
        assert(columns_bytes(Seq::<ColumnSpec>::empty()) + column_bytes(c) =~= column_bytes(c));
        assert(columns_bytes(seq![c]) =~= column_bytes(c));
        let name = varstring_bytes(encode_utf8(c.name));
        let marks = seq![type_byte(c.ctype), nullable_byte(c.nullable)];
        let follow = columns_bytes(after) + tail;
        assert(src.pending =~= name + (marks + follow));
        assert(decodes_before(name, marks + follow, c.name));
        let after_name = src.advance(name.len());
        assert(after_name.pending =~= marks + follow);
        let behind = after_name.advance(2);
        assert(behind.pending =~= follow);
        assert(after_name.advance(1).head() == nullable_byte(c.nullable));
        assert(cols.take(k as int).push(c) =~= cols.take((k + 1) as int));
        lemma_columns_round_trip(cols, tail, k + 1);
    }
}

/// A schema header that was written reads back as the schema: the bytes of
/// the header decode to the columns, whatever follows them, and leave
/// exactly what follows them.
pub proof fn lemma_schema_round_trip(cols: Seq<ColumnSpec>)
    requires
        names_decode(cols),
        cols.len() <= usize::MAX,
    ensures
        schema_decodes(schema_bytes(cols), cols),
{
    assert forall|tail: Seq<u8>| #[trigger]
        parse_schema(Source { pending: schema_bytes(cols) + tail, eof: false }) == (SchemaParse {
            columns: Some(cols),
            left: Source { pending: tail, eof: false },
        }) by {
        let src = Source { pending: schema_bytes(cols) + tail, eof: false };
        let count = varint_bytes(cols.len());
        let follow = columns_bytes(cols) + tail;
        assert(src.pending =~= seq![VERSION_MARK] + (count + follow));
        let counted = src.advance(1);
        assert(counted.pending =~= count + follow);
        lemma_varint_round_trip(cols.len(), follow);
        crate::scalar::lemma_varint_bytes_len(cols.len());
        let start = counted.advance(count.len());
        assert(start.pending =~= follow);
        lemma_columns_round_trip(cols, tail, 0);
        assert(cols.skip(0) =~= cols);
        assert(cols.take(0) =~= Seq::<ColumnSpec>::empty());
    }
}

} // verus!
