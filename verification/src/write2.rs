use vstd::prelude::*;
use vstd::utf8::encode_utf8;
use crate::adlerbuf::{lemma_put_put, lemma_took_took, AppendBufAdler32, ReadBufAdler32};
use crate::buf::{
    lemma_accept_accept, lemma_accept_empty, lemma_advance_advance, padded, rest, AppendBuf,
    ReadBuf,
};
use crate::err::SchemaReadError;
use crate::layout::{
    cells_bytes, column_bytes, columns_bytes, field_cell, field_reads, group_bytes, group_payload,
    group_width, no_fields, null_bits, nullable_byte, parse_columns, lemma_bits_shift,
    parse_fields, parse_group, parse_groups, parse_row, parse_schema, pow2, row_bytes, row_fits,
    schema_bytes, texts_decode, type_byte, Fields, GROUP, NULLABLE_MARK, TYPE_STRING, TYPE_U32,
    TYPE_U64, VERSION_MARK,
};
use crate::round_trip::{
    cells_typed, lemma_row_round_trip, lemma_schema_round_trip, names_decode, row_decodes,
    schema_decodes,
};
use crate::scalar::{
    read_db, read_dd_le, read_varint, u32_le, varint_bytes, write_db, write_dd_le, write_varint,
};
use crate::schema2::{types_of, Schema, Schema2};
use crate::types::{cell_fits, row_view, Cell, ColumnSpec, ColumnType, ColumnValue};
use crate::varstring::{decodes_to, read_varstring, varstring_bytes, write_varstring};

verus! {

/// Reads a schema header. Returns the schema, or nothing where the first
/// byte is not the version mark, a column's name does not decode, or a
/// column's type byte is unknown.
pub fn read_schema_v2<B: ReadBuf>(buf: &mut B) -> (r: Option<Schema2>)
    ensures
        final(buf).source() == parse_schema(old(buf).source()).left,
        match r {
            Some(s) => parse_schema(old(buf).source()).columns == Some(s@),
            None => parse_schema(old(buf).source()).columns is None,
        },
{
    let version = read_db(buf);
    if version != VERSION_MARK {
        return None;
    }
    let mut schema = Schema2::new();
    let num_columns = read_varint(buf);
    let ghost src1 = buf.source();
    let mut i: usize = 0;
    while i < num_columns
        invariant
            i <= num_columns,
            parse_columns(buf.source(), (num_columns - i) as nat, schema@) == parse_columns(
                src1,
                num_columns as nat,
                Seq::empty(),
            ),
            parse_schema(old(buf).source()) == parse_columns(
                src1,
                num_columns as nat,
                Seq::empty(),
            ),
        decreases num_columns - i,
    {
        let ghost here = buf.source();
        let vs = read_varstring(buf);
        let s = match vs {
            Ok(x) => x,
            Err(_) => {
                return None;
            },
        };
        let ct = read_db(buf);
        let n = read_db(buf);
        proof {
            lemma_advance_advance(here.advance(crate::varstring::varstring_reads(here)), 1, 1);
        }
        let ctype = if ct == TYPE_U32 {
            ColumnType::U32le
        } else if ct == TYPE_U64 {
            ColumnType::U64le
        } else if ct == TYPE_STRING {
            ColumnType::String
        } else {
            return None;
        };
        let nullable = n == NULLABLE_MARK;
        schema.add(s.as_str(), ctype, nullable);
        i += 1;
    }
    Some(schema)
}

/// Where the names of the first `k` columns read back as themselves, and
/// the name of the next column does, the names of the first `k + 1` columns
/// do.
proof fn lemma_names_decode_next(cols: Seq<ColumnSpec>, k: int)
    requires
        0 <= k < cols.len(),
        names_decode(cols.take(k)),
        decodes_to(varstring_bytes(encode_utf8(cols[k].name)), cols[k].name),
    ensures
        names_decode(cols.take(k + 1)),
{
    assert forall|i: int| 0 <= i < k + 1 implies decodes_to(
        varstring_bytes(encode_utf8((#[trigger] cols.take(k + 1)[i]).name)),
        cols.take(k + 1)[i].name,
    ) by {
        if i < k {
            assert(cols.take(k + 1)[i] == cols.take(k)[i]);
        }
    }
}

/// Writes a schema header: the version mark, the number of columns, and for
/// each column its name, its type byte and its nullability byte. What is
/// written reads back as the schema.
#[verifier::rlimit(50)]
pub fn write_schema_v2<B: AppendBuf>(buf: &mut B, schema: &Schema2)
    ensures
        final(buf).sink() == old(buf).sink().accept(schema_bytes(schema@)),
        schema_decodes(schema_bytes(schema@), schema@),
{
    let ghost k0 = buf.sink();
    let n = schema.len();
    write_db(buf, VERSION_MARK);
    write_varint(buf, n);
    proof {
        lemma_accept_accept(k0, seq![VERSION_MARK], varint_bytes(n as nat));
    }
    let ghost head = seq![VERSION_MARK] + varint_bytes(n as nat);
    let mut colidx: usize = 0;
    proof {
        assert(schema@.take(0) =~= Seq::<ColumnSpec>::empty());
        assert(head + columns_bytes(schema@.take(0)) =~= head);
    }
    while colidx < n
        invariant
            colidx <= n,
            n == schema@.len(),
            head == seq![VERSION_MARK] + varint_bytes(n as nat),
            buf.sink() == k0.accept(head + columns_bytes(schema@.take(colidx as int))),
            names_decode(schema@.take(colidx as int)),
        decreases n - colidx,
    {
        let ghost done = head + columns_bytes(schema@.take(colidx as int));
        let ghost c = schema@[colidx as int];
        let ghost name_bytes = varstring_bytes(encode_utf8(c.name));
        write_varstring(buf, schema.name(colidx));
        let ct = match schema.ctype(colidx) {
            ColumnType::U32le => TYPE_U32,
            ColumnType::U64le => TYPE_U64,
            ColumnType::String => TYPE_STRING,
        };
        write_db(buf, ct);
        if schema.nullable(colidx) {
            write_db(buf, NULLABLE_MARK);
        } else {
            write_db(buf, 0u8);
        }
        proof {
            let t = seq![type_byte(c.ctype)];
            let nb = seq![nullable_byte(c.nullable)];
            lemma_accept_accept(k0, done, name_bytes);
            lemma_accept_accept(k0, done + name_bytes, t);
            lemma_accept_accept(k0, done + name_bytes + t, nb);
            assert(name_bytes + t + nb =~= column_bytes(c));
            assert(schema@.take(colidx + 1).drop_last() =~= schema@.take(colidx as int));
            assert(done + name_bytes + t + nb =~= head + columns_bytes(schema@.take(colidx + 1)));
        }
        proof {
            lemma_names_decode_next(schema@, colidx as int);
        }
        colidx += 1;
    }
    proof {
        assert(schema@.take(n as int) =~= schema@);
        lemma_schema_round_trip(schema@);
    }
}

/// Whether a cell fits a column of the given type and nullability.
pub fn value_fits(value: &ColumnValue, ctype: ColumnType, nullable: bool) -> (r: bool)
    ensures
        r == cell_fits(value@, ctype, nullable),
{
    match value {
        ColumnValue::Null => nullable,
        ColumnValue::U32 { .. } => ctype == ColumnType::U32le,
        ColumnValue::U64 { .. } => ctype == ColumnType::U64le,
        ColumnValue::String { .. } => ctype == ColumnType::String,
    }
}

/// Whether a row may be written under a schema.
pub fn row_is_valid(values: &[ColumnValue], schema: &Schema2) -> (r: bool)
    ensures
        r == row_fits(row_view(values@), schema@),
{
    if values.len() != schema.len() {
        return false;
    }
    let mut i: usize = 0;
    while i < values.len()
        invariant
            i <= values.len(),
            values@.len() == schema@.len(),
            forall|k: int|
                0 <= k < i ==> cell_fits(
                    #[trigger] row_view(values@)[k],
                    schema@[k].ctype,
                    schema@[k].nullable,
                ),
        decreases values.len() - i,
    {
        if !value_fits(&values[i], schema.ctype(i), schema.nullable(i)) {
            assert(!cell_fits(row_view(values@)[i as int], schema@[i as int].ctype, schema@[i as int].nullable));
            return false;
        }
        i += 1;
    }
    true
}

impl<'a, T: AppendBuf> AppendBufAdler32<'a, T> {
    /// Writes the checksummed part of a group: the null byte of the cells
    /// `start .. start + width` of a row, and the cells that are not null.
    #[verifier::rlimit(40)]
    pub fn write_group_payload(&mut self, values: &[ColumnValue], start: usize, width: usize)
        requires
            width <= GROUP,
            start + width <= values@.len(),
        ensures
            final(self).put(
                *old(self),
                group_payload(row_view(values@).subrange(start as int, start + width)),
            ),
            texts_decode(row_view(values@).subrange(start as int, start + width)),
            *final(final(self).target) == *final(old(self).target),
    {
        let ghost cells = row_view(values@).subrange(start as int, start + width);
        let ghost s0 = *self;
        let n = values.len();
        let mut nullbyte: u8 = 0;
        let mut weight: u8 = 1;
        let mut j: usize = 0;
        proof {
            assert(cells.take(0) =~= Seq::<Cell>::empty());
        }
        while j < width
            invariant
                j <= width,
                width <= GROUP,
                start + width <= values@.len(),
                n == values@.len(),
                cells == row_view(values@).subrange(start as int, start + width),
                nullbyte == null_bits(cells.take(j as int)),
                nullbyte < pow2(j as nat),
                j < GROUP ==> weight == pow2(j as nat),
                pow2(j as nat) <= 256,
            decreases width - j,
        {
            proof {
                assert(cells.take(j + 1).drop_last() =~= cells.take(j as int));
                assert(cells.take(j + 1).last() == values@[start + j]@);
                reveal_with_fuel(pow2, 9);
            }
            if values[start + j].is_null() {
                nullbyte = nullbyte + weight;
            }
            if j + 1 < GROUP {
                weight = weight * 2;
            }
            j += 1;
        }
        proof {
            assert(cells.take(width as int) =~= cells);
        }
        self.writeb(nullbyte);
        let ghost s1 = *self;
        let mut j: usize = 0;
        proof {
            lemma_accept_empty(self.target.sink());
        }
        while j < width
            invariant
                j <= width,
                start + width <= values@.len(),
                n == values@.len(),
                cells == row_view(values@).subrange(start as int, start + width),
                self.put(s1, cells_bytes(cells.take(j as int))),
                texts_decode(cells.take(j as int)),
                *final(self.target) == *final(old(self).target),
            decreases width - j,
        {
            let ghost before = *self;
            let ghost done = cells_bytes(cells.take(j as int));
            proof {
                assert(cells.take(j + 1).drop_last() =~= cells.take(j as int));
                assert(cells.take(j + 1).last() == values@[start + j]@);
            }
            match &values[start + j] {
                ColumnValue::Null => {
                    proof {
                        assert(done + Seq::<u8>::empty() =~= done);
                    }
                },
                ColumnValue::U32 { v } => {
                    self.write_dd_le(*v);
                    proof {
                        lemma_put_put(s1, before, *self, done, u32_le(*v));
                    }
                },
                ColumnValue::U64 { v } => {
                    self.write_dq_le(*v);
                    proof {
                        lemma_put_put(s1, before, *self, done, crate::scalar::u64_le(*v));
                    }
                },
                ColumnValue::String { v } => {
                    self.write_varstring(v.as_str());
                    proof {
                        lemma_put_put(s1, before, *self, done, varstring_bytes(encode_utf8(v@)));
                    }
                },
            }
            proof {
                assert forall|i: int| 0 <= i < j + 1 implies (#[trigger] cells.take(j + 1)[i] matches Cell::Text(s)
                    ==> decodes_to(varstring_bytes(encode_utf8(s)), s)) by {
                    if i < j {
                        assert(cells.take(j + 1)[i] == cells.take(j as int)[i]);
                    }
                }
            }
            j += 1;
        }
        proof {
            assert(cells.take(width as int) =~= cells);
            lemma_put_put(s0, s1, *self, seq![nullbyte], cells_bytes(cells));
        }
    }
}

/// Writes one group of a row: the null byte, the cells that are not null,
/// and the Adler-32 checksum of both.
pub fn write_group<B: AppendBuf>(buf: &mut B, values: &[ColumnValue], start: usize, width: usize)
    requires
        width <= GROUP,
        start + width <= values@.len(),
    ensures
        final(buf).sink() == old(buf).sink().accept(
            group_bytes(row_view(values@).subrange(start as int, start + width)),
        ),
        texts_decode(row_view(values@).subrange(start as int, start + width)),
{
    let ghost k0 = buf.sink();
    let ghost cells = row_view(values@).subrange(start as int, start + width);
    let mut adlerbuf = AppendBufAdler32::new(buf);
    adlerbuf.write_group_payload(values, start, width);
    let hash = adlerbuf.hash();
    write_dd_le(buf, hash);
    proof {
        lemma_accept_accept(k0, group_payload(cells), u32_le(hash));
    }
}

/// Writes the cells of a row in groups of up to eight columns.
pub fn schema_write_row<B: AppendBuf>(buf: &mut B, values: &[ColumnValue])
    ensures
        final(buf).sink() == old(buf).sink().accept(row_bytes(row_view(values@))),
        texts_decode(row_view(values@)),
{
    let ghost k0 = buf.sink();
    let ghost cells = row_view(values@);
    let n = values.len();
    let mut start: usize = 0;
    let ghost mut done: Seq<u8> = Seq::empty();
    proof {
        lemma_accept_empty(k0);
        assert(cells.skip(0) =~= cells);
        assert(done + row_bytes(cells.skip(0)) =~= row_bytes(cells));
    }
    while start < n
        invariant
            start <= n,
            n == values@.len(),
            cells == row_view(values@),
            buf.sink() == k0.accept(done),
            done + row_bytes(cells.skip(start as int)) == row_bytes(cells),
            texts_decode(cells.take(start as int)),
        decreases n - start,
    {
        let width: usize = if n - start < GROUP {
            n - start
        } else {
            GROUP
        };
        let ghost g = cells.subrange(start as int, start + width);
        write_group(buf, values, start, width);
        proof {
            let tail = cells.skip(start as int);
            assert(width == group_width(tail.len()));
            assert(tail.take(width as int) =~= g);
            assert(tail.skip(width as int) =~= cells.skip(start + width));
            lemma_accept_accept(k0, done, group_bytes(g));
            assert((done + group_bytes(g)) + row_bytes(cells.skip(start + width)) =~= done + row_bytes(tail));
            assert forall|i: int| 0 <= i < start + width implies (#[trigger] cells.take(start + width)[i] matches Cell::Text(s)
                ==> decodes_to(varstring_bytes(encode_utf8(s)), s)) by {
                if i < start {
                    assert(cells.take(start + width)[i] == cells.take(start as int)[i]);
                } else {
                    assert(cells.take(start + width)[i] == g[i - start]);
                }
            }
            done = done + group_bytes(g);
        }
        start += width;
    }
    proof {
        assert(cells.skip(n as int) =~= Seq::<Cell>::empty());
        assert(done + Seq::<u8>::empty() =~= done);
        assert(cells.take(n as int) =~= cells);
    }
}

/// Writes a row under a schema. Nothing is written, and `false` returned,
/// unless the row has one cell for each column, no null in a column that is
/// not nullable, and no value in a column of another type.
pub fn schema_write<B: AppendBuf>(buf: &mut B, values: &[ColumnValue], schema: &Schema2) -> (r: bool)
    ensures
        r == row_fits(row_view(values@), schema@),
        r ==> final(buf).sink() == old(buf).sink().accept(row_bytes(row_view(values@))),
        r ==> row_decodes(types_of(schema@), row_bytes(row_view(values@)), row_view(values@)),
        !r ==> final(buf).sink() == old(buf).sink(),
{
    if !row_is_valid(values, schema) {
        return false;
    }
    schema_write_row(buf, values);
    proof {
        let cells = row_view(values@);
        let types = types_of(schema@);
        assert(cells_typed(cells, types)) by {
            assert forall|i: int| 0 <= i < cells.len() implies crate::round_trip::cell_typed(
                #[trigger] cells[i],
                types[i],
            ) by {
                assert(cell_fits(cells[i], schema@[i].ctype, schema@[i].nullable));
            }
        }
        lemma_row_round_trip(cells, types);
    }
    true
}

/// The cells of a row with one more value are the cells of the row with
/// one more cell.
pub proof fn lemma_row_view_push(values: Seq<ColumnValue>, v: ColumnValue)
    ensures
        row_view(values.push(v)) == row_view(values).push(v@),
{
    assert(row_view(values.push(v)) =~= row_view(values).push(v@));
}

impl<'a, T: ReadBuf> ReadBufAdler32<'a, T> {
    /// Reads the fields of the columns `start .. start + width` of a row,
    /// whose null byte is `bits`, and appends their values to `row`. Returns
    /// the first field that could not be decoded, and whether the data
    /// ended inside a field; in that case `row` is left with the values
    /// read before.
    #[verifier::rlimit(40)]
    pub fn read_fields(
        &mut self,
        schema: &Schema2,
        start: usize,
        width: usize,
        bits: u8,
        row: &mut Vec<ColumnValue>,
    ) -> (r: (Option<SchemaReadError>, bool))
        requires
            width <= GROUP,
            start + width <= schema@.len(),
            !old(self).target.source().eof,
        ensures
            r.0 == parse_fields(
                types_of(schema@).subrange(start as int, start + width),
                bits as nat,
                old(self).target.source(),
                0,
                no_fields(),
            ).fault,
            r.1 == parse_fields(
                types_of(schema@).subrange(start as int, start + width),
                bits as nat,
                old(self).target.source(),
                0,
                no_fields(),
            ).cut,
            final(self).took(
                *old(self),
                parse_fields(
                    types_of(schema@).subrange(start as int, start + width),
                    bits as nat,
                    old(self).target.source(),
                    0,
                    no_fields(),
                ).reads,
            ),
            !r.1 ==> row_view(final(row)@) == row_view(old(row)@) + parse_fields(
                types_of(schema@).subrange(start as int, start + width),
                bits as nat,
                old(self).target.source(),
                0,
                no_fields(),
            ).cells,
            *final(final(self).target) == *final(old(self).target),
    {
        let ghost types = types_of(schema@).subrange(start as int, start + width);
        let ghost src0 = self.target.source();
        let ghost total = parse_fields(types, bits as nat, src0, 0, no_fields());
        let ghost mut acc = no_fields();
        let n = schema.len();
        let mut fault: Option<SchemaReadError> = None;
        let mut b: u8 = bits;
        let mut j: usize = 0;
        proof {
            assert(rest(src0.pending, 0) =~= src0.pending);
            assert(padded(src0.pending, 0) =~= Seq::<u8>::empty());
            assert(row_view(row@) + acc.cells =~= row_view(row@));
            reveal_with_fuel(pow2, 1);
        }
        while j < width
            invariant
                j <= width,
                width <= GROUP,
                start + width <= schema@.len(),
                n == schema@.len(),
                types == types_of(schema@).subrange(start as int, start + width),
                src0 == old(self).target.source(),
                total == parse_fields(types, bits as nat, src0, 0, no_fields()),
                parse_fields(types, bits as nat, src0, j as nat, acc) == total,
                !acc.cut,
                acc.fault == fault,
                self.took(*old(self), acc.reads),
                !src0.advance(acc.reads).eof,
                row_view(row@) == row_view(old(row)@) + acc.cells,
                b == bits as nat / pow2(j as nat),
                *final(self.target) == *final(old(self).target),
            decreases width - j,
        {
            proof {
                lemma_bits_shift(bits as nat, j as nat);
            }
            let is_null = b % 2 == 1;
            b = b / 2;
            let ghost r0 = row@;
            if is_null {
                row.push(ColumnValue::Null);
                proof {
                    lemma_row_view_push(r0, ColumnValue::Null);
                    let next = Fields { cells: acc.cells.push(Cell::Null), ..acc };
                    assert(row_view(row@) =~= row_view(old(row)@) + next.cells);
                    acc = next;
                }
            } else {
                let ghost before = *self;
                let ghost here = src0.advance(acc.reads);
                let ghost t = types[j as int];
                assert(t == schema@[start + j].ctype);
                let got: Result<ColumnValue, SchemaReadError> = match schema.ctype(start + j) {
                    ColumnType::U32le => {
                        let v = self.read_dd_le();
                        Ok(ColumnValue::U32 { v })
                    },
                    ColumnType::U64le => {
                        let v = self.read_dq_le();
                        Ok(ColumnValue::U64 { v })
                    },
                    ColumnType::String => {
                        match self.read_varstring() {
                            Ok(s) => Ok(ColumnValue::String { v: s }),
                            Err(e) => Err(e),
                        }
                    },
                };
                let ghost reads = acc.reads + field_reads(t, here);
                proof {
                    lemma_took_took(*old(self), before, *self, acc.reads, field_reads(t, here));
                    assert(before.target.source() == here);
                    assert(self.target.source() == src0.advance(reads));
                }
                if self.past_eof() {
                    proof {
                        assert(parse_fields(types, bits as nat, src0, j as nat, acc) == Fields {
                            reads,
                            cut: true,
                            ..acc
                        });
                    }
                    return (fault, true);
                }
                match got {
                    Ok(v) => {
                        row.push(v);
                        proof {
                            lemma_row_view_push(r0, v);
                            assert(field_cell(t, here) == Ok::<Cell, SchemaReadError>(v@));
                            let next = Fields { cells: acc.cells.push(v@), reads, ..acc };
                            assert(row_view(row@) =~= row_view(old(row)@) + next.cells);
                            acc = next;
                        }
                    },
                    Err(e) => {
                        row.push(ColumnValue::Null);
                        if fault.is_none() {
                            fault = Some(e);
                        }
                        proof {
                            lemma_row_view_push(r0, ColumnValue::Null);
                            assert(field_cell(t, here) == Err::<Cell, SchemaReadError>(e));
                            let next = Fields {
                                cells: acc.cells.push(Cell::Null),
                                fault,
                                reads,
                                cut: false,
                            };
                            assert(row_view(row@) =~= row_view(old(row)@) + next.cells);
                            acc = next;
                        }
                    },
                }
            }
            j += 1;
        }
        (fault, false)
    }
}

/// Reads one group of a row, the columns `start .. start + width`, and
/// appends their values to `row`.
#[verifier::rlimit(40)]
pub fn read_group<B: ReadBuf>(
    buf: &mut B,
    schema: &Schema2,
    start: usize,
    width: usize,
    row: &mut Vec<ColumnValue>,
) -> (r: Result<(), SchemaReadError>)
    requires
        width <= GROUP,
        start + width <= schema@.len(),
    ensures
        final(buf).source() == old(buf).source().advance(
            parse_group(
                types_of(schema@).subrange(start as int, start + width),
                old(buf).source(),
                start == 0,
            ).reads,
        ),
        match r {
            Ok(()) => parse_group(
                types_of(schema@).subrange(start as int, start + width),
                old(buf).source(),
                start == 0,
            ).outcome == Ok::<Seq<Cell>, SchemaReadError>(
                row_view(final(row)@).skip(old(row)@.len() as int),
            ) && row_view(final(row)@).take(old(row)@.len() as int) == row_view(old(row)@)
                && final(row)@.len() >= old(row)@.len(),
            Err(e) => parse_group(
                types_of(schema@).subrange(start as int, start + width),
                old(buf).source(),
                start == 0,
            ).outcome == Err::<Seq<Cell>, SchemaReadError>(e),
        },
{
    let ghost types = types_of(schema@).subrange(start as int, start + width);
    let ghost src0 = buf.source();
    let ghost f = parse_fields(types, src0.head() as nat, src0.advance(1), 0, no_fields());
    let mut adlerbuf = ReadBufAdler32::new(buf);
    let ghost w0 = adlerbuf;
    let bits = adlerbuf.readb();
    let ghost w1 = adlerbuf;
    if adlerbuf.past_eof() {
        return Err(
            if start == 0 {
                SchemaReadError::Eof
            } else {
                SchemaReadError::UnexpectedEof
            },
        );
    }
    let (fault, cut) = adlerbuf.read_fields(schema, start, width, bits, row);
    let hash = adlerbuf.hash();
    proof {
        lemma_took_took(w0, w1, adlerbuf, 1, f.reads);
    }
    if cut {
        return Err(SchemaReadError::UnexpectedEof);
    }
    let ghost src2 = buf.source();
    let fhash = read_dd_le(buf);
    proof {
        lemma_advance_advance(src0, 1 + f.reads, 4);
        lemma_advance_advance(src0, 1, f.reads);
    }
    if buf.past_eof() {
        return Err(SchemaReadError::UnexpectedEof);
    }
    proof {
        assert(padded(src0.pending, 1 + f.reads) =~= src0.pending.take((1 + f.reads) as int));
        assert((row_view(old(row)@) + f.cells).skip(old(row)@.len() as int) =~= f.cells);
        assert((row_view(old(row)@) + f.cells).take(old(row)@.len() as int) =~= row_view(old(row)@));
    }
    if hash != fhash {
        return Err(SchemaReadError::ChecksumError);
    }
    match fault {
        Some(e) => Err(e),
        None => Ok(()),
    }
}

/// Reads one row under a schema. On success `values` holds the row; on any
/// error it is left as it was, and the source stands behind the group in
/// which the error came up.
pub fn schema_read_row<B: ReadBuf>(
    buf: &mut B,
    values: &mut Vec<ColumnValue>,
    schema: &Schema2,
) -> (r: Result<(), SchemaReadError>)
    ensures
        final(buf).source() == parse_row(types_of(schema@), old(buf).source()).left,
        match r {
            Ok(()) => parse_row(types_of(schema@), old(buf).source()).outcome == Ok::<
                Seq<Cell>,
                SchemaReadError,
            >(row_view(final(values)@)),
            Err(e) => parse_row(types_of(schema@), old(buf).source()).outcome == Err::<
                Seq<Cell>,
                SchemaReadError,
            >(e) && *final(values) == *old(values),
        },
{
    let ghost types = types_of(schema@);
    let ghost src0 = buf.source();
    let n = schema.len();
    let mut row: Vec<ColumnValue> = Vec::new();
    let mut start: usize = 0;
    proof {
        assert(row_view(row@) =~= Seq::<Cell>::empty());
    }
    while start < n
        invariant
            start <= n,
            n == schema@.len(),
            types == types_of(schema@),
            src0 == old(buf).source(),
            *values == *old(values),
            parse_groups(types, buf.source(), start as nat, row_view(row@)) == parse_row(
                types,
                src0,
            ),
        decreases n - start,
    {
        let width: usize = if n - start < GROUP {
            n - start
        } else {
            GROUP
        };
        let ghost before = row_view(row@);
        let ghost len0 = row@.len();
        match read_group(buf, schema, start, width, &mut row) {
            Err(e) => {
                return Err(e);
            },
            Ok(()) => {
                proof {
                    let now = row_view(row@);
                    assert(now =~= now.take(len0 as int) + now.skip(len0 as int));
                }
            },
        }
        start += width;
    }
    *values = row;
    Ok(())
}

} // verus!
