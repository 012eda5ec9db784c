use vstd::prelude::*;
use vstd::utf8::encode_utf8;
use crate::adlerbuf::adler32_of;
use crate::buf::Source;
use crate::err::SchemaReadError;
use crate::scalar::{le_u32, le_u64, u32_le, u64_le, varint_bytes, varint_len, varint_value};
use crate::types::{cell_fits, Cell, ColumnSpec, ColumnType};
use crate::varstring::{decodes_to, varstring_bytes, varstring_parse, varstring_reads};

verus! {

/// The byte that opens a schema header, the digit `2`.
pub const VERSION_MARK: u8 = 0x32;

/// The byte of the type of 32-bit columns, the digit `4`.
pub const TYPE_U32: u8 = 0x34;

/// The byte of the type of 64-bit columns, the digit `8`.
pub const TYPE_U64: u8 = 0x38;

/// The byte of the type of string columns, the letter `S`.
pub const TYPE_STRING: u8 = 0x53;

/// The byte that marks a column as nullable, the letter `N`.
pub const NULLABLE_MARK: u8 = 0x4E;

/// The number of columns that share one null byte and one checksum.
pub const GROUP: usize = 8;

/// The byte that stands for a column type in a schema header.
pub open spec fn type_byte(t: ColumnType) -> u8 {
    match t {
        ColumnType::U32le => TYPE_U32,
        ColumnType::U64le => TYPE_U64,
        ColumnType::String => TYPE_STRING,
    }
}

/// The column type that a byte of a schema header stands for, if any.
pub open spec fn type_of_byte(b: u8) -> Option<ColumnType> {
    if b == TYPE_U32 {
        Some(ColumnType::U32le)
    } else if b == TYPE_U64 {
        Some(ColumnType::U64le)
    } else if b == TYPE_STRING {
        Some(ColumnType::String)
    } else {
        None
    }
}

/// The byte that stands for a nullability in a schema header.
pub open spec fn nullable_byte(nullable: bool) -> u8 {
    if nullable {
        NULLABLE_MARK
    } else {
        0u8
    }
}

/// The bytes of one column of a schema header: the name as an encoded
/// string, the type byte and the nullability byte.
pub open spec fn column_bytes(c: ColumnSpec) -> Seq<u8> {
    varstring_bytes(encode_utf8(c.name)) + seq![type_byte(c.ctype), nullable_byte(c.nullable)]
}

/// The bytes of the columns of a schema header, in order.
pub open spec fn columns_bytes(cols: Seq<ColumnSpec>) -> Seq<u8>
    decreases cols.len(),
{
    if cols.len() == 0 {
        Seq::empty()
    } else {
        columns_bytes(cols.drop_last()) + column_bytes(cols.last())
    }
}

/// The bytes of a schema header: the version mark, the number of columns,
/// and the columns.
pub open spec fn schema_bytes(cols: Seq<ColumnSpec>) -> Seq<u8> {
    seq![VERSION_MARK] + varint_bytes(cols.len()) + columns_bytes(cols)
}

/// What reading a schema header yields: the columns, or nothing where the
/// header is malformed, and the state in which the source is left.
pub struct SchemaParse {
    pub columns: Option<Seq<ColumnSpec>>,
    pub left: Source,
}

/// Reads `n` more columns of a schema header, after the columns `acc`.
/// Reading stops behind the first column whose name does not decode or
/// whose type byte is unknown. Any nullability byte but `N` means that the
/// column is not nullable.
pub open spec fn parse_columns(src: Source, n: nat, acc: Seq<ColumnSpec>) -> SchemaParse
    decreases n,
{
    if n == 0 {
        SchemaParse { columns: Some(acc), left: src }
    } else {
        let after_name = src.advance(varstring_reads(src));
        let after = after_name.advance(2);
        match varstring_parse(src) {
            Err(_) => SchemaParse { columns: None, left: after_name },
            Ok(name) => match type_of_byte(after_name.head()) {
                None => SchemaParse { columns: None, left: after },
                Some(ctype) => parse_columns(
                    after,
                    (n - 1) as nat,
                    acc.push(
                        ColumnSpec {
                            name,
                            ctype,
                            nullable: after_name.advance(1).head() == NULLABLE_MARK,
                        },
                    ),
                ),
            },
        }
    }
}

/// Reads a schema header. A first byte other than the version mark fails
/// the read behind that byte.
pub open spec fn parse_schema(src: Source) -> SchemaParse {
    if src.head() != VERSION_MARK {
        SchemaParse { columns: None, left: src.advance(1) }
    } else {
        let counted = src.advance(1);
        parse_columns(
            counted.advance(varint_len(counted.pending)),
            varint_value(counted.pending) as nat,
            Seq::empty(),
        )
    }
}

/// Two to the power `j`.
pub open spec fn pow2(j: nat) -> nat
    decreases j,
{
    if j == 0 {
        1
    } else {
        2 * pow2((j - 1) as nat)
    }
}

/// Whether bit `j` of `b` is set.
pub open spec fn bit_at(b: nat, j: nat) -> bool {
    (b / pow2(j)) % 2 == 1
}

/// The null bitmap of the cells of a group: bit `j` is set where cell `j`
/// is null.
pub open spec fn null_bits(cells: Seq<Cell>) -> nat
    decreases cells.len(),
{
    if cells.len() == 0 {
        0
    } else {
        null_bits(cells.drop_last()) + if cells.last() is Null {
            pow2((cells.len() - 1) as nat)
        } else {
            0
        }
    }
}

/// The bytes of one cell: none for a null, the value low byte first for a
/// number, an encoded string for a text.
pub open spec fn cell_bytes(c: Cell) -> Seq<u8> {
    match c {
        Cell::Null => Seq::empty(),
        Cell::U32(v) => u32_le(v),
        Cell::U64(v) => u64_le(v),
        Cell::Text(s) => varstring_bytes(encode_utf8(s)),
    }
}

/// The bytes of the cells of a group, in order.
pub open spec fn cells_bytes(cells: Seq<Cell>) -> Seq<u8>
    decreases cells.len(),
{
    if cells.len() == 0 {
        Seq::empty()
    } else {
        cells_bytes(cells.drop_last()) + cell_bytes(cells.last())
    }
}

/// The checksummed part of a group: the null byte and the cells.
pub open spec fn group_payload(cells: Seq<Cell>) -> Seq<u8> {
    seq![null_bits(cells) as u8] + cells_bytes(cells)
}

/// The bytes of a group: the payload, and the Adler-32 checksum of the
/// payload, low byte first.
pub open spec fn group_bytes(cells: Seq<Cell>) -> Seq<u8> {
    group_payload(cells) + u32_le(adler32_of(group_payload(cells)))
}

/// The number of columns in the first group of `n` columns.
pub open spec fn group_width(n: nat) -> nat {
    if n < GROUP {
        n
    } else {
        GROUP as nat
    }
}

/// The bytes of a row: its cells in groups of up to eight, each group
/// framed on its own.
pub open spec fn row_bytes(cells: Seq<Cell>) -> Seq<u8>
    decreases cells.len(),
{
    if cells.len() == 0 {
        Seq::empty()
    } else {
        let w = group_width(cells.len());
        group_bytes(cells.take(w as int)) + row_bytes(cells.skip(w as int))
    }
}

/// The number of reads that decoding a field of the given type makes.
pub open spec fn field_reads(t: ColumnType, src: Source) -> nat {
    match t {
        ColumnType::U32le => 4,
        ColumnType::U64le => 8,
        ColumnType::String => varstring_reads(src),
    }
}

/// What decoding a field of the given type yields.
pub open spec fn field_cell(t: ColumnType, src: Source) -> Result<Cell, SchemaReadError> {
    match t {
        ColumnType::U32le => Ok(Cell::U32(le_u32(src.pending))),
        ColumnType::U64le => Ok(Cell::U64(le_u64(src.pending))),
        ColumnType::String => match varstring_parse(src) {
            Ok(s) => Ok(Cell::Text(s)),
            Err(e) => Err(e),
        },
    }
}

/// The state of decoding the fields of a group: the cells so far, the
/// first field that could not be decoded, the number of reads made, and
/// whether the data ended inside a field.
pub struct Fields {
    pub cells: Seq<Cell>,
    pub fault: Option<SchemaReadError>,
    pub reads: nat,
    pub cut: bool,
}

/// Decodes the fields `j..` of a group whose null byte is `bits`, from the
/// source as it stands at the start of the group's fields, given the state
/// `acc` after the fields before `j`. A field whose bit is set is null and
/// takes no bytes. A field that cannot be decoded leaves a null in its
/// place and is remembered, and decoding goes on behind it. Decoding stops
/// where the data ends inside a field.
pub open spec fn parse_fields(
    types: Seq<ColumnType>,
    bits: nat,
    start: Source,
    j: nat,
    acc: Fields,
) -> Fields
    decreases types.len() - j,
{
    if j >= types.len() || acc.cut {
        acc
    } else if bit_at(bits, j) {
        parse_fields(
            types,
            bits,
            start,
            j + 1,
            Fields { cells: acc.cells.push(Cell::Null), ..acc },
        )
    } else {
        let here = start.advance(acc.reads);
        let reads = acc.reads + field_reads(types[j as int], here);
        if start.advance(reads).eof {
            Fields { reads, cut: true, ..acc }
        } else {
            match field_cell(types[j as int], here) {
                Ok(c) => parse_fields(
                    types,
                    bits,
                    start,
                    j + 1,
                    Fields { cells: acc.cells.push(c), reads, ..acc },
                ),
                Err(e) => parse_fields(
                    types,
                    bits,
                    start,
                    j + 1,
                    Fields {
                        cells: acc.cells.push(Cell::Null),
                        fault: if acc.fault is Some {
                            acc.fault
                        } else {
                            Some(e)
                        },
                        reads,
                        cut: false,
                    },
                ),
            }
        }
    }
}

/// The state of decoding before the first field of a group.
pub open spec fn no_fields() -> Fields {
    Fields { cells: Seq::empty(), fault: None, reads: 0, cut: false }
}

/// What reading a group yields, and the number of reads made.
pub struct GroupParse {
    pub outcome: Result<Seq<Cell>, SchemaReadError>,
    pub reads: nat,
}

/// Reads one group of columns of the given types. The outcomes, in the
/// order in which they are tested: the data ends at or before the null
/// byte (the end of the file where this is the first group of a row, an
/// unexpected end else); the data ends inside the group or its checksum;
/// the stored checksum differs from the Adler-32 value of the null byte and
/// the fields; a field could not be decoded; the cells.
pub open spec fn parse_group(types: Seq<ColumnType>, src: Source, first: bool) -> GroupParse {
    let after_bits = src.advance(1);
    if after_bits.eof {
        GroupParse {
            outcome: Err(
                if first {
                    SchemaReadError::Eof
                } else {
                    SchemaReadError::UnexpectedEof
                },
            ),
            reads: 1,
        }
    } else {
        let f = parse_fields(types, src.head() as nat, after_bits, 0, no_fields());
        if f.cut {
            GroupParse { outcome: Err(SchemaReadError::UnexpectedEof), reads: 1 + f.reads }
        } else {
            let tail = after_bits.advance(f.reads);
            let reads = 1 + f.reads + 4;
            if tail.advance(4).eof {
                GroupParse { outcome: Err(SchemaReadError::UnexpectedEof), reads }
            } else if le_u32(tail.pending) != adler32_of(src.pending.take((1 + f.reads) as int)) {
                GroupParse { outcome: Err(SchemaReadError::ChecksumError), reads }
            } else {
                match f.fault {
                    Some(e) => GroupParse { outcome: Err(e), reads },
                    None => GroupParse { outcome: Ok(f.cells), reads },
                }
            }
        }
    }
}

/// What reading a row yields, and the state in which the source is left.
pub struct RowParse {
    pub outcome: Result<Seq<Cell>, SchemaReadError>,
    pub left: Source,
}

/// Reads the groups of the columns `done..` of a row, after the cells
/// `acc` of the groups before. Reading stops behind the first group that
/// does not yield its cells.
pub open spec fn parse_groups(types: Seq<ColumnType>, src: Source, done: nat, acc: Seq<Cell>) -> RowParse
    decreases types.len() - done,
{
    if done >= types.len() {
        RowParse { outcome: Ok(acc), left: src }
    } else {
        let w = group_width((types.len() - done) as nat);
        let g = parse_group(types.subrange(done as int, (done + w) as int), src, done == 0);
        match g.outcome {
            Err(e) => RowParse { outcome: Err(e), left: src.advance(g.reads) },
            Ok(cells) => parse_groups(types, src.advance(g.reads), done + w, acc + cells),
        }
    }
}

/// Reads one row of columns of the given types.
pub open spec fn parse_row(types: Seq<ColumnType>, src: Source) -> RowParse {
    parse_groups(types, src, 0, Seq::empty())
}

/// Whether a row may be written under a schema: it has one cell for each
/// column, and each cell fits its column.
pub open spec fn row_fits(cells: Seq<Cell>, cols: Seq<ColumnSpec>) -> bool {
    &&& cells.len() == cols.len()
    &&& forall|i: int|
        0 <= i < cells.len() ==> cell_fits(#[trigger] cells[i], cols[i].ctype, cols[i].nullable)
}

/// Whether every text among the cells, once encoded, reads back as itself.
pub open spec fn texts_decode(cells: Seq<Cell>) -> bool {
    forall|i: int|
        0 <= i < cells.len() ==> (#[trigger] cells[i] matches Cell::Text(s) ==> decodes_to(
            varstring_bytes(encode_utf8(s)),
            s,
        ))
}

/// Two to a power is positive.
pub proof fn lemma_pow2_positive(j: nat)
    ensures
        pow2(j) > 0,
    decreases j,
{
    if j > 0 {
        lemma_pow2_positive((j - 1) as nat);
    }
}

/// Halving what is left of a bitmap after `j` bits leaves what is left of
/// it after `j + 1` bits.
pub proof fn lemma_bits_shift(bits: nat, j: nat)
    ensures
        (bits / pow2(j)) / 2 == bits / pow2(j + 1),
{
    lemma_pow2_positive(j);
    vstd::arithmetic::div_mod::lemma_div_denominator(bits as int, pow2(j) as int, 2);
    assert(pow2(j + 1) == 2 * pow2(j));
    assert(pow2(j) * 2 == 2 * pow2(j)) by (nonlinear_arith);
}

} // verus!
