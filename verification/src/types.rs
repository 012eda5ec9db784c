use vstd::prelude::*;

verus! {

/// The type of a column.
#[derive(PartialEq, Eq, Clone, Copy, Debug, Structural)]
pub enum ColumnType {
    U32le,
    U64le,
    String,
}

/// The checksum that frames a row group.
#[derive(PartialEq, Eq, Clone, Copy, Debug, Structural)]
pub enum ChecksumType {
    NoChecksum,
    Adler32,
}

/// How the payload of one encoded string is stored.
#[derive(PartialEq, Eq, Clone, Copy, Debug, Structural)]
pub enum CompressionType {
    Raw,
    Lz4,
    Zstd,
}

/// Marker byte of an uncompressed payload.
pub const MARK_NONE: u8 = 0x00;

/// Marker byte of an LZ4 frame, the letter `L`.
pub const MARK_LZ4: u8 = 0x4C;

/// Marker byte of a Zstandard frame, the letter `Z`.
pub const MARK_ZSTD: u8 = 0x5A;

impl CompressionType {
    /// The byte that announces this compression in an encoded string.
    pub open spec fn spec_marker(self) -> u8 {
        match self {
            CompressionType::Raw => MARK_NONE,
            CompressionType::Lz4 => MARK_LZ4,
            CompressionType::Zstd => MARK_ZSTD,
        }
    }

    /// The compression that a marker byte announces, if it is a known one.
    pub open spec fn spec_from_marker(b: u8) -> Option<CompressionType> {
        if b == MARK_NONE {
            Some(CompressionType::Raw)
        } else if b == MARK_LZ4 {
            Some(CompressionType::Lz4)
        } else if b == MARK_ZSTD {
            Some(CompressionType::Zstd)
        } else {
            None
        }
    }

    #[verifier::when_used_as_spec(spec_marker)]
    pub fn marker(self) -> (b: u8)
        ensures
            b == self.spec_marker(),
    {
        match self {
            CompressionType::Raw => MARK_NONE,
            CompressionType::Lz4 => MARK_LZ4,
            CompressionType::Zstd => MARK_ZSTD,
        }
    }

    #[verifier::when_used_as_spec(spec_from_marker)]
    pub fn from_marker(b: u8) -> (c: Option<CompressionType>)
        ensures
            c == CompressionType::spec_from_marker(b),
    {
        if b == MARK_NONE {
            Some(CompressionType::Raw)
        } else if b == MARK_LZ4 {
            Some(CompressionType::Lz4)
        } else if b == MARK_ZSTD {
            Some(CompressionType::Zstd)
        } else {
            None
        }
    }
}

/// The mathematical value of one cell of a row.
pub enum Cell {
    Null,
    U32(u32),
    U64(u64),
    Text(Seq<char>),
}

/// One cell of a row.
#[allow(inconsistent_fields)]
#[derive(PartialEq, Debug, Clone)]
pub enum ColumnValue {
    Null,
    U32 { v: u32 },
    U64 { v: u64 },
    String { v: String },
}

impl View for ColumnValue {
    type V = Cell;

    open spec fn view(&self) -> Cell {
        match self {
            ColumnValue::Null => Cell::Null,
            ColumnValue::U32 { v } => Cell::U32(*v),
            ColumnValue::U64 { v } => Cell::U64(*v),
            ColumnValue::String { v } => Cell::Text(v@),
        }
    }
}

impl ColumnValue {
    /// Whether this cell is the null value.
    pub fn is_null(&self) -> (b: bool)
        ensures
            b == (self@ is Null),
    {
        match self {
            ColumnValue::Null => true,
            _ => false,
        }
    }
}

/// The cells of a row, as mathematical values.
pub open spec fn row_view(values: Seq<ColumnValue>) -> Seq<Cell> {
    Seq::new(values.len(), |i: int| values[i]@)
}

/// Whether a cell may be stored in a column of the given type and
/// nullability: a null only in a nullable column, any other value only in a
/// column of its own type.
pub open spec fn cell_fits(cell: Cell, ctype: ColumnType, nullable: bool) -> bool {
    match cell {
        Cell::Null => nullable,
        Cell::U32(_) => ctype == ColumnType::U32le,
        Cell::U64(_) => ctype == ColumnType::U64le,
        Cell::Text(_) => ctype == ColumnType::String,
    }
}

/// What a schema says of one column.
pub struct ColumnSpec {
    pub name: Seq<char>,
    pub ctype: ColumnType,
    pub nullable: bool,
}

/// The description of a column in the line-oriented schema text.
#[derive(Clone, Debug)]
pub struct Column {
    pub name: String,
    pub ctype: ColumnType,
    pub meaning: String,
    pub compression: CompressionType,
    pub nullable: bool,
}

} // verus!
