use vstd::prelude::*;
use crate::buf::{lemma_advance_advance, Source};
use crate::err::SchemaReadError;
use crate::layout::{
    group_width, no_fields, parse_fields, parse_group, parse_groups, parse_row, RowParse,
};
use crate::adlerbuf::adler32_of;
use crate::layout::{group_payload, row_bytes, texts_decode, GROUP};
use crate::round_trip::{
    cells_typed, lemma_group_framed, lemma_null_bitmap_on_read, lemma_row_round_trip,
};
use crate::scalar::u32_le;
use crate::types::{Cell, ColumnType};

verus! {

/// Whether reading a row went well enough for a scan to go on behind it:
/// the row was read, or it was damaged in a way that leaves the source
/// behind the damaged group.
pub open spec fn scan_goes_on(outcome: Result<Seq<Cell>, SchemaReadError>) -> bool {
    match outcome {
        Ok(_) => true,
        Err(e) => e.is_recoverable(),
    }
}

/// Reading never gives bytes back.
pub proof fn lemma_groups_shrink(types: Seq<ColumnType>, src: Source, done: nat, acc: Seq<Cell>)
    ensures
        parse_groups(types, src, done, acc).left.pending.len() <= src.pending.len(),
        done < types.len() && scan_goes_on(parse_groups(types, src, done, acc).outcome)
            ==> parse_groups(types, src, done, acc).left.pending.len() < src.pending.len(),
    decreases types.len() - done,
{
    if done < types.len() {
        let w = group_width((types.len() - done) as nat);
        let tg = types.subrange(done as int, (done + w) as int);
        let g = parse_group(tg, src, done == 0);
        let next = src.advance(g.reads);
        if scan_goes_on(g.outcome) {
            let f = parse_fields(tg, src.head() as nat, src.advance(1), 0, no_fields());
            lemma_advance_advance(src, 1, f.reads);
            lemma_advance_advance(src, 1 + f.reads, 4);
            assert(next.pending.len() < src.pending.len());
        }
        match g.outcome {
            Err(e) => {},
            Ok(cells) => {
                lemma_groups_shrink(types, next, done + w, acc + cells);
            },
        }
    }
}

/// A row of at least one column that a scan can go on behind takes at least
/// one byte.
pub proof fn lemma_row_progress(types: Seq<ColumnType>, src: Source)
    requires
        types.len() > 0,
        scan_goes_on(parse_row(types, src).outcome),
    ensures
        parse_row(types, src).left.pending.len() < src.pending.len(),
{
    lemma_groups_shrink(types, src, 0, Seq::empty());
}

/// The groups of a row that was read hold one cell for each column.
pub proof fn lemma_groups_width(types: Seq<ColumnType>, src: Source, done: nat, acc: Seq<Cell>)
    requires
        done <= types.len(),
        parse_groups(types, src, done, acc).outcome is Ok,
    ensures
        parse_groups(types, src, done, acc).outcome->Ok_0.len() == acc.len() + types.len() - done,
    decreases types.len() - done,
{
    if done < types.len() {
        let w = group_width((types.len() - done) as nat);
        let tg = types.subrange(done as int, (done + w) as int);
        let g = parse_group(tg, src, done == 0);
        match g.outcome {
            Err(e) => {},
            Ok(cells) => {
                lemma_null_bitmap_on_read(tg, src, done == 0, 0);
                lemma_groups_width(types, src.advance(g.reads), done + w, acc + cells);
            },
        }
    }
}

/// A row that was read holds one cell for each column.
pub proof fn lemma_row_width(types: Seq<ColumnType>, src: Source)
    requires
        parse_row(types, src).outcome is Ok,
    ensures
        parse_row(types, src).outcome->Ok_0.len() == types.len(),
{
    lemma_groups_width(types, src, 0, Seq::empty());
}

/// The rows that a scan of a source yields, in order. A row that is damaged
/// but framed is skipped; the scan ends where the data ends, also where it
/// ends inside a row. A schema without columns frames no rows.
pub open spec fn file_rows(types: Seq<ColumnType>, src: Source) -> Seq<Seq<Cell>>
    decreases src.pending.len(),
{
    if types.len() == 0 {
        Seq::empty()
    } else {
        let p = parse_row(types, src);
        if scan_goes_on(p.outcome) {
            proof {
                lemma_row_progress(types, src);
            }
            match p.outcome {
                Ok(row) => seq![row] + file_rows(types, p.left),
                Err(_) => file_rows(types, p.left),
            }
        } else {
            Seq::empty()
        }
    }
}

/// A scan of a file that begins with a written row yields that row, and
/// then what a scan of the rest yields.
pub proof fn lemma_scan_written_row(cells: Seq<Cell>, types: Seq<ColumnType>, tail: Seq<u8>)
    requires
        cells_typed(cells, types),
        texts_decode(cells),
        types.len() > 0,
    ensures
        file_rows(types, Source { pending: row_bytes(cells) + tail, eof: false }) == seq![cells]
            + file_rows(types, Source { pending: tail, eof: false }),
{
    lemma_row_round_trip(cells, types);
    let src = Source { pending: row_bytes(cells) + tail, eof: false };
    assert(parse_row(types, src) == (RowParse {
        outcome: Ok(cells),
        left: Source { pending: tail, eof: false },
    }));
}

/// A scan steps over a row of one group whose checksum is not the one of
/// its fields, and yields what a scan of the rest yields: the rows behind a
/// damaged row are read as if it were not there.
pub proof fn lemma_scan_damaged_row(
    cells: Seq<Cell>,
    types: Seq<ColumnType>,
    sum: u32,
    tail: Seq<u8>,
)
    requires
        cells_typed(cells, types),
        texts_decode(cells),
        0 < types.len() <= GROUP,
        sum != adler32_of(group_payload(cells)),
    ensures
        file_rows(
            types,
            Source { pending: group_payload(cells) + u32_le(sum) + tail, eof: false },
        ) == file_rows(types, Source { pending: tail, eof: false }),
{
    let data = group_payload(cells) + u32_le(sum);
    let src = Source { pending: data + tail, eof: false };
    lemma_group_framed(cells, types, sum, tail, true);
    assert(types.subrange(0, types.len() as int) =~= types);
    let g = parse_group(types, src, true);
    assert(g.outcome == Err::<Seq<Cell>, SchemaReadError>(SchemaReadError::ChecksumError));
    assert(src.advance(g.reads).pending =~= tail);
    assert(parse_row(types, src) == (RowParse {
        outcome: Err(SchemaReadError::ChecksumError),
        left: Source { pending: tail, eof: false },
    }));
}

/// A scan of nothing yields nothing.
pub proof fn lemma_scan_nothing(types: Seq<ColumnType>)
    ensures
        file_rows(types, Source { pending: Seq::empty(), eof: false }) == Seq::<Seq<Cell>>::empty(),
{
}

} // verus!
