use vstd::prelude::*;
use vstd::utf8::encode_utf8;
use crate::buf::rest;
use crate::hashset::{FingerprintSet, TABLE_SLOTS};
use crate::rel::{find_columns, named_at, same_shape, unnamed, AnyRelation, Relation};
use crate::scalar::{le_u32, le_u64, u32_le, u64_le};
use crate::types::{Cell, ColumnSpec, ColumnType, ColumnValue};

verus! {

/// The first sixteen bytes of the SHAKE128 digest of `data`, as the
/// `tiny-keccak` crate computes it.
pub uninterp spec fn shake128_16(data: Seq<u8>) -> Seq<u8>;

/// `tiny_keccak::shake128` absorbs `data` into a SHAKE128 sponge and
/// squeezes sixteen bytes out of it.
#[verifier::external_body]
pub(crate) fn shake128_digest(data: &[u8]) -> (out: [u8; 16])
    ensures
        out@ == shake128_16(data@),
{
    tiny_keccak::shake128(data)
}

/// The bytes that stand for a cell in a fingerprint: a number low byte
/// first, a text as UTF-8, a null as one zero byte.
pub open spec fn key_bytes(c: Cell) -> Seq<u8> {
    match c {
        Cell::Null => seq![0u8],
        Cell::U32(v) => u32_le(v),
        Cell::U64(v) => u64_le(v),
        Cell::Text(s) => encode_utf8(s),
    }
}

/// The bytes that are digested for a row: for each key column in order,
/// the bytes of its cell and one zero byte.
pub open spec fn fingerprint_input(row: Seq<Cell>, keys: Seq<usize>) -> Seq<u8>
    decreases keys.len(),
{
    if keys.len() == 0 {
        Seq::empty()
    } else {
        fingerprint_input(row, keys.drop_last()) + key_bytes(row[keys.last() as int]) + seq![0u8]
    }
}

/// The 128-bit number that sixteen bytes spell, low byte first.
pub open spec fn le_u128(d: Seq<u8>) -> u128 {
    (le_u64(d) + 0x1_0000_0000_0000_0000 * le_u64(rest(d, 8))) as u128
}

/// The fingerprint of a row under the given key columns.
pub open spec fn fingerprint(row: Seq<Cell>, keys: Seq<usize>) -> u128 {
    le_u128(shake128_16(fingerprint_input(row, keys)))
}

/// The rows among `rows` that a deduplication lets through, in order, given
/// the fingerprints kept so far and the number that can still be kept. A
/// row passes unless its fingerprint is kept already. The fingerprint of a
/// row that passes is kept from then on, unless it is zero or there is no
/// room.
pub open spec fn unique_rows(rows: Seq<Seq<Cell>>, keys: Seq<usize>, kept: Set<u128>, free: nat) -> Seq<
    Seq<Cell>,
>
    decreases rows.len(),
{
    if rows.len() == 0 {
        Seq::empty()
    } else {
        let fp = fingerprint(rows[0], keys);
        if kept.contains(fp) {
            unique_rows(rows.skip(1), keys, kept, free)
        } else if fp != 0 && free > 0 {
            seq![rows[0]] + unique_rows(rows.skip(1), keys, kept.insert(fp), (free - 1) as nat)
        } else {
            seq![rows[0]] + unique_rows(rows.skip(1), keys, kept, free)
        }
    }
}

/// Appends the four bytes of a value, low byte first.
pub fn push_u32_le(out: &mut Vec<u8>, v: u32)
    ensures
        final(out)@ == old(out)@ + u32_le(v),
{
    out.push((v % 256) as u8);
    out.push((v / 0x100 % 256) as u8);
    out.push((v / 0x1_0000 % 256) as u8);
    out.push((v / 0x100_0000) as u8);
    assert(out@ =~= old(out)@ + u32_le(v));
}

/// Appends the eight bytes of a value, low byte first.
pub fn push_u64_le(out: &mut Vec<u8>, v: u64)
    ensures
        final(out)@ == old(out)@ + u64_le(v),
{
    let ghost a = out@;
    push_u32_le(out, (v % 0x1_0000_0000) as u32);
    push_u32_le(out, (v / 0x1_0000_0000) as u32);
    assert(out@ =~= a + u64_le(v));
}

/// Appends the bytes that stand for a value in a fingerprint.
pub fn push_key(out: &mut Vec<u8>, value: &ColumnValue)
    ensures
        final(out)@ == old(out)@ + key_bytes(value@),
{
    match value {
        ColumnValue::Null => {
            out.push(0u8);
            assert(out@ =~= old(out)@ + seq![0u8]);
        },
        ColumnValue::U32 { v } => {
            push_u32_le(out, *v);
        },
        ColumnValue::U64 { v } => {
            push_u64_le(out, *v);
        },
        ColumnValue::String { v } => {
            let bytes = v.as_str().as_bytes();
            let mut i: usize = 0;
            while i < bytes.len()
                invariant
                    i <= bytes@.len(),
                    out@ == old(out)@ + bytes@.take(i as int),
                decreases bytes@.len() - i,
            {
                out.push(bytes[i]);
                i += 1;
                assert(out@ =~= old(out)@ + bytes@.take(i as int));
            }
            assert(bytes@.take(bytes@.len() as int) =~= bytes@);
        },
    }
}

/// The 32-bit number that four bytes of a digest spell, low byte first.
fn le32_at(d: &[u8; 16], at: usize) -> (v: u32)
    requires
        at + 4 <= 16,
    ensures
        v == le_u32(rest(d@, at as nat)),
{
    (d[at] as u32) + 0x100 * (d[at + 1] as u32) + 0x1_0000 * (d[at + 2] as u32) + 0x100_0000 * (d[at
        + 3] as u32)
}

/// The 128-bit number that the sixteen bytes of a digest spell, low byte
/// first.
pub fn fingerprint_of(d: &[u8; 16]) -> (v: u128)
    ensures
        v == le_u128(d@),
{
    let a = le32_at(d, 0) as u128;
    let b = le32_at(d, 4) as u128;
    let c = le32_at(d, 8) as u128;
    let e = le32_at(d, 12) as u128;
    proof {
        assert(rest(d@, 0) =~= d@);
        assert(rest(rest(d@, 0), 4) =~= rest(d@, 4));
        assert(rest(rest(d@, 8), 4) =~= rest(d@, 12));
    }
    a + 0x1_0000_0000 * b + 0x1_0000_0000_0000_0000 * (c + 0x1_0000_0000 * e)
}

/// A relation without the rows that repeat an earlier row in the key
/// columns. Rows are told apart by a 128-bit fingerprint of their key
/// columns.
pub struct UniqueRelation {
    relation: Box<AnyRelation>,
    columns: Vec<usize>,
    hashset: FingerprintSet,
}

impl UniqueRelation {
    /// The relation whose rows are deduplicated.
    pub closed spec fn base(&self) -> AnyRelation {
        *self.relation
    }

    /// The key columns.
    pub closed spec fn keys(&self) -> Seq<usize> {
        self.columns@
    }

    /// The fingerprints kept so far.
    pub closed spec fn kept(&self) -> Set<u128> {
        self.hashset.kept()
    }

    /// The number of fingerprints that can still be kept.
    pub closed spec fn free(&self) -> nat {
        self.hashset.free()
    }

    /// Whether the table of fingerprints is in order.
    pub closed spec fn table_wf(&self) -> bool {
        self.hashset.wf()
    }

    /// The deduplication of `rel` by the columns with the names `cols`,
    /// each name standing for the first column that has it. There is none
    /// where one of the names is the name of no column.
    pub fn new(rel: Box<AnyRelation>, cols: Vec<String>) -> (r: Option<UniqueRelation>)
        requires
            rel.inv(),
            rel.described(),
        ensures
            match r {
                Some(u) => u.base() == *rel && u.inv() && u.kept() == Set::<u128>::empty()
                    && u.free() == TABLE_SLOTS && u.keys().len() == cols@.len() && forall|j: int|
                    0 <= j < cols@.len() ==> named_at(
                        rel.columns(),
                        (#[trigger] cols@[j])@,
                        u.keys()[j] as int,
                    ),
                None => exists|j: int|
                    0 <= j < cols@.len() && unnamed(rel.columns(), (#[trigger] cols@[j])@),
            },
    {
        match find_columns(&rel, &cols) {
            Some(columns) => {
                let hashset = FingerprintSet::new(TABLE_SLOTS);
                let u = UniqueRelation { relation: rel, columns, hashset };
                proof {
                    assert forall|i: int| 0 <= i < u.keys().len() implies (#[trigger] u.keys()[i])
                        < u.base().columns().len() by {
                        assert(named_at(rel.columns(), cols@[i]@, u.keys()[i] as int));
                    }
                }
                Some(u)
            },
            None => None,
        }
    }

    /// The fingerprint of the current row of the base.
    pub fn current_fingerprint(&self) -> (fp: u128)
        requires
            self.inv(),
            self.base().current() is Some,
        ensures
            fp == fingerprint(self.base().current().unwrap(), self.keys()),
    {
        let ghost row = self.base().current().unwrap();
        proof {
            self.relation.lemma_current_width();
        }
        let mut input: Vec<u8> = Vec::new();
        let mut j: usize = 0;
        proof {
            assert(self.columns@.take(0) =~= Seq::<usize>::empty());
        }
        while j < self.columns.len()
            invariant
                j <= self.columns@.len(),
                self.inv(),
                self.base().current() == Some(row),
                row.len() == self.base().columns().len(),
                input@ == fingerprint_input(row, self.columns@.take(j as int)),
            decreases self.columns@.len() - j,
        {
            let k = self.columns[j];
            assert(self.keys()[j as int] < self.base().columns().len());
            push_key(&mut input, self.relation.value(k));
            input.push(0u8);
            proof {
                assert(self.columns@.take(j + 1).drop_last() =~= self.columns@.take(j as int));
                assert(input@ =~= fingerprint_input(row, self.columns@.take(j as int)) + key_bytes(
                    row[k as int],
                ) + seq![0u8]);
            }
            j += 1;
        }
        proof {
            assert(self.columns@.take(self.columns@.len() as int) =~= self.columns@);
        }
        let digest = shake128_digest(input.as_slice());
        fingerprint_of(&digest)
    }

    /// Whether the current row of the base repeats an earlier row. The
    /// fingerprint of a row that does not is kept from now on, unless it is
    /// zero or there is no room for it.
    pub fn seen(&mut self) -> (dup: bool)
        requires
            old(self).inv(),
            old(self).base().current() is Some,
        ensures
            final(self).inv(),
            final(self).base() == old(self).base(),
            final(self).keys() == old(self).keys(),
            dup == old(self).kept().contains(
                fingerprint(old(self).base().current().unwrap(), old(self).keys()),
            ),
            ({
                let fp = fingerprint(old(self).base().current().unwrap(), old(self).keys());
                if fp != 0 && !dup && old(self).free() > 0 {
                    final(self).kept() == old(self).kept().insert(fp) && final(self).free() == old(
                        self,
                    ).free() - 1
                } else {
                    final(self).kept() == old(self).kept() && final(self).free() == old(self).free()
                }
            }),
    {
        let fp = self.current_fingerprint();
        self.hashset.note(fp)
    }
}

impl Relation for UniqueRelation {
    open spec fn inv(&self) -> bool
        decreases self,
    {
        &&& self.base().inv()
        &&& self.base().described()
        &&& self.table_wf()
        &&& forall|i: int|
            0 <= i < self.keys().len() ==> (#[trigger] self.keys()[i]) < self.base().columns().len()
    }

    open spec fn described(&self) -> bool {
        true
    }

    open spec fn columns(&self) -> Seq<ColumnSpec>
        decreases self,
    {
        self.base().columns()
    }

    open spec fn current(&self) -> Option<Seq<Cell>>
        decreases self,
    {
        self.base().current()
    }

    open spec fn rows(&self) -> Seq<Seq<Cell>>
        decreases self,
    {
        unique_rows(self.base().rows(), self.keys(), self.kept(), self.free())
    }

    open spec fn depth(&self) -> nat
        decreases self,
    {
        1 + self.base().depth()
    }

    proof fn lemma_current_width(&self)
        decreases self,
    {
        self.base().lemma_current_width();
    }

    fn is_described(&self) -> (b: bool) {
        true
    }

    fn length(&self) -> (n: usize)
        decreases self.depth(),
    {
        self.relation.length()
    }

    /// Reads on in the base until a row comes that repeats no earlier one.
    fn read(&mut self) -> (ok: bool)
        ensures
            final(self).keys() == old(self).keys(),
        decreases old(self).depth(),
    {
        loop
            invariant
                self.inv(),
                self.columns@ == old(self).columns@,
                self.relation.depth() == old(self).relation.depth(),
                same_shape(self.relation.columns(), old(self).relation.columns()),
                unique_rows(self.relation.rows(), self.columns@, self.kept(), self.free())
                    == unique_rows(
                    old(self).relation.rows(),
                    old(self).columns@,
                    old(self).kept(),
                    old(self).free(),
                ),
            decreases self.relation.rows().len(),
        {
            let ghost before = self.relation.rows();
            let ghost kept = self.kept();
            let ghost free = self.free();
            let ghost cols_before = self.relation.columns();
            let ghost pre = *self;
            let ok = self.relation.read();
            proof {
                crate::rel::lemma_same_shape_chain(
                    self.relation.columns(),
                    cols_before,
                    old(self).relation.columns(),
                );
                assert forall|i: int| 0 <= i < self.keys().len() implies (#[trigger] self.keys()[i])
                    < self.base().columns().len() by {
                    assert(pre.keys()[i] < pre.base().columns().len());
                }
            }
            if !ok {
                return false;
            }
            let ghost middle = *self;
            let dup = self.seen();
            proof {
                crate::rel::lemma_same_shape_chain(
                    self.relation.columns(),
                    middle.relation.columns(),
                    old(self).relation.columns(),
                );
            }
            if !dup {
                proof {
                    let fp = fingerprint(before[0], self.columns@);
                    if fp != 0 && free > 0 {
                        assert((seq![before[0]] + unique_rows(
                            before.skip(1),
                            self.columns@,
                            kept.insert(fp),
                            (free - 1) as nat,
                        )).skip(1) =~= unique_rows(
                            before.skip(1),
                            self.columns@,
                            kept.insert(fp),
                            (free - 1) as nat,
                        ));
                    } else {
                        assert((seq![before[0]] + unique_rows(
                            before.skip(1),
                            self.columns@,
                            kept,
                            free,
                        )).skip(1) =~= unique_rows(before.skip(1), self.columns@, kept, free));
                    }
                }
                return true;
            }
        }
    }

    fn name(&self, n: usize) -> (s: String)
        decreases self.depth(),
    {
        self.relation.name(n)
    }

    fn ctype(&self, n: usize) -> (t: ColumnType)
        decreases self.depth(),
    {
        self.relation.ctype(n)
    }

    fn nullable(&self, n: usize) -> (b: bool)
        decreases self.depth(),
    {
        self.relation.nullable(n)
    }

    fn value(&self, n: usize) -> (v: &ColumnValue)
        decreases self.depth(),
    {
        self.relation.value(n)
    }
}

/// Rows whose fingerprints are all kept already do not pass.
pub proof fn lemma_unique_repeats(rows: Seq<Seq<Cell>>, keys: Seq<usize>, kept: Set<u128>, free: nat)
    requires
        forall|i: int| 0 <= i < rows.len() ==> kept.contains(fingerprint(#[trigger] rows[i], keys)),
    ensures
        unique_rows(rows, keys, kept, free) == Seq::<Seq<Cell>>::empty(),
    decreases rows.len(),
{
    if rows.len() > 0 {
        assert(kept.contains(fingerprint(rows[0], keys)));
        assert forall|i: int| 0 <= i < rows.skip(1).len() implies kept.contains(
            fingerprint(#[trigger] rows.skip(1)[i], keys),
        ) by {
            assert(rows.skip(1)[i] == rows[i + 1]);
        }
        lemma_unique_repeats(rows.skip(1), keys, kept, free);
    }
}

/// The same row fed any number of times passes once: of `n` copies of a
/// row, one and only one comes out, provided that the row's fingerprint is
/// not zero, is not kept yet, and there is room to keep it.
pub proof fn lemma_unique_same_row(row: Seq<Cell>, n: nat, keys: Seq<usize>, kept: Set<u128>, free: nat)
    requires
        n >= 1,
        fingerprint(row, keys) != 0,
        !kept.contains(fingerprint(row, keys)),
        free > 0,
    ensures
        unique_rows(Seq::new(n, |i: int| row), keys, kept, free) == seq![row],
{
    let rows = Seq::new(n, |i: int| row);
    let fp = fingerprint(row, keys);
    assert(rows[0] == row);
    lemma_unique_repeats(rows.skip(1), keys, kept.insert(fp), (free - 1) as nat);
    assert(seq![row] + Seq::<Seq<Cell>>::empty() =~= seq![row]);
}

/// Rows that differ from each other pass, all of them and in their order,
/// provided that their fingerprints differ from each other, none of them is
/// zero or kept yet, and there is room to keep them all.
pub proof fn lemma_unique_distinct_rows(rows: Seq<Seq<Cell>>, keys: Seq<usize>, kept: Set<u128>, free: nat)
    requires
        rows.len() <= free,
        forall|i: int|
            0 <= i < rows.len() ==> fingerprint(#[trigger] rows[i], keys) != 0 && !kept.contains(
                fingerprint(rows[i], keys),
            ),
        forall|i: int, j: int|
            0 <= i < j < rows.len() ==> fingerprint(#[trigger] rows[i], keys) != fingerprint(
                #[trigger] rows[j],
                keys,
            ),
    ensures
        unique_rows(rows, keys, kept, free) == rows,
    decreases rows.len(),
{
    if rows.len() > 0 {
        let fp = fingerprint(rows[0], keys);
        let tail = rows.skip(1);
        assert forall|i: int| 0 <= i < tail.len() implies fingerprint(#[trigger] tail[i], keys) != 0
            && !kept.insert(fp).contains(fingerprint(tail[i], keys)) by {
            assert(tail[i] == rows[i + 1]);
            assert(fingerprint(rows[0], keys) != fingerprint(rows[i + 1], keys));
        }
        assert forall|i: int, j: int| 0 <= i < j < tail.len() implies fingerprint(
            #[trigger] tail[i],
            keys,
        ) != fingerprint(#[trigger] tail[j], keys) by {
            assert(tail[i] == rows[i + 1]);
            assert(tail[j] == rows[j + 1]);
        }
        lemma_unique_distinct_rows(tail, keys, kept.insert(fp), (free - 1) as nat);
        assert(seq![rows[0]] + tail =~= rows);
    }
}

} // verus!
