use flatfile::ast::{eval, Expr, Value};
use flatfile::buf::{AppendBuf, ReadBuf};
use flatfile::err::{OpenError, SchemaReadError};
use flatfile::hashset::FingerprintSet;
use flatfile::mmapbuf::MmapBuf;
use flatfile::rel::{
    find_column, AnyRelation, ConcatRelation, EmptyRelation, FileRelation, Projection, Relation,
    Restriction,
};
use flatfile::schema2::{Schema, Schema2};
use flatfile::filebuf::{ReadChunk, WriteChunk};
use flatfile::row::Row;
use flatfile::types::{Column, ColumnType, ColumnValue, CompressionType};
use flatfile::unique::{fingerprint_of, push_key, UniqueRelation};
use flatfile::vecbuf::Vecbuf;
use flatfile::write2::{schema_read_row, schema_write, write_schema_v2};
use memmap::{Mmap, MmapMut};

fn map_of(bytes: &[u8]) -> Mmap {
    let mut m = MmapMut::map_anon(bytes.len()).unwrap();
    m.copy_from_slice(bytes);
    m.make_read_only().unwrap()
}

fn text(s: &str) -> ColumnValue {
    ColumnValue::String { v: s.to_string() }
}

fn u32v(v: u32) -> ColumnValue {
    ColumnValue::U32 { v }
}

fn u64v(v: u64) -> ColumnValue {
    ColumnValue::U64 { v }
}

fn seed_schema() -> Schema2 {
    let mut s = Schema2::new();
    s.add("a", ColumnType::String, false);
    s.add("b", ColumnType::String, false);
    s.add("c", ColumnType::U32le, false);
    s.add("d", ColumnType::U64le, false);
    s
}

fn seed_row(c: u32) -> Vec<ColumnValue> {
    vec![
        text("not_compressed"),
        text("aaaaaaaaaaaaaaaaaaaaaaaaaaaaaaaaaaaaaaaaaaaaaaaaaaa"),
        u32v(c),
        u64v(987),
    ]
}

fn file_bytes(schema: &Schema2, rows: &[Vec<ColumnValue>]) -> (Vec<u8>, Vec<usize>) {
    let mut vb = Vecbuf::new(1 << 16);
    write_schema_v2(&mut vb, schema);
    let mut ends = vec![vb.tell()];
    for row in rows {
        assert!(schema_write(&mut vb, row.as_slice(), schema));
        ends.push(vb.tell());
    }
    assert!(!vb.past_eof());
    (vb.head(vb.tell()), ends)
}

fn open(bytes: &[u8]) -> FileRelation {
    FileRelation::new(map_of(bytes), "memory").unwrap()
}

fn current_row(rel: &AnyRelation) -> Vec<ColumnValue> {
    (0..rel.length()).map(|i| rel.value(i).clone()).collect()
}

fn drain(rel: &mut AnyRelation) -> Vec<Vec<ColumnValue>> {
    let mut out = Vec::new();
    while rel.read() {
        out.push(current_row(rel));
    }
    assert!(!rel.read());
    out
}

fn numbers_schema() -> Schema2 {
    let mut s = Schema2::new();
    s.add("i32", ColumnType::U32le, false);
    s.add("i64", ColumnType::U64le, true);
    s.add("s", ColumnType::String, true);
    s
}

fn numbers_file(values: &[u32]) -> Vec<u8> {
    let rows: Vec<Vec<ColumnValue>> = values
        .iter()
        .map(|v| vec![u32v(*v), u64v(*v as u64 * 10), text(&format!("row{}", v))])
        .collect();
    file_bytes(&numbers_schema(), &rows).0
}

#[test]
fn seed_file_reads_back_three_rows() {
    let schema = seed_schema();
    let rows = vec![seed_row(123), seed_row(123), seed_row(123)];
    let (bytes, _) = file_bytes(&schema, &rows);
    let mut rel = AnyRelation::File(open(&bytes));
    assert_eq!(rel.length(), 4);
    assert_eq!(rel.name(0), "a");
    assert_eq!(rel.name(3), "d");
    assert_eq!(rel.ctype(2), ColumnType::U32le);
    assert!(!rel.nullable(1));
    assert_eq!(drain(&mut rel), rows);
}

#[test]
fn seed_file_with_damaged_second_row_yields_first_and_third() {
    let schema = seed_schema();
    let rows = vec![seed_row(1), seed_row(2), seed_row(3)];
    let (mut bytes, ends) = file_bytes(&schema, &rows);
    let last_of_row_2 = ends[2] - 1;
    bytes[last_of_row_2] ^= 0xFF;
    let mut rel = AnyRelation::File(open(&bytes));
    let got = drain(&mut rel);
    assert_eq!(got.len(), 2);
    assert_eq!(got[0], rows[0]);
    assert_eq!(got[1], rows[2]);
}

#[test]
fn damaged_middle_row_is_skipped() {
    let schema = numbers_schema();
    let rows: Vec<Vec<ColumnValue>> =
        (1..=3).map(|v| vec![u32v(v), ColumnValue::Null, text("x")]).collect();
    let (mut bytes, ends) = file_bytes(&schema, &rows);
    for k in 1..=4 {
        bytes[ends[2] - k] ^= 0xFF;
    }
    let mut rel = AnyRelation::File(open(&bytes));
    assert!(rel.read());
    assert_eq!(current_row(&rel), rows[0]);
    assert!(rel.read());
    assert_eq!(current_row(&rel), rows[2]);
    assert!(!rel.read());
    assert!(!rel.read());
}

#[test]
fn rows_behind_a_damaged_first_row_are_aligned() {
    let schema = seed_schema();
    let rows = vec![seed_row(10), seed_row(20), seed_row(30)];
    let (mut bytes, ends) = file_bytes(&schema, &rows);
    bytes[ends[1] - 2] ^= 0x01;
    let mut rel = AnyRelation::File(open(&bytes));
    assert_eq!(drain(&mut rel), vec![rows[1].clone(), rows[2].clone()]);
}

#[test]
fn row_reader_reports_each_error() {
    let schema = seed_schema();
    let (bytes, ends) = file_bytes(&schema, &[seed_row(5)]);
    let row = &bytes[ends[0]..];
    let mut values = vec![ColumnValue::Null; 4];

    let read = |data: &[u8], values: &mut Vec<ColumnValue>| {
        let mut vb = Vecbuf::new(data.len());
        for b in data {
            vb.writeb(*b);
        }
        vb.seek(0);
        let r = schema_read_row(&mut vb, values, &schema);
        (r, vb.tell())
    };

    assert_eq!(read(row, &mut values), (Ok(()), row.len()));
    assert_eq!(values, seed_row(5));

    let kept = vec![u32v(1)];
    let mut untouched = kept.clone();
    assert_eq!(read(&[], &mut untouched).0, Err(SchemaReadError::Eof));
    assert_eq!(untouched, kept);

    assert_eq!(read(&row[..row.len() - 1], &mut untouched).0, Err(SchemaReadError::UnexpectedEof));
    assert_eq!(read(&row[..3], &mut untouched).0, Err(SchemaReadError::UnexpectedEof));
    assert_eq!(untouched, kept);

    let mut flipped = row.to_vec();
    flipped[5] ^= 0x20;
    assert_eq!(read(&flipped, &mut untouched), (Err(SchemaReadError::ChecksumError), row.len()));
    assert_eq!(untouched, kept);
}

fn framed(payload: &[u8]) -> Vec<u8> {
    let mut vb = Vecbuf::new(payload.len() + 4);
    let sum = {
        let mut w = flatfile::adlerbuf::AppendBufAdler32::new(&mut vb);
        for b in payload {
            w.writeb(*b);
        }
        w.hash()
    };
    flatfile::scalar::write_dd_le(&mut vb, sum);
    vb.head(vb.tell())
}

#[test]
fn well_framed_group_with_bad_text_is_reported_and_stepped_over() {
    let mut schema = Schema2::new();
    schema.add("s", ColumnType::String, true);
    let mut values = vec![ColumnValue::Null];

    let mut data = framed(&[0x00, 0x00, 0x02, 0xFF, 0xFE]);
    let bad_len = data.len();
    data.extend(framed(&[0x00, b'B', 0x01, b'x']));
    let unknown_len = data.len();
    data.extend(framed(&[0x00, 0x00, 0x02, b'o', b'k']));
    data.extend(framed(&[0x01]));

    let mut vb = Vecbuf::new(data.len());
    for b in &data {
        vb.writeb(*b);
    }
    vb.seek(0);
    assert_eq!(schema_read_row(&mut vb, &mut values, &schema), Err(SchemaReadError::BadUtf8));
    assert_eq!(vb.tell(), bad_len);
    assert_eq!(
        schema_read_row(&mut vb, &mut values, &schema),
        Err(SchemaReadError::DecompressionError)
    );
    assert_eq!(vb.tell(), unknown_len);
    assert_eq!(schema_read_row(&mut vb, &mut values, &schema), Ok(()));
    assert_eq!(values, vec![text("ok")]);
    assert_eq!(schema_read_row(&mut vb, &mut values, &schema), Ok(()));
    assert_eq!(values, vec![ColumnValue::Null]);
    assert_eq!(schema_read_row(&mut vb, &mut values, &schema), Err(SchemaReadError::Eof));

    let mut rel = AnyRelation::File({
        let mut file = Vecbuf::new(64);
        write_schema_v2(&mut file, &schema);
        let mut bytes = file.head(file.tell());
        bytes.extend(&data);
        open(&bytes)
    });
    assert_eq!(drain(&mut rel), vec![vec![text("ok")], vec![ColumnValue::Null]]);
}

#[test]
fn null_bits_follow_the_columns() {
    let mut schema = Schema2::new();
    for i in 0..10 {
        schema.add(&format!("c{}", i), ColumnType::U32le, true);
    }
    let mut row: Vec<ColumnValue> = (0..10).map(|i| u32v(i)).collect();
    row[1] = ColumnValue::Null;
    row[7] = ColumnValue::Null;
    row[9] = ColumnValue::Null;
    let mut vb = Vecbuf::new(256);
    assert!(schema_write(&mut vb, row.as_slice(), &schema));
    let bytes = vb.head(vb.tell());
    assert_eq!(bytes.len(), (1 + 6 * 4 + 4) + (1 + 4 + 4));
    assert_eq!(bytes[0], 0b1000_0010);
    assert_eq!(bytes[1 + 6 * 4 + 4], 0b0000_0010);
    vb.seek(0);
    let mut back = Vec::new();
    assert_eq!(schema_read_row(&mut vb, &mut back, &schema), Ok(()));
    assert_eq!(back, row);
    for i in 0..10 {
        let group = &bytes[if i < 8 { 0 } else { 1 + 6 * 4 + 4 }];
        assert_eq!(back[i].is_null(), group >> (i % 8) & 1 == 1);
    }
}

#[test]
fn rows_that_do_not_fit_the_schema_are_refused() {
    let schema = seed_schema();
    let mut vb = Vecbuf::new(256);
    assert!(!schema_write(&mut vb, &seed_row(1)[..3], &schema));
    let mut with_null = seed_row(1);
    with_null[0] = ColumnValue::Null;
    assert!(!schema_write(&mut vb, with_null.as_slice(), &schema));
    let mut wrong_type = seed_row(1);
    wrong_type[2] = u64v(1);
    assert!(!schema_write(&mut vb, wrong_type.as_slice(), &schema));
    assert_eq!(vb.tell(), 0);
    assert!(schema_write(&mut vb, seed_row(1).as_slice(), &schema));
    assert!(vb.tell() > 0);
}

#[test]
fn schema_header_is_laid_out_byte_for_byte() {
    let mut s = Schema2::new();
    s.add("id", ColumnType::U32le, false);
    s.add("n", ColumnType::U64le, true);
    s.add("t", ColumnType::String, true);
    let mut vb = Vecbuf::new(64);
    write_schema_v2(&mut vb, &s);
    assert_eq!(
        vb.head(vb.tell()),
        vec![
            b'2', 3, 0, 2, b'i', b'd', b'4', 0, 0, 1, b'n', b'8', b'N', 0, 1, b't', b'S', b'N'
        ]
    );
}

#[test]
fn malformed_headers_are_refused() {
    let read = |data: &[u8]| {
        let mut vb = Vecbuf::new(data.len());
        for b in data {
            vb.writeb(*b);
        }
        vb.seek(0);
        flatfile::write2::read_schema_v2(&mut vb).map(|s| s.len())
    };
    assert_eq!(read(&[b'2', 1, 0, 1, b'a', b'4', 0]), Some(1));
    assert_eq!(read(&[b'1', 1, 0, 1, b'a', b'4', 0]), None);
    assert_eq!(read(&[b'2', 1, 0, 1, b'a', b'x', 0]), None);
    assert_eq!(read(&[b'2', 1, 0, 5, b'a']), None);
    let s = {
        let mut vb = Vecbuf::new(8);
        for b in [b'2', 1, 0, 1, b'a', b'4', b'?'] {
            vb.writeb(b);
        }
        vb.seek(0);
        flatfile::write2::read_schema_v2(&mut vb).unwrap()
    };
    assert!(!s.nullable(0));
}

#[test]
fn opening_fails_on_bad_header() {
    assert!(matches!(FileRelation::new(map_of(&[b'9', 0]), "x"), Err(OpenError::SchemaParseError)));
}

#[test]
fn file_without_columns_has_no_rows() {
    let schema = Schema2::new();
    let mut vb = Vecbuf::new(16);
    write_schema_v2(&mut vb, &schema);
    let mut bytes = vb.head(vb.tell());
    bytes.extend([1, 2, 3]);
    let mut rel = AnyRelation::File(open(&bytes));
    assert_eq!(rel.length(), 0);
    assert!(!rel.read());
}

#[test]
fn mmap_reader_reads_forward_and_seeks() {
    let mut m = MmapBuf::new(map_of(&[10, 20, 30]));
    assert_eq!(m.len(), 3);
    assert_eq!(m.readb(), 10);
    assert_eq!(m.seek(2), 2);
    assert_eq!(m.readb(), 30);
    assert!(!m.past_eof());
    assert_eq!(m.readb(), 0);
    assert!(m.past_eof());
    assert_eq!(m.seek(99), 3);
    assert!(!m.past_eof());
}

#[test]
fn projection_picks_and_orders_columns() {
    let mut schema = Schema2::new();
    schema.add("a", ColumnType::U32le, false);
    schema.add("b", ColumnType::U64le, false);
    schema.add("c", ColumnType::String, false);
    let rows = vec![vec![u32v(1), u64v(2), text("three")], vec![u32v(4), u64v(5), text("six")]];
    let (bytes, _) = file_bytes(&schema, &rows);
    let base = Box::new(AnyRelation::File(open(&bytes)));
    let p = Projection::new(base, vec!["c".to_string(), "a".to_string()]).unwrap();
    let mut rel = AnyRelation::Projection(p);
    assert_eq!(rel.length(), 2);
    assert_eq!(rel.name(0), "c");
    assert_eq!(rel.name(1), "a");
    assert_eq!(rel.ctype(0), ColumnType::String);
    assert!(rel.read());
    assert_eq!(rel.value(0), &text("three"));
    assert_eq!(rel.value(1), &u32v(1));
    assert!(rel.read());
    assert_eq!(current_row(&rel), vec![text("six"), u32v(4)]);
    assert!(!rel.read());
}

#[test]
fn projection_on_unknown_column_is_refused() {
    let base = Box::new(AnyRelation::File(open(&numbers_file(&[1]))));
    assert!(Projection::new(base, vec!["i32".to_string(), "nope".to_string()]).is_none());
}

#[test]
fn names_bind_to_the_first_column_that_has_them() {
    let mut schema = Schema2::new();
    schema.add("x", ColumnType::U32le, false);
    schema.add("x", ColumnType::U64le, false);
    let (bytes, _) = file_bytes(&schema, &[vec![u32v(7), u64v(8)]]);
    let rel = AnyRelation::File(open(&bytes));
    assert_eq!(find_column(&rel, "x"), Some(0));
    assert_eq!(find_column(&rel, "y"), None);
    assert_eq!(schema.find("x"), Some(0));
}

#[test]
fn unique_lets_the_same_row_through_once() {
    let base = Box::new(AnyRelation::File(open(&numbers_file(&[7, 7, 7, 7, 7]))));
    let u = UniqueRelation::new(base, vec!["i32".to_string(), "s".to_string()]).unwrap();
    let mut rel = AnyRelation::Unique(u);
    let got = drain(&mut rel);
    assert_eq!(got, vec![vec![u32v(7), u64v(70), text("row7")]]);
}

#[test]
fn unique_lets_distinct_rows_through_in_order() {
    let values = [5, 3, 9, 1, 8];
    let base = Box::new(AnyRelation::File(open(&numbers_file(&values))));
    let u = UniqueRelation::new(base, vec!["i32".to_string()]).unwrap();
    let mut rel = AnyRelation::Unique(u);
    let got: Vec<ColumnValue> = drain(&mut rel).into_iter().map(|r| r[0].clone()).collect();
    assert_eq!(got, values.iter().map(|v| u32v(*v)).collect::<Vec<_>>());
}

#[test]
fn unique_tells_rows_apart_by_key_columns_only() {
    let schema = numbers_schema();
    let rows = vec![
        vec![u32v(1), u64v(1), text("a")],
        vec![u32v(1), u64v(2), text("b")],
        vec![u32v(2), u64v(1), text("a")],
        vec![u32v(1), ColumnValue::Null, ColumnValue::Null],
    ];
    let (bytes, _) = file_bytes(&schema, &rows);
    let base = Box::new(AnyRelation::File(open(&bytes)));
    let mut rel = AnyRelation::Unique(UniqueRelation::new(base, vec!["i32".to_string()]).unwrap());
    assert_eq!(drain(&mut rel), vec![rows[0].clone(), rows[2].clone()]);
}

#[test]
fn fingerprint_is_the_digest_low_byte_first() {
    let mut d = [0u8; 16];
    d[0] = 1;
    d[15] = 0x80;
    assert_eq!(fingerprint_of(&d), (0x80u128 << 120) + 1);
    let mut key = Vec::new();
    push_key(&mut key, &u32v(0x01020304));
    push_key(&mut key, &u64v(5));
    push_key(&mut key, &text("hi"));
    push_key(&mut key, &ColumnValue::Null);
    assert_eq!(key, vec![4, 3, 2, 1, 5, 0, 0, 0, 0, 0, 0, 0, b'h', b'i', 0]);
}

#[test]
fn unique_row_depends_on_the_digest() {
    let mut schema = Schema2::new();
    schema.add("k", ColumnType::String, false);
    let rows = vec![vec![text("ab")], vec![text("a")], vec![text("ab")]];
    let (bytes, _) = file_bytes(&schema, &rows);
    let base = Box::new(AnyRelation::File(open(&bytes)));
    let mut u = UniqueRelation::new(base, vec!["k".to_string()]).unwrap();
    assert!(u.read());
    let first = u.current_fingerprint();
    assert!(u.read());
    let second = u.current_fingerprint();
    assert_ne!(first, second);
    assert_ne!(first, 0);
    assert!(!u.read());
}

#[test]
fn fingerprint_of_no_columns_is_the_digest_of_nothing() {
    let base = Box::new(AnyRelation::File(open(&numbers_file(&[1]))));
    let mut u = UniqueRelation::new(base, Vec::new()).unwrap();
    assert!(u.read());
    let digest_of_nothing: [u8; 16] = [
        0x7f, 0x9c, 0x2b, 0xa4, 0xe8, 0x8f, 0x82, 0x7d, 0x61, 0x60, 0x45, 0x50, 0x76, 0x05, 0x85,
        0x3e,
    ];
    assert_eq!(u.current_fingerprint(), u128::from_le_bytes(digest_of_nothing));
}

#[test]
fn fingerprint_set_finds_what_it_kept() {
    let mut set = FingerprintSet::new(5);
    assert!(!set.note(7));
    assert!(set.note(7));
    assert!(!set.note(12));
    assert!(!set.note(17));
    assert!(set.note(12));
    assert!(set.note(17));
    assert!(!set.note(0));
    assert!(!set.note(0));
    assert!(!set.note(4));
    assert!(!set.note(9));
    assert!(set.note(9));
    assert!(!set.note(100));
    assert!(!set.note(100));
}

#[test]
fn test_concat() {
    let r1 = Box::new(AnyRelation::File(open(&numbers_file(&[1, 4, 4]))));
    let r2 = Box::new(AnyRelation::File(open(&numbers_file(&[2, 4]))));
    let mut co = ConcatRelation::new();
    assert!(co.add(r1));
    assert!(co.add(r2));
    assert_eq!(co.size(), 2);
    let prj = Projection::new(
        Box::new(AnyRelation::Concat(co)),
        vec!["i32".to_owned(), "i64".to_owned(), "s".to_owned()],
    )
    .unwrap();

    let e = Expr::Equal { l: Value::Ref { col: 0 }, r: Value::Val { val: ColumnValue::U32 { v: 4 } } };

    let mut rr = Restriction::new(Box::new(AnyRelation::Projection(prj)), e);
    let mut count = 0;
    while rr.read() {
        assert_eq!(rr.value(0), &u32v(4));
        assert_eq!(rr.length(), 3);
        count += 1;
    }
    assert_eq!(count, 3);
}

#[test]
fn concat_yields_members_in_order() {
    let mut co = ConcatRelation::new();
    assert!(!co.read());
    assert!(co.add(Box::new(AnyRelation::File(open(&numbers_file(&[1, 2]))))));
    assert!(co.add(Box::new(AnyRelation::File(open(&numbers_file(&[]))))));
    assert!(co.add(Box::new(AnyRelation::File(open(&numbers_file(&[3, 4]))))));
    let mut rel = AnyRelation::Concat(co);
    assert_eq!(rel.length(), 3);
    let got: Vec<ColumnValue> = drain(&mut rel).into_iter().map(|r| r[0].clone()).collect();
    assert_eq!(got, vec![u32v(1), u32v(2), u32v(3), u32v(4)]);
}

#[test]
fn concat_refuses_members_of_another_shape() {
    let mut other = Schema2::new();
    other.add("i32", ColumnType::U64le, false);
    other.add("i64", ColumnType::U64le, true);
    other.add("s", ColumnType::String, true);
    let mut renamed = Schema2::new();
    renamed.add("i32", ColumnType::U32le, false);
    renamed.add("x", ColumnType::U64le, true);
    renamed.add("s", ColumnType::String, true);
    let mut relaxed = Schema2::new();
    relaxed.add("i32", ColumnType::U32le, true);
    relaxed.add("i64", ColumnType::U64le, false);
    relaxed.add("s", ColumnType::String, true);

    let mut co = ConcatRelation::new();
    assert!(co.add(Box::new(AnyRelation::File(open(&numbers_file(&[1]))))));
    assert!(!co.add(Box::new(AnyRelation::File(open(&file_bytes(&other, &[]).0)))));
    assert!(!co.add(Box::new(AnyRelation::File(open(&file_bytes(&renamed, &[]).0)))));
    assert!(!co.add(Box::new(AnyRelation::File(open(&file_bytes(&seed_schema(), &[]).0)))));
    assert!(co.add(Box::new(AnyRelation::File(open(&file_bytes(&relaxed, &[]).0)))));
    assert_eq!(co.size(), 2);
    assert!(!co.nullable(0));
    assert!(co.read());
    assert!(!co.read());
}

#[test]
fn restriction_keeps_matching_rows() {
    let base = Box::new(AnyRelation::File(open(&numbers_file(&[1, 4, 4, 2, 4]))));
    let e = Expr::Equal { l: Value::Ref { col: 0 }, r: Value::Val { val: u32v(4) } };
    assert!(e.fits(3));
    assert!(!e.fits(0));
    let mut rel = AnyRelation::Restriction(Restriction::new(base, e));
    let got = drain(&mut rel);
    assert_eq!(got.len(), 3);
    assert!(got.iter().all(|r| r[0] == u32v(4)));
}

#[test]
fn predicates_compare_as_described() {
    let mut schema = Schema2::new();
    schema.add("n", ColumnType::U32le, true);
    schema.add("w", ColumnType::U64le, true);
    schema.add("t", ColumnType::String, true);
    schema.add("z", ColumnType::U32le, true);
    let (bytes, _) = file_bytes(&schema, &[vec![u32v(4), u64v(4), text("4"), ColumnValue::Null]]);
    let mut rel = AnyRelation::File(open(&bytes));
    assert!(rel.read());
    let col = |c: usize| Value::Ref { col: c };
    let lit = |v: ColumnValue| Value::Val { val: v };
    let check = |e: Expr| eval(&rel, &e);

    assert!(check(Expr::Equal { l: col(0), r: col(1) }));
    assert!(check(Expr::Equal { l: col(1), r: lit(u32v(4)) }));
    assert!(!check(Expr::Equal { l: col(0), r: col(2) }));
    assert!(check(Expr::NotEqual { l: col(0), r: col(2) }));
    assert!(check(Expr::Equal { l: col(2), r: lit(text("4")) }));
    assert!(!check(Expr::Equal { l: col(3), r: lit(ColumnValue::Null) }));
    assert!(check(Expr::NotEqual { l: col(3), r: col(3) }));
    assert!(check(Expr::IsNull { l: col(3) }));
    assert!(!check(Expr::IsNull { l: col(0) }));
    assert!(check(Expr::NotNull { l: col(0) }));
    assert!(!check(Expr::NotNull { l: col(3) }));
    let yes = || Box::new(Expr::NotNull { l: Value::Ref { col: 0 } });
    let no = || Box::new(Expr::IsNull { l: Value::Ref { col: 0 } });
    assert!(check(Expr::And { l: yes(), r: yes() }));
    assert!(!check(Expr::And { l: yes(), r: no() }));
    assert!(check(Expr::Or { l: no(), r: yes() }));
    assert!(check(Expr::Or { l: yes(), r: no() }));
    assert!(!check(Expr::Or { l: no(), r: no() }));
    assert!(check(Expr::Not { l: no() }));
}

#[test]
fn rows_keep_values_under_their_columns() {
    let column = |name: &str, ctype: ColumnType| Column {
        name: name.to_string(),
        ctype,
        meaning: String::new(),
        compression: CompressionType::Raw,
        nullable: false,
    };
    let columns = vec![column("a", ColumnType::String), column("b", ColumnType::U32le)];
    let mut row = Row::new(&columns);
    assert_eq!(row.geti(0), &ColumnValue::Null);
    row.push(1, u32v(9));
    row.push(0, text("x"));
    assert_eq!(row.geti(0), &text("x"));
    assert_eq!(row.geti(1), &u32v(9));
    assert_eq!(row.geti(2), &ColumnValue::Null);
    assert_eq!(row.getn("b"), &u32v(9));
    assert_eq!(row.getn("c"), &ColumnValue::Null);
}

#[test]
fn chunked_reading_and_writing_keep_the_bytes() {
    let mut file: Vec<u8> = Vec::new();
    let mut w = WriteChunk::new(4);
    for b in [100u8, 101, 102, 103, 104, 105, 106, 107, 0xEE, 0xFF] {
        if w.is_full() {
            file.extend(w.pending());
            w.clear();
        }
        w.put(b);
    }
    assert_eq!(w.pending(), vec![0xEE, 0xFF]);
    file.extend(w.pending());
    w.clear();
    assert!(w.pending().is_empty());

    let mut r = ReadChunk::new(4);
    assert_eq!(r.chunk_size(), 4);
    let mut at = 0;
    let mut got = Vec::new();
    for _ in 0..12 {
        if r.wants_refill() {
            let end = (at + 4).min(file.len());
            r.refill(Some(&file[at..end]));
            at = end;
        }
        got.push((r.take(), r.drained(), r.beyond_end()));
    }
    assert_eq!(got[0], (100, false, false));
    assert_eq!(got[8], (0xEE, false, false));
    assert_eq!(got[9], (0xFF, true, false));
    assert_eq!(got[10], (0, true, true));
    assert_eq!(got[11], (0, true, true));
    let mut failed = ReadChunk::new(4);
    failed.refill(None);
    assert!(failed.drained());
    assert_eq!(failed.take(), 0);
}

#[test]
fn empty_relation_has_nothing() {
    let mut e = EmptyRelation::new();
    assert_eq!(e.length(), 0);
    assert!(!e.read());
    assert!(e.is_described());
}
