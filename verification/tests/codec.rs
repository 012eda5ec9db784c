use flatfile::adlerbuf::{AppendBufAdler32, ReadBufAdler32};
use flatfile::buf::{AppendBuf, ReadBuf};
use flatfile::err::SchemaReadError;
use flatfile::scalar::{
    flush_buf, read_db, read_dd_le, read_dq_le, read_dw_le, read_varint, write_db, write_dd_le, write_dq_le,
    write_dw_le, write_varint,
};
use flatfile::schema2::{Schema, Schema2};
use flatfile::types::{ColumnType, ColumnValue, CompressionType};
use flatfile::varstring::{decode_payload, finish_text, pack, read_varstring, write_varstring};
use flatfile::vecbuf::Vecbuf;
use flatfile::write2::{read_schema_v2, schema_read_row, schema_write, write_schema_v2};

#[test]
fn it_works() {
    assert_eq!(2 + 2, 4);
}

#[test]
fn write2_test_overflow() {
    let mut sb = Vecbuf::new(8);
    for _n in 0..sb.len() {
        sb.writeb(1 as u8);
    }
    assert!(!sb.past_eof());
    sb.writeb(1 as u8);
    assert!(sb.past_eof());
}

#[test]
fn write2_test_varint() {
    let mut sb = Vecbuf::new(128);
    {
        sb.seek(0);
        let u: usize = 0x12;
        write_varint(&mut sb, u);
        sb.seek(0);
        let v: usize = read_varint(&mut sb);
        assert!(u == v);
    }
    {
        sb.seek(0);
        let u: usize = 0x80;
        write_varint(&mut sb, u);
        sb.seek(0);
        let v: usize = read_varint(&mut sb);
        assert!(u == v);
    }
    {
        sb.seek(0);
        let u: usize = 0xFF;
        write_varint(&mut sb, u);
        sb.seek(0);
        let v: usize = read_varint(&mut sb);
        assert!(u == v);
    }
    {
        sb.seek(0);
        let u: usize = 0x17f;
        write_varint(&mut sb, u);
        sb.seek(0);
        let v: usize = read_varint(&mut sb);
        assert!(u == v);
    }
    {
        sb.seek(0);
        let u: u16 = 0x55AA;
        write_dw_le(&mut sb, u);
        sb.seek(0);
        let v: u16 = read_dw_le(&mut sb);
        assert!(u == v);
    }
    {
        sb.seek(0);
        let u: u32 = 0x55AA99CC;
        write_dd_le(&mut sb, u);
        sb.seek(0);
        let v: u32 = read_dd_le(&mut sb);
        assert!(u == v);
    }
    {
        sb.seek(0);
        let u: u64 = 0x55AA99EE;
        write_dq_le(&mut sb, u);
        sb.seek(0);
        let v: u64 = read_dq_le(&mut sb);
        assert!(u == v);
    }
}

#[test]
fn write2_test_varstring() {
    let mut sb = Vecbuf::new(1024);
    {
        sb.seek(0);
        let u = "hello_world";
        write_varstring(&mut sb, u);
        sb.seek(0);
        let v = read_varstring(&mut sb);
        assert!(u == v.unwrap());
    }
}

#[test]
fn write2_test_schema_rw() {
    let mut s = Schema2::new();
    s.add("first", ColumnType::U32le, false);
    s.add("second", ColumnType::U64le, true);
    s.add("third", ColumnType::String, true);
    s.add("fourth", ColumnType::String, false);

    let mut vb = Vecbuf::new(1024);
    write_schema_v2(&mut vb, &s);

    vb.seek(0);
    let sch = read_schema_v2(&mut vb).unwrap();

    for n in 0..3 {
        assert!(s.name(n) == sch.name(n));
        assert!(s.ctype(n) == sch.ctype(n));
        assert!(s.nullable(n) == sch.nullable(n));
    }
    assert!(sch.name(0) == "first");
    assert!(sch.name(1) == "second");
}

#[test]
fn write2_test_schema_write() {
    let mut sch = Schema2::new();
    sch.add("first", ColumnType::U32le, false);
    sch.add("second", ColumnType::U64le, false);
    sch.add("third", ColumnType::String, false);
    sch.add("fourth", ColumnType::String, false);
    sch.add("fifth", ColumnType::String, true);

    let cv1 = ColumnValue::U32 { v: 0x12345678 };
    let cv2 = ColumnValue::U64 { v: 0x22334455 };
    let cv3 = ColumnValue::String { v: "a_string".to_string() };
    let cv4 = ColumnValue::String {
        v: "aaaaaaaaaaaaaaaaaaaaaaaaaaaaaaaaaaaaaaaaaaaaaaaaaaaaaa".to_string(),
    };
    let cv5 = ColumnValue::Null;
    let mut vbuf = Vecbuf::new(1024);
    let mut vec = Vec::new();
    vec.push(cv1);
    vec.push(cv2);
    vec.push(cv3);
    vec.push(cv4);
    vec.push(cv5);
    let wr = schema_write(&mut vbuf, vec.as_slice(), &sch);
    assert!(wr == true);

    vbuf.seek(0);

    let mut rvec = Vec::new();
    rvec.push(ColumnValue::Null);
    rvec.push(ColumnValue::Null);
    rvec.push(ColumnValue::Null);
    rvec.push(ColumnValue::Null);
    rvec.push(ColumnValue::Null);
    let rr = schema_read_row(&mut vbuf, &mut rvec, &sch);
    assert!(rr == Ok(()));

    assert!(vec[0] == rvec[0]);
    assert!(vec[1] == rvec[1]);
    assert!(vec[2] == rvec[2]);
    assert!(vec[3] == rvec[3]);
    assert!(vec[4] == rvec[4]);
}

#[test]
fn varint_round_trips_for_edge_values() {
    let values: Vec<usize> = vec![0, 1, 0x7F, 0x80, 0xFF, 0x17F, 1 << 31, (1 << 63) - 1];
    for u in values {
        let mut sb = Vecbuf::new(16);
        write_varint(&mut sb, u);
        sb.seek(0);
        assert_eq!(read_varint(&mut sb), u);
    }
}

#[test]
fn little_endian_round_trips_for_edge_values() {
    let values: Vec<u64> = vec![0, 1, 0x7F, 0x80, 0xFF, 0x17F, 1 << 31, (1 << 63) - 1];
    for u in values {
        let mut sb = Vecbuf::new(16);
        write_dq_le(&mut sb, u);
        sb.seek(0);
        assert_eq!(read_dq_le(&mut sb), u);
        sb.seek(0);
        write_dd_le(&mut sb, u as u32);
        sb.seek(0);
        assert_eq!(read_dd_le(&mut sb), u as u32);
        sb.seek(0);
        write_dw_le(&mut sb, u as u16);
        sb.seek(0);
        assert_eq!(read_dw_le(&mut sb), u as u16);
    }
}

#[test]
fn varint_of_zero_is_one_zero_byte() {
    let mut sb = Vecbuf::new(4);
    sb.writeb(0xEE);
    sb.seek(0);
    write_varint(&mut sb, 0);
    assert_eq!(sb.tell(), 1);
    assert_eq!(sb.head(1), vec![0u8]);
}

#[test]
fn varint_bytes_are_seven_bits_low_group_first() {
    let mut sb = Vecbuf::new(8);
    write_varint(&mut sb, 0x17F);
    assert_eq!(sb.head(sb.tell()), vec![0xFFu8, 0x02]);
    sb.seek(0);
    write_varint(&mut sb, 300);
    assert_eq!(sb.head(sb.tell()), vec![0xACu8, 0x02]);
}

#[test]
fn little_endian_bytes_are_low_byte_first() {
    let mut sb = Vecbuf::new(16);
    write_dw_le(&mut sb, 0x55AA);
    write_dd_le(&mut sb, 0x11223344);
    write_dq_le(&mut sb, 0x0102030405060708);
    write_db(&mut sb, 0x99);
    assert_eq!(
        sb.head(sb.tell()),
        vec![0xAAu8, 0x55, 0x44, 0x33, 0x22, 0x11, 8, 7, 6, 5, 4, 3, 2, 1, 0x99]
    );
    sb.seek(0);
    assert_eq!(read_db(&mut sb), 0xAA);
}

#[test]
fn overlong_varint_reads_as_largest_value() {
    let mut sb = Vecbuf::new(16);
    for _ in 0..11 {
        sb.writeb(0xFF);
    }
    sb.writeb(0x01);
    sb.seek(0);
    assert_eq!(read_varint(&mut sb), usize::MAX);
    assert_eq!(sb.tell(), 12);
}

#[test]
fn reading_past_the_end_returns_zero_and_raises_the_flag() {
    let mut sb = Vecbuf::new(2);
    sb.writeb(7);
    sb.writeb(9);
    sb.seek(0);
    assert_eq!(sb.readb(), 7);
    assert_eq!(sb.readb(), 9);
    assert!(!sb.past_eof());
    assert_eq!(sb.readb(), 0);
    assert!(sb.past_eof());
}

#[test]
fn adler_wrappers_start_at_one_and_agree() {
    let mut sb = Vecbuf::new(16);
    let written = {
        let mut w = AppendBufAdler32::new(&mut sb);
        assert_eq!(w.hash(), 1);
        for b in b"Wikipedia" {
            w.writeb(*b);
        }
        w.hash()
    };
    assert_eq!(written, 0x11E60398);
    sb.seek(0);
    let read = {
        let mut r = ReadBufAdler32::new(&mut sb);
        assert_eq!(r.hash(), 1);
        for _ in 0..9 {
            r.readb();
        }
        r.hash()
    };
    assert_eq!(read, 0x11E60398);
}

#[test]
fn short_string_is_stored_raw() {
    let mut sb = Vecbuf::new(64);
    write_varstring(&mut sb, "not_compressed");
    let bytes = sb.head(sb.tell());
    assert_eq!(bytes[0], 0x00);
    assert_eq!(bytes[1], 14);
    assert_eq!(&bytes[2..], b"not_compressed");
    assert_eq!(bytes.len(), 14 + 2);
}

#[test]
fn repetitive_string_is_stored_as_lz4() {
    let s = "aaaaaaaaaaaaaaaaaaaaaaaaaaaaaaaaaaaaaaaaaaaaaaaaaaa";
    let mut sb = Vecbuf::new(128);
    write_varstring(&mut sb, s);
    let bytes = sb.head(sb.tell());
    assert_eq!(bytes[0], b'L');
    assert!(bytes.len() < s.len() + 2);
    sb.seek(0);
    assert_eq!(read_varstring(&mut sb), Ok(s.to_string()));
}

#[test]
fn long_string_is_stored_as_zstd() {
    let s: String = (0..8192).map(|_| "X").collect();
    let mut sb = Vecbuf::new(16384);
    write_varstring(&mut sb, &s);
    let bytes = sb.head(sb.tell());
    assert_eq!(bytes[0], b'Z');
    assert!(bytes.len() < s.len() + 2);
    sb.seek(0);
    assert_eq!(read_varstring(&mut sb), Ok(s));
}

#[test]
fn strings_of_many_lengths_round_trip() {
    let mut n = 1;
    while n <= 8192 {
        let x: String = (0..n).map(|_| "X").collect();
        let y: String = (0..n).map(|i| if i % 3 == 0 { "Y" } else { "é" }).collect();
        let mut sb = Vecbuf::new(65536);
        write_varstring(&mut sb, x.as_str());
        write_varstring(&mut sb, y.as_str());
        sb.seek(0);
        assert_eq!(read_varstring(&mut sb), Ok(x));
        assert_eq!(read_varstring(&mut sb), Ok(y));
        n += 1024;
    }
}

#[test]
fn pack_picks_the_compressor_by_length() {
    let short = vec![b'a'; 100];
    let (mark, cand) = pack(&short);
    assert_eq!(mark, CompressionType::Lz4.marker());
    assert_eq!(decode_payload(mark, cand.unwrap()), Ok("a".repeat(100)));
    let long = vec![b'a'; 4096];
    let (mark, cand) = pack(&long);
    assert_eq!(mark, CompressionType::Zstd.marker());
    let packed = cand.unwrap();
    assert_ne!(packed, long);
    assert_eq!(decode_payload(mark, packed), Ok("a".repeat(4096)));
}

#[test]
fn markers_are_zero_l_and_z() {
    assert_eq!(CompressionType::Raw.marker(), 0x00);
    assert_eq!(CompressionType::Lz4.marker(), b'L');
    assert_eq!(CompressionType::Zstd.marker(), b'Z');
    assert_eq!(CompressionType::from_marker(b'L'), Some(CompressionType::Lz4));
    assert_eq!(CompressionType::from_marker(b'B'), None);
}

#[test]
fn unknown_marker_is_a_decompression_error() {
    assert_eq!(decode_payload(b'B', vec![1, 2, 3]), Err(SchemaReadError::DecompressionError));
    let mut sb = Vecbuf::new(8);
    sb.writeb(b'B');
    sb.writeb(2);
    sb.writeb(b'h');
    sb.writeb(b'i');
    sb.writeb(0x77);
    sb.seek(0);
    assert_eq!(read_varstring(&mut sb), Err(SchemaReadError::DecompressionError));
    assert_eq!(sb.readb(), 0x77);
}

#[test]
fn garbage_under_a_compression_marker_is_a_decompression_error() {
    assert_eq!(decode_payload(b'L', vec![1, 2, 3]), Err(SchemaReadError::DecompressionError));
    assert_eq!(decode_payload(b'Z', vec![1, 2, 3]), Err(SchemaReadError::DecompressionError));
    assert_eq!(finish_text(None), Err(SchemaReadError::DecompressionError));
}

#[test]
fn invalid_utf8_is_reported() {
    assert_eq!(decode_payload(0, vec![0xFF, 0xFE]), Err(SchemaReadError::BadUtf8));
    assert_eq!(finish_text(Some(vec![0xC3, 0xA9])), Ok("é".to_string()));
}

#[test]
fn truncated_string_is_an_unexpected_end() {
    let mut sb = Vecbuf::new(4);
    sb.writeb(0);
    sb.writeb(10);
    sb.writeb(b'a');
    sb.writeb(b'b');
    sb.seek(0);
    assert_eq!(read_varstring(&mut sb), Err(SchemaReadError::UnexpectedEof));
    assert!(sb.past_eof());
}

#[test]
fn checksumming_streams_pass_seek_and_flush_on() {
    let mut sb = Vecbuf::new(8);
    for b in 1..=8u8 {
        sb.writeb(b);
    }
    sb.seek(0);
    {
        let mut r = ReadBufAdler32::new(&mut sb);
        assert_eq!(r.readb(), 1);
        let sum = r.hash();
        assert_eq!(r.seek(5), 5);
        assert_eq!(r.hash(), sum);
        assert_eq!(r.readb(), 6);
        assert!(!r.past_eof());
    }
    assert_eq!(sb.tell(), 6);
    {
        let mut w = AppendBufAdler32::new(&mut sb);
        w.writeb(9);
        let sum = w.hash();
        assert!(w.flush());
        assert_eq!(w.hash(), sum);
    }
    assert!(flush_buf(&mut sb));
    assert!(sb.flush());
    assert_eq!(sb.head(8), vec![1, 2, 3, 4, 5, 6, 9, 8]);
}
