use vstd::prelude::*;
use vstd::utf8::{decode_utf8, encode_utf8, valid_utf8};
use crate::adlerbuf::{lemma_put_put, lemma_took_took, AppendBufAdler32, ReadBufAdler32};
use crate::buf::{padded, rest, AppendBuf, ReadBuf, Source};
use crate::compress::{
    lz4_compress, lz4_decompress, lz4_frame, lz4_unframe, string_from_utf8, zstd_compress,
    zstd_decompress, zstd_frame, zstd_unframe,
};
use crate::err::SchemaReadError;
use crate::scalar::{
    lemma_varint_bytes_len, lemma_varint_round_trip, varint_bytes, varint_len, varint_value,
};
use crate::types::{MARK_LZ4, MARK_NONE, MARK_ZSTD};

verus! {

/// Strings shorter than this many bytes are tried with LZ4, longer ones
/// with Zstandard.
pub const LZ4_LIMIT: usize = 4096;

/// The marker of the compression that is tried on a payload of this length.
pub open spec fn pack_marker(len: nat) -> u8 {
    if len < LZ4_LIMIT {
        MARK_LZ4
    } else {
        MARK_ZSTD
    }
}

/// The compressed form that is tried on a payload.
pub open spec fn packed(raw: Seq<u8>) -> Option<Seq<u8>> {
    if raw.len() < LZ4_LIMIT {
        lz4_frame(raw)
    } else {
        zstd_frame(raw)
    }
}

/// The bytes of an encoded string, given the compressed candidate and its
/// marker: the candidate goes out only where it is strictly shorter than
/// the raw bytes; else the raw bytes go out under the marker zero. Either
/// way the marker is followed by the payload's length and the payload.
pub open spec fn varstring_frame(raw: Seq<u8>, mark: u8, cand: Option<Seq<u8>>) -> Seq<u8> {
    match cand {
        Some(c) if c.len() < raw.len() => seq![mark] + varint_bytes(c.len()) + c,
        _ => seq![MARK_NONE] + varint_bytes(raw.len()) + raw,
    }
}

/// The bytes of an encoded string.
pub open spec fn varstring_bytes(raw: Seq<u8>) -> Seq<u8> {
    varstring_frame(raw, pack_marker(raw.len()), packed(raw))
}

/// The bytes before the payload of the encoded string at the head of a
/// stream: the marker and the length.
pub open spec fn varstring_head(s: Seq<u8>) -> nat {
    1 + varint_len(rest(s, 1))
}

/// The payload length that the encoded string at the head of a stream
/// announces.
pub open spec fn varstring_want(s: Seq<u8>) -> nat {
    varint_value(rest(s, 1)) as nat
}

/// The bytes that the encoded string at the head of a stream takes up:
/// marker, length and payload.
pub open spec fn varstring_span(s: Seq<u8>) -> nat {
    varstring_head(s) + varstring_want(s)
}

/// The number of reads that decoding the string at the head of a source
/// makes. The payload is read byte by byte, and reading stops at the first
/// read that goes beyond the data.
pub open spec fn varstring_reads(src: Source) -> nat {
    let after = src.advance(varstring_head(src.pending));
    varstring_head(src.pending) + after.reach(varstring_want(src.pending))
}

/// Whether the source holds the whole encoded string that begins at its
/// head.
pub open spec fn varstring_complete(src: Source) -> bool {
    let after = src.advance(varstring_head(src.pending));
    !after.eof && varstring_want(src.pending) <= after.pending.len()
}

/// The payload of the encoded string at the head of a stream.
pub open spec fn varstring_payload(s: Seq<u8>) -> Seq<u8> {
    rest(s, varstring_head(s)).take(varstring_want(s) as int)
}

/// The raw bytes that a payload stands for under a marker; `None` where the
/// marker is unknown or the payload does not decompress.
pub open spec fn unpack(mark: u8, payload: Seq<u8>) -> Option<Seq<u8>> {
    if mark == MARK_NONE {
        Some(payload)
    } else if mark == MARK_LZ4 {
        lz4_unframe(payload)
    } else if mark == MARK_ZSTD {
        zstd_unframe(payload)
    } else {
        None
    }
}

/// The text that unpacked bytes spell: a decompression error where there
/// are none, a UTF-8 error where they are not valid UTF-8.
pub open spec fn text_of(raw: Option<Seq<u8>>) -> Result<Seq<char>, SchemaReadError> {
    match raw {
        None => Err(SchemaReadError::DecompressionError),
        Some(r) => if valid_utf8(r) {
            Ok(decode_utf8(r))
        } else {
            Err(SchemaReadError::BadUtf8)
        },
    }
}

/// What decoding the string at the head of a source yields.
pub open spec fn varstring_parse(src: Source) -> Result<Seq<char>, SchemaReadError> {
    if !varstring_complete(src) {
        Err(SchemaReadError::UnexpectedEof)
    } else {
        text_of(unpack(src.head(), varstring_payload(src.pending)))
    }
}

/// Whether a decoded string is the one that the model announces.
pub open spec fn text_matches(r: Result<String, SchemaReadError>, m: Result<Seq<char>, SchemaReadError>) -> bool {
    match (r, m) {
        (Ok(s), Ok(c)) => s@ == c,
        (Err(e), Err(f)) => e == f,
        _ => false,
    }
}

/// Whether `data`, followed by `tail`, decodes as one whole string with the
/// text `chars`, taking exactly the bytes of `data`.
pub open spec fn decodes_before(data: Seq<u8>, tail: Seq<u8>, chars: Seq<char>) -> bool {
    let src = Source { pending: data + tail, eof: false };
    &&& varstring_parse(src) == Ok::<Seq<char>, SchemaReadError>(chars)
    &&& varstring_span(data + tail) == data.len()
    &&& varstring_reads(src) == data.len()
}

/// Whether `data`, whatever follows it, decodes as one whole string with
/// the text `chars`, taking exactly the bytes of `data`.
pub open spec fn decodes_to(data: Seq<u8>, chars: Seq<char>) -> bool {
    forall|tail: Seq<u8>| #[trigger] decodes_before(data, tail, chars)
}

/// An encoded string reads back as the text it came from. This holds of any
/// candidate that decompresses to the raw bytes under its marker. The
/// marker that is written is zero or the candidate's, and the encoding is
/// shorter than the raw bytes and two more only where the candidate went
/// out.
pub proof fn lemma_varstring_frame_round_trip(chars: Seq<char>, mark: u8, cand: Option<Seq<u8>>)
    requires
        encode_utf8(chars).len() <= usize::MAX,
        cand matches Some(c) ==> unpack(mark, c) == Some(encode_utf8(chars)),
    ensures
        decodes_to(varstring_frame(encode_utf8(chars), mark, cand), chars),
        varstring_frame(encode_utf8(chars), mark, cand)[0] == MARK_NONE || varstring_frame(
            encode_utf8(chars),
            mark,
            cand,
        )[0] == mark,
        varstring_frame(encode_utf8(chars), mark, cand).len() < encode_utf8(chars).len() + 2
            ==> (cand matches Some(c) && c.len() < encode_utf8(chars).len() && varstring_frame(
            encode_utf8(chars),
            mark,
            cand,
        )[0] == mark),
{
    broadcast use vstd::utf8::encode_utf8_valid_utf8, vstd::utf8::encode_utf8_decode_utf8;

    let raw = encode_utf8(chars);
    let data = varstring_frame(raw, mark, cand);
    let sent: Seq<u8> = match cand {
        Some(c) if c.len() < raw.len() => c,
        _ => raw,
    };
    let m: u8 = match cand {
        Some(c) if c.len() < raw.len() => mark,
        _ => MARK_NONE,
    };
    let vb = varint_bytes(sent.len());
    lemma_varint_bytes_len(sent.len());
    assert(data =~= seq![m] + vb + sent);
    assert(data[0] == m);
    assert(unpack(m, sent) == Some(raw));
    assert(valid_utf8(raw));
    assert(decode_utf8(raw) == chars);
    assert forall|tail: Seq<u8>| #[trigger] decodes_before(data, tail, chars) by {
        let s = data + tail;
        let src = Source { pending: s, eof: false };
        assert(rest(s, 1) =~= vb + (sent + tail));
        lemma_varint_round_trip(sent.len(), sent + tail);
        assert(varstring_head(s) == 1 + vb.len());
        assert(varstring_want(s) == sent.len());
        assert(rest(s, varstring_head(s)) =~= sent + tail);
        assert(varstring_payload(s) =~= sent);
        assert(src.head() == m);
    }
}

/// An encoded string begins with one of the three markers, and it is
/// shorter than its raw bytes and two more only where the compressed form
/// went out.
pub proof fn lemma_varstring_marker(raw: Seq<u8>)
    ensures
        varstring_bytes(raw)[0] == MARK_NONE || varstring_bytes(raw)[0] == MARK_LZ4
            || varstring_bytes(raw)[0] == MARK_ZSTD,
        varstring_bytes(raw).len() < raw.len() + 2 ==> varstring_bytes(raw)[0] != MARK_NONE,
{
    lemma_varint_bytes_len(raw.len());
    match packed(raw) {
        Some(c) => {
            lemma_varint_bytes_len(c.len());
        },
        None => {},
    }
}

impl<'a, T: ReadBuf> ReadBufAdler32<'a, T> {
    /// Reads an encoded string: a marker byte, the payload's length and the
    /// payload, which is decompressed as the marker says and must be valid
    /// UTF-8. The whole string is read before it is judged, so that the
    /// stream stands behind it also where it cannot be decoded; only the
    /// end of the data stops the reading early.
    #[verifier::rlimit(40)]
    pub fn read_varstring(&mut self) -> (r: Result<String, SchemaReadError>)
        ensures
            text_matches(r, varstring_parse(old(self).target.source())),
            final(self).took(*old(self), varstring_reads(old(self).target.source())),
            *final(final(self).target) == *final(old(self).target),
    {
        let ghost s0 = *self;
        let ghost p0 = self.target.source().pending;
        let co = self.readb();
        let ghost s1 = *self;
        let size = self.read_varint();
        let ghost s2 = *self;
        proof {
            lemma_took_took(s0, s1, s2, 1, varint_len(rest(p0, 1)));
        }
        if self.past_eof() {
            proof {
                let p2 = s2.target.source().pending;
                assert(rest(p2, 0) =~= p2);
                assert(padded(p2, 0) =~= Seq::<u8>::empty());
                lemma_took_took(s0, s2, *self, varstring_head(p0), 0);
            }
            return Err(SchemaReadError::UnexpectedEof);
        }
        let ghost after = self.target.source();
        let mut bytes: Vec<u8> = Vec::new();
        let mut i: usize = 0;
        let mut cut: bool = false;
        proof {
            assert(rest(after.pending, 0) =~= after.pending);
            assert(padded(after.pending, 0) =~= Seq::<u8>::empty());
        }
        while i < size
            invariant_except_break
                self.took(s2, i as nat),
                !cut,
            invariant
                i <= size,
                i <= after.pending.len(),
                after == s2.target.source(),
                !after.eof,
                bytes@ == after.pending.take(i as int),
                *final(self.target) == *final(old(self).target),
            ensures
                cut ==> size > after.pending.len() && self.took(s2, (after.pending.len() + 1) as nat),
                !cut ==> i == size && self.took(s2, size as nat),
            decreases size - i,
        {
            let ghost before = *self;
            let byte = self.readb();
            proof {
                lemma_took_took(s2, before, *self, i as nat, 1);
            }
            if self.past_eof() {
                cut = true;
                break ;
            }
            bytes.push(byte);
            i += 1;
            proof {
                assert(bytes@ =~= after.pending.take(i as int));
            }
        }
        proof {
            lemma_took_took(s0, s2, *self, varstring_head(p0), after.reach(size as nat));
        }
        if cut {
            return Err(SchemaReadError::UnexpectedEof);
        }
        assert(bytes@ == varstring_payload(p0));
        decode_payload(co, bytes)
    }
}

/// The text of a payload under its marker.
pub fn decode_payload(mark: u8, payload: Vec<u8>) -> (r: Result<String, SchemaReadError>)
    ensures
        text_matches(r, text_of(unpack(mark, payload@))),
{
    let raw: Option<Vec<u8>> = if mark == MARK_NONE {
        Some(payload)
    } else if mark == MARK_LZ4 {
        lz4_decompress(payload.as_slice())
    } else if mark == MARK_ZSTD {
        zstd_decompress(payload.as_slice())
    } else {
        None
    };
    finish_text(raw)
}

/// The text that unpacked bytes spell: a decompression error where there
/// are none, a UTF-8 error where they are not valid UTF-8.
pub fn finish_text(raw: Option<Vec<u8>>) -> (r: Result<String, SchemaReadError>)
    ensures
        text_matches(
            r,
            text_of(
                match raw {
                    Some(v) => Some(v@),
                    None => None,
                },
            ),
        ),
{
    broadcast use vstd::utf8::encode_utf8_decode_utf8;

    match raw {
        None => Err(SchemaReadError::DecompressionError),
        Some(v) => match string_from_utf8(v) {
            Some(s) => Ok(s),
            None => Err(SchemaReadError::BadUtf8),
        },
    }
}

impl<'a, T: AppendBuf> AppendBufAdler32<'a, T> {
    /// Writes the bytes of `data` in order.
    pub fn write_bytes(&mut self, data: &[u8])
        ensures
            final(self).put(*old(self), data@),
            *final(final(self).target) == *final(old(self).target),
    {
        let mut i: usize = 0;
        proof {
            crate::buf::lemma_accept_empty(self.target.sink());
            assert(data@.take(0) =~= Seq::<u8>::empty());
        }
        while i < data.len()
            invariant
                i <= data.len(),
                self.put(*old(self), data@.take(i as int)),
                *final(self.target) == *final(old(self).target),
            decreases data.len() - i,
        {
            let ghost before = *self;
            self.writeb(data[i]);
            proof {
                lemma_put_put(*old(self), before, *self, data@.take(i as int), seq![data@[i as int]]);
                assert(data@.take(i as int) + seq![data@[i as int]] =~= data@.take(i + 1));
            }
            i += 1;
        }
        proof {
            assert(data@.take(data.len() as int) =~= data@);
        }
    }

    /// Writes an encoded string from its raw bytes and a compressed
    /// candidate with its marker: the candidate where it is strictly shorter
    /// than the raw bytes, else the raw bytes under the marker zero.
    pub fn write_varstring_from(&mut self, raw: &[u8], mark: u8, cand: &Option<Vec<u8>>)
        ensures
            final(self).put(
                *old(self),
                varstring_frame(
                    raw@,
                    mark,
                    match cand {
                        Some(c) => Some(c@),
                        None => None,
                    },
                ),
            ),
            *final(final(self).target) == *final(old(self).target),
    {
        let ghost s0 = *self;
        match cand {
            Some(c) if c.len() < raw.len() => {
                self.writeb(mark);
                let ghost s1 = *self;
                self.write_varint(c.len());
                let ghost s2 = *self;
                self.write_bytes(c.as_slice());
                proof {
                    lemma_put_put(s0, s1, s2, seq![mark], varint_bytes(c@.len()));
                    lemma_put_put(s0, s2, *self, seq![mark] + varint_bytes(c@.len()), c@);
                }
            },
            _ => {
                self.writeb(MARK_NONE);
                let ghost s1 = *self;
                self.write_varint(raw.len());
                let ghost s2 = *self;
                self.write_bytes(raw);
                proof {
                    lemma_put_put(s0, s1, s2, seq![MARK_NONE], varint_bytes(raw@.len()));
                    lemma_put_put(s0, s2, *self, seq![MARK_NONE] + varint_bytes(raw@.len()), raw@);
                }
            },
        }
    }

    /// Writes an encoded string. A string shorter than 4096 bytes is tried
    /// with LZ4, a longer one with Zstandard at level 5; the compressed form
    /// goes out only where it is strictly shorter than the raw bytes. What
    /// is written reads back as `s`.
    pub fn write_varstring(&mut self, s: &str)
        ensures
            final(self).put(*old(self), varstring_bytes(encode_utf8(s@))),
            decodes_to(varstring_bytes(encode_utf8(s@)), s@),
            *final(final(self).target) == *final(old(self).target),
    {
        let raw = s.as_bytes();
        let (mark, cand) = pack(raw);
        let ghost n = raw.len();
        proof {
            lemma_varstring_frame_round_trip(s@, pack_marker(raw@.len()), packed(raw@));
        }
        self.write_varstring_from(raw, mark, &cand);
    }
}

/// The compressed candidate for a payload, and its marker.
pub fn pack(raw: &[u8]) -> (r: (u8, Option<Vec<u8>>))
    ensures
        r.0 == pack_marker(raw@.len()),
        match r.1 {
            Some(c) => packed(raw@) == Some(c@) && unpack(r.0, c@) == Some(raw@),
            None => packed(raw@) is None,
        },
{
    if raw.len() < LZ4_LIMIT {
        (MARK_LZ4, lz4_compress(raw))
    } else {
        (MARK_ZSTD, zstd_compress(raw))
    }
}

/// Reads an encoded string.
pub fn read_varstring<B: ReadBuf>(b: &mut B) -> (r: Result<String, SchemaReadError>)
    ensures
        text_matches(r, varstring_parse(old(b).source())),
        final(b).source() == old(b).source().advance(varstring_reads(old(b).source())),
{
    let mut w = ReadBufAdler32::new(b);
    w.read_varstring()
}

/// Writes an encoded string. What is written reads back as `s`.
pub fn write_varstring<B: AppendBuf>(b: &mut B, s: &str)
    ensures
        final(b).sink() == old(b).sink().accept(varstring_bytes(encode_utf8(s@))),
        decodes_to(varstring_bytes(encode_utf8(s@)), s@),
{
    let mut w = AppendBufAdler32::new(b);
    w.write_varstring(s);
}

} // verus!
