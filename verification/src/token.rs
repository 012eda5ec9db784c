use vstd::prelude::*;
use vstd::utf8::{encode_utf8, valid_utf8};

verus! {

pub const SPACE: u8 = 0x20;

pub const TAB: u8 = 0x09;

pub const CR: u8 = 0x0D;

pub const LF: u8 = 0x0A;

pub const DQUOTE: u8 = 0x22;

pub const LBRACE: u8 = 0x7B;

pub const RBRACE: u8 = 0x7D;

pub const RE: u8 = 0x2F;

/// The text that `String::from_utf8_lossy` makes of bytes.
pub uninterp spec fn lossy_utf8(bytes: Seq<u8>) -> Seq<char>;

/// `String::from_utf8_lossy`, made into an owned string: the text of the
/// bytes, with a replacement character for each run of bytes that is no
/// UTF-8. Valid UTF-8 comes out as the text that it encodes.
#[verifier::external_body]
pub(crate) fn lossy_text(bytes: &[u8]) -> (s: String)
    ensures
        s@ == lossy_utf8(bytes@),
        valid_utf8(bytes@) ==> encode_utf8(s@) == bytes@,
{
    String::from_utf8_lossy(bytes).to_string()
}

/// Whether a byte is one of four given bytes.
pub open spec fn one_of(x: u8, a: u8, b: u8, c: u8, d: u8) -> bool {
    x == a || x == b || x == c || x == d
}

/// The first position at or behind `pos` whose byte is none of the four
/// given bytes, or the end of the text.
pub open spec fn skip_end(s: Seq<u8>, pos: int, a: u8, b: u8, c: u8, d: u8) -> int
    decreases s.len() - pos,
{
    if 0 <= pos < s.len() && one_of(s[pos], a, b, c, d) {
        skip_end(s, pos + 1, a, b, c, d)
    } else {
        pos
    }
}

/// The first position at or behind `pos` whose byte is `x`, or the end of
/// the text.
pub open spec fn find_byte(s: Seq<u8>, pos: int, x: u8) -> int
    decreases s.len() - pos,
{
    if 0 <= pos < s.len() && s[pos] != x {
        find_byte(s, pos + 1, x)
    } else {
        pos
    }
}

/// The first position at or behind `pos` whose byte is a space, a tab, a
/// carriage return or a line feed, or the end of the text.
pub open spec fn word_end(s: Seq<u8>, pos: int) -> int
    decreases s.len() - pos,
{
    if 0 <= pos < s.len() && !one_of(s[pos], SPACE, TAB, CR, LF) {
        word_end(s, pos + 1)
    } else {
        pos
    }
}

/// Whether a byte opens a quoted token.
pub open spec fn opens_quote(x: u8) -> bool {
    x == DQUOTE || x == RE || x == LBRACE
}

/// The byte that closes the quoted token that `x` opens: a brace is closed
/// by the other brace, any other quote by itself.
pub open spec fn closer(x: u8) -> u8 {
    if x == LBRACE {
        RBRACE
    } else {
        x
    }
}

/// The end of the token that begins at `pos`, if one begins there. A token
/// that begins with a double quote, a slash or an opening brace runs up to
/// and including the next closing quote, and is no token where that is
/// missing. Any other token runs up to the next whitespace, and is no token
/// where it is empty.
pub open spec fn token_end(s: Seq<u8>, pos: int) -> Option<int> {
    if 0 <= pos < s.len() && opens_quote(s[pos]) {
        let k = find_byte(s, pos + 1, closer(s[pos]));
        if k < s.len() {
            Some(k + 1)
        } else {
            None
        }
    } else {
        let k = word_end(s, pos);
        if k == pos {
            None
        } else {
            Some(k)
        }
    }
}

pub proof fn lemma_skip_end_bounds(s: Seq<u8>, pos: int, a: u8, b: u8, c: u8, d: u8)
    requires
        0 <= pos <= s.len(),
    ensures
        pos <= skip_end(s, pos, a, b, c, d) <= s.len(),
    decreases s.len() - pos,
{
    if pos < s.len() && one_of(s[pos], a, b, c, d) {
        lemma_skip_end_bounds(s, pos + 1, a, b, c, d);
    }
}

pub proof fn lemma_find_byte_bounds(s: Seq<u8>, pos: int, x: u8)
    requires
        0 <= pos <= s.len(),
    ensures
        pos <= find_byte(s, pos, x) <= s.len(),
    decreases s.len() - pos,
{
    if pos < s.len() && s[pos] != x {
        lemma_find_byte_bounds(s, pos + 1, x);
    }
}

pub proof fn lemma_word_end_bounds(s: Seq<u8>, pos: int)
    requires
        0 <= pos <= s.len(),
    ensures
        pos <= word_end(s, pos) <= s.len(),
    decreases s.len() - pos,
{
    if pos < s.len() && !one_of(s[pos], SPACE, TAB, CR, LF) {
        lemma_word_end_bounds(s, pos + 1);
    }
}

/// A token is not empty and ends within the text.
pub proof fn lemma_token_end_bounds(s: Seq<u8>, pos: int)
    requires
        0 <= pos <= s.len(),
    ensures
        token_end(s, pos) matches Some(k) ==> pos < k <= s.len(),
{
    if pos < s.len() && opens_quote(s[pos]) {
        lemma_find_byte_bounds(s, pos + 1, closer(s[pos]));
    } else {
        lemma_word_end_bounds(s, pos);
    }
}

/// A reader of tokens from a text.
pub struct Tokenizer<'a> {
    s: &'a [u8],
    pos: usize,
}

impl<'a> Tokenizer<'a> {
    /// The text.
    pub closed spec fn text(&self) -> Seq<u8> {
        self.s@
    }

    /// The position of the next byte to look at.
    pub closed spec fn at(&self) -> int {
        self.pos as int
    }

    /// Whether the position lies within the text or at its end.
    pub open spec fn wf(&self) -> bool {
        0 <= self.at() <= self.text().len()
    }

    /// A reader at the start of `s`.
    pub fn new(s: &'a [u8]) -> (t: Tokenizer<'a>)
        ensures
            t.text() == s@,
            t.at() == 0,
            t.wf(),
    {
        Tokenizer { s, pos: 0 }
    }

    /// Moves over bytes that are one of the four given. Returns whether
    /// there were any.
    pub fn skip_whitespace(&mut self, a: u8, b: u8, c: u8, d: u8) -> (moved: bool)
        requires
            old(self).wf(),
        ensures
            final(self).wf(),
            final(self).text() == old(self).text(),
            final(self).at() == skip_end(old(self).text(), old(self).at(), a, b, c, d),
            moved == (final(self).at() != old(self).at()),
    {
        let mut k = self.pos;
        let s = self.s;
        while k < s.len() && (s[k] == a || s[k] == b || s[k] == c || s[k] == d)
            invariant
                self.pos <= k <= s@.len(),
                skip_end(s@, k as int, a, b, c, d) == skip_end(s@, self.pos as int, a, b, c, d),
            decreases s@.len() - k,
        {
            k += 1;
        }
        let result = self.pos != k;
        self.pos = k;
        result
    }

    /// Whether the text is used up.
    pub fn eos(&self) -> (r: bool)
        ensures
            r == (self.at() >= self.text().len()),
    {
        self.pos >= self.s.len()
    }

    /// Reads the token that begins at the position, and moves behind it.
    /// Where no token begins there, nothing is read.
    pub fn parse_token(&mut self) -> (r: Option<String>)
        requires
            old(self).wf(),
        ensures
            final(self).wf(),
            final(self).text() == old(self).text(),
            match token_end(old(self).text(), old(self).at()) {
                Some(k) => final(self).at() == k && r is Some && r.unwrap()@ == lossy_utf8(
                    old(self).text().subrange(old(self).at(), k),
                ) && (valid_utf8(old(self).text().subrange(old(self).at(), k)) ==> encode_utf8(
                    r.unwrap()@,
                ) == old(self).text().subrange(old(self).at(), k)),
                None => final(self).at() == old(self).at() && r is None,
            },
    {
        let mut k = self.pos;
        let s = self.s;
        proof {
            lemma_token_end_bounds(s@, self.pos as int);
        }
        if k < s.len() && (s[k] == DQUOTE || s[k] == RE || s[k] == LBRACE) {
            let endchar = if s[k] == LBRACE {
                RBRACE
            } else {
                s[k]
            };
            k += 1;
            while k < s.len() && s[k] != endchar
                invariant
                    self.pos < k <= s@.len(),
                    find_byte(s@, k as int, endchar) == find_byte(
                        s@,
                        self.pos as int + 1,
                        endchar,
                    ),
                decreases s@.len() - k,
            {
                k += 1;
            }
            if k < s.len() {
                k += 1;
            } else {
                return None;
            }
        } else {
            while k < s.len() && s[k] != SPACE && s[k] != TAB && s[k] != CR && s[k] != LF
                invariant
                    self.pos <= k <= s@.len(),
                    word_end(s@, k as int) == word_end(s@, self.pos as int),
                decreases s@.len() - k,
            {
                k += 1;
            }
        }
        if self.pos == k {
            None
        } else {
            let t = lossy_text(vstd::slice::slice_subrange(s, self.pos, k));
            self.pos = k;
            Some(t)
        }
    }

    /// Moves over the bytes of `s2` where the text goes on with them.
    /// Returns whether it does.
    pub fn expect(&mut self, s2: &str) -> (r: bool)
        requires
            old(self).wf(),
        ensures
            final(self).wf(),
            final(self).text() == old(self).text(),
            r == (old(self).at() + encode_utf8(s2@).len() <= old(self).text().len() && old(
                self,
            ).text().subrange(old(self).at(), old(self).at() + encode_utf8(s2@).len())
                == encode_utf8(s2@)),
            final(self).at() == if r {
                old(self).at() + encode_utf8(s2@).len()
            } else {
                old(self).at()
            },
    {
        let u = s2.as_bytes();
        let s = self.s;
        if u.len() > s.len() - self.pos {
            return false;
        }
        let mut k: usize = 0;
        while k < u.len()
            invariant
                k <= u@.len(),
                *self == *old(self),
                self.wf(),
                s == self.s,
                u@ == encode_utf8(s2@),
                self.pos + u@.len() <= s@.len(),
                s@.len() <= usize::MAX,
                s@.subrange(self.pos as int, self.pos + k) == u@.take(k as int),
            decreases u@.len() - k,
        {
            if s[self.pos + k] != u[k] {
                proof {
                    let whole = s@.subrange(self.pos as int, self.pos + u@.len());
                    assert(whole[k as int] != u@[k as int]);
                }
                return false;
            }
            k += 1;
            proof {
                assert(s@.subrange(self.pos as int, self.pos + k) =~= u@.take(k as int));
            }
        }
        proof {
            assert(u@.take(u@.len() as int) =~= u@);
        }
        self.pos = self.pos + k;
        true
    }
}

} // verus!
