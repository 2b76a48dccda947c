//! The header of a cache file and its byte layout.
//!
//! A header is a newline-terminated content-type line (just `\n` when there is no
//! content type), then the creation time, the time to live and the payload
//! length, each a little-endian `u64` (seconds, seconds, bytes). The payload
//! follows the header directly.
use vstd::bytes::{
    lemma_auto_spec_u64_to_from_le_bytes, spec_u64_from_le_bytes, spec_u64_to_le_bytes, u64_from_le_bytes, u64_to_le_bytes,
};
use vstd::prelude::*;
use vstd::utf8::{
    decode_utf8, encode_scalar, encode_utf8, has_width_1_encoding, is_scalar, valid_utf8,
};

verus! {

/// The width of each number of the fixed block.
pub const METADATA_SPLIT_SIZE: usize = 8;

/// The width of the fixed block: three numbers.
pub const FIXED_BLOCK_SIZE: usize = 24;

/// Unicode's White_Space property, the set of characters that
/// `char::is_whitespace` accepts.
pub open spec fn is_white_space(c: char) -> bool {
    ('\u{9}' <= c && c <= '\u{d}') || c == ' ' || c == '\u{85}' || c == '\u{a0}' || c == '\u{1680}'
        || ('\u{2000}' <= c && c <= '\u{200a}') || c == '\u{2028}' || c == '\u{2029}' || c
        == '\u{202f}' || c == '\u{205f}' || c == '\u{3000}'
}

/// `s` without its leading white space.
pub open spec fn trim_start(s: Seq<char>) -> Seq<char>
    decreases s.len(),
{
    if s.len() > 0 && is_white_space(s[0]) {
        trim_start(s.drop_first())
    } else {
        s
    }
}

/// `s` without its trailing white space.
pub open spec fn trim_end(s: Seq<char>) -> Seq<char>
    decreases s.len(),
{
    if s.len() > 0 && is_white_space(s.last()) {
        trim_end(s.drop_last())
    } else {
        s
    }
}

/// `s` without its leading and trailing white space.
pub open spec fn trimmed(s: Seq<char>) -> Seq<char> {
    trim_end(trim_start(s))
}

/// Relies on `str::trim`: the slice without leading and trailing White_Space.
#[verifier::external_body]
fn trim(s: &str) -> (r: String)
    ensures
        r@ == trimmed(s@),
{
    s.trim().to_string()
}

/// Relies on `std::str::from_utf8`: it accepts exactly the valid UTF-8 byte
/// strings, and the string it gives holds those bytes.
#[verifier::external_body]
fn string_from_utf8(b: &[u8]) -> (r: Option<String>)
    ensures
        r.is_some() == valid_utf8(b@),
        r matches Some(s) ==> encode_utf8(s@) == b@,
{
    std::str::from_utf8(b).ok().map(|s| s.to_string())
}

/// Relies on `SystemTime::now` and `SystemTime::duration_since(UNIX_EPOCH)`: the
/// whole seconds since the epoch, or `None` where the clock reads before it.
#[verifier::external_body]
pub(crate) fn unix_time() -> (r: Option<u64>) {
    std::time::SystemTime::now().duration_since(std::time::UNIX_EPOCH).ok().map(|d| d.as_secs())
}

/// What a header states, with the content type as characters.
pub struct MetadataModel {
    pub creation_date: u64,
    pub ttl: u64,
    pub content_length: u64,
    pub content_type: Option<Seq<char>>,
}

/// The header of a cached response.
#[derive(Debug)]
pub struct Metadata {
    /// Seconds since the epoch at which the entry was made.
    pub creation_date: u64,
    /// Seconds the entry stays fresh.
    pub ttl: u64,
    /// Length of the payload in bytes.
    pub content_length: u64,
    pub content_type: Option<String>,
}

pub open spec fn content_type_view(ct: Option<String>) -> Option<Seq<char>> {
    match ct {
        Some(s) => Some(s@),
        None => None,
    }
}

impl View for Metadata {
    type V = MetadataModel;

    open spec fn view(&self) -> MetadataModel {
        MetadataModel {
            creation_date: self.creation_date,
            ttl: self.ttl,
            content_length: self.content_length,
            content_type: content_type_view(self.content_type),
        }
    }
}

/// The content-type line: the trimmed content type in UTF-8 and a newline.
pub open spec fn content_type_line_spec(ct: Option<Seq<char>>) -> Seq<u8> {
    match ct {
        Some(s) => encode_utf8(trimmed(s)) + seq![10u8],
        None => seq![10u8],
    }
}

/// The three numbers of the fixed block, little-endian.
pub open spec fn fixed_block_spec(creation_date: u64, ttl: u64, content_length: u64) -> Seq<u8> {
    spec_u64_to_le_bytes(creation_date) + spec_u64_to_le_bytes(ttl) + spec_u64_to_le_bytes(
        content_length,
    )
}

/// The header bytes of `m`.
pub open spec fn header_spec(m: MetadataModel) -> Seq<u8> {
    content_type_line_spec(m.content_type) + fixed_block_spec(
        m.creation_date,
        m.ttl,
        m.content_length,
    )
}

/// The content type a content-type line (newline included) stands for: none
/// where it is blank.
pub open spec fn decode_content_type(line: Seq<char>) -> Option<Seq<char>> {
    if trimmed(line).len() == 0 {
        None
    } else {
        Some(trimmed(line))
    }
}

/// The header that a 24-byte fixed block and a content-type line stand for.
pub open spec fn model_from(block: Seq<u8>, line: Seq<char>) -> MetadataModel {
    MetadataModel {
        creation_date: spec_u64_from_le_bytes(block.subrange(0, 8)),
        ttl: spec_u64_from_le_bytes(block.subrange(8, 16)),
        content_length: spec_u64_from_le_bytes(block.subrange(16, 24)),
        content_type: decode_content_type(line),
    }
}

/// `i` is the position of the first newline byte of `b`.
pub open spec fn is_first_newline(b: Seq<u8>, i: int) -> bool {
    &&& 0 <= i < b.len()
    &&& b[i] == 10
    &&& forall|j: int| 0 <= j < i ==> b[j] != 10
}

/// The header at the start of `b`: a line up to the first newline, in UTF-8,
/// followed by the fixed block. None where either is missing or the line is not
/// UTF-8.
pub open spec fn decode_spec(b: Seq<u8>) -> Option<MetadataModel> {
    if exists|i: int| is_first_newline(b, i) {
        let i = choose|i: int| is_first_newline(b, i);
        if valid_utf8(b.subrange(0, i + 1)) && b.len() >= i + 1 + 24 {
            Some(model_from(b.subrange(i + 1, i + 1 + 24), decode_utf8(b.subrange(0, i + 1))))
        } else {
            None
        }
    } else {
        None
    }
}

/// Whether an entry made at `creation_date` with `ttl` is stale at `now`.
pub open spec fn expired_at(creation_date: u64, ttl: u64, now: int) -> bool {
    now >= creation_date + ttl
}

/// A content type that a header keeps as it is: absent, or a non-empty string
/// without a newline and without white space at either end.
pub open spec fn valid_content_type(ct: Option<Seq<char>>) -> bool {
    match ct {
        None => true,
        Some(s) => s.len() > 0 && !s.contains('\n') && trimmed(s) == s,
    }
}

proof fn lemma_trim_start_len(s: Seq<char>)
    ensures
        trim_start(s).len() <= s.len(),
        s.len() > 0 && is_white_space(s[0]) ==> trim_start(s).len() < s.len(),
    decreases s.len(),
{
    if s.len() > 0 && is_white_space(s[0]) {
        lemma_trim_start_len(s.drop_first());
    }
}

proof fn lemma_trim_end_len(s: Seq<char>)
    ensures
        trim_end(s).len() <= s.len(),
        s.len() > 0 && is_white_space(s.last()) ==> trim_end(s).len() < s.len(),
    decreases s.len(),
{
    if s.len() > 0 && is_white_space(s.last()) {
        lemma_trim_end_len(s.drop_last());
    }
}

/// A trimmed, non-empty string followed by a newline trims back to itself.
proof fn lemma_trim_line(s: Seq<char>)
    requires
        s.len() > 0,
        trimmed(s) == s,
    ensures
        trimmed(s.push('\n')) == s,
{
    lemma_trim_start_len(s);
    lemma_trim_end_len(trim_start(s));
    assert(!is_white_space(s[0]));
    assert(trim_start(s) == s);
    lemma_trim_end_len(s);
    assert(!is_white_space(s.last()));
    let t = s.push('\n');
    assert(t[0] == s[0]);
    assert(trim_start(t) == t);
    assert(is_white_space(t.last()));
    assert(t.drop_last() =~= s);
    assert(trim_end(t) == trim_end(s));
}

/// The UTF-8 encoding of one scalar other than the newline holds no newline byte.
proof fn lemma_scalar_no_newline(v: u32)
    requires
        is_scalar(v),
        v != 10,
    ensures
        forall|j: int| 0 <= j < encode_scalar(v).len() ==> #[trigger] encode_scalar(v)[j] != 10,
{
    if has_width_1_encoding(v) {
        assert((v & 0x7F) as u8 != 10u8) by (bit_vector)
            requires
                v <= 0x7F,
                v != 10,
        ;
    } else {
        assert(0xC0u8 | ((v >> 6) & 0x1F) as u8 != 10u8) by (bit_vector);
        assert(0xE0u8 | ((v >> 12) & 0x0F) as u8 != 10u8) by (bit_vector);
        assert(0xF0u8 | ((v >> 18) & 0x7) as u8 != 10u8) by (bit_vector);
        assert(0x80u8 | (v & 0x3F) as u8 != 10u8) by (bit_vector);
        assert(0x80u8 | ((v >> 6) & 0x3F) as u8 != 10u8) by (bit_vector);
        assert(0x80u8 | ((v >> 12) & 0x3F) as u8 != 10u8) by (bit_vector);
    }
}

/// Characters without a newline encode to bytes without a newline byte.
proof fn lemma_encode_no_newline(s: Seq<char>)
    requires
        !s.contains('\n'),
    ensures
        forall|j: int| 0 <= j < encode_utf8(s).len() ==> #[trigger] encode_utf8(s)[j] != 10,
    decreases s.len(),
{
    if s.len() > 0 {
        let c = s[0];
        if c as u32 == 10 {
            vstd::utf8::char_u32_cast(c, 10u32);
            assert(c == '\n');
            assert(s.contains('\n'));
        }
        vstd::utf8::char_is_scalar(c);
        lemma_scalar_no_newline(c as u32);
        assert(!s.drop_first().contains('\n')) by {
            if s.drop_first().contains('\n') {
                let k = choose|k: int| 0 <= k < s.len() - 1 && s.drop_first()[k] == '\n';
                assert(s[k + 1] == '\n');
            }
        }
        lemma_encode_no_newline(s.drop_first());
        let h = encode_scalar(c as u32);
        let t = encode_utf8(s.drop_first());
        assert(encode_utf8(s) == h + t);
        assert forall|j: int| 0 <= j < encode_utf8(s).len() implies #[trigger] encode_utf8(s)[j] != 10 by {
            if j < h.len() {
                assert(encode_utf8(s)[j] == h[j]);
            } else {
                assert(encode_utf8(s)[j] == t[j - h.len()]);
            }
        }
    }
}

/// Encoding distributes over concatenation.
proof fn lemma_encode_concat(a: Seq<char>, b: Seq<char>)
    ensures
        encode_utf8(a + b) == encode_utf8(a) + encode_utf8(b),
    decreases a.len(),
{
    if a.len() == 0 {
        assert(a + b =~= b);
        assert(encode_utf8(a) + encode_utf8(b) =~= encode_utf8(b));
    } else {
        assert((a + b)[0] == a[0]);
        assert((a + b).drop_first() =~= a.drop_first() + b);
        lemma_encode_concat(a.drop_first(), b);
        assert(encode_utf8(a + b) =~= encode_utf8(a) + encode_utf8(b));
    }
}

/// A header decodes back to what it was encoded from, whatever bytes follow it,
/// as long as its content type is one a header keeps.
pub proof fn lemma_header_round_trip(m: MetadataModel, rest: Seq<u8>)
    requires
        valid_content_type(m.content_type),
    ensures
        decode_spec(header_spec(m) + rest) == Some(m),
{
    lemma_auto_spec_u64_to_from_le_bytes();
    let body = match m.content_type {
        Some(s) => s,
        None => Seq::<char>::empty(),
    };
    let line_chars = body.push('\n');
    let line = content_type_line_spec(m.content_type);
    let block = fixed_block_spec(m.creation_date, m.ttl, m.content_length);
    let b = header_spec(m) + rest;
    let nl = seq!['\n'];
    assert(line_chars =~= body + nl);
    lemma_encode_concat(body, nl);
    assert(nl.drop_first() =~= Seq::<char>::empty());
    assert('\n' as u32 == 10u32);
    assert((10u32 & 0x7F) as u8 == 10u8) by (bit_vector);
    assert(nl[0] as u32 == 10u32);
    assert(has_width_1_encoding(10u32));
    assert(encode_scalar(10u32) == seq![(10u32 & 0x7F) as u8]);
    assert(encode_utf8(Seq::<char>::empty()) =~= Seq::<u8>::empty());
    assert(encode_utf8(nl) == encode_scalar(nl[0] as u32) + encode_utf8(nl.drop_first()));
    assert(encode_utf8(nl) =~= seq![10u8]);
    assert(!body.contains('\n'));
    lemma_encode_no_newline(body);
    match m.content_type {
        Some(s) => {
            lemma_trim_line(s);
        },
        None => {
            assert(encode_utf8(body) =~= Seq::<u8>::empty());
        },
    }
    assert(line =~= encode_utf8(body) + seq![10u8]);
    assert(line == encode_utf8(line_chars));
    let l = line.len() as int;
    assert forall|j: int| 0 <= j < l - 1 implies b[j] != 10 by {
        assert(b[j] == line[j]);
        assert(line[j] == encode_utf8(body)[j]);
    }
    assert(b[l - 1] == 10);
    assert(is_first_newline(b, l - 1));
    assert forall|j: int| is_first_newline(b, j) implies j == l - 1 by {
        if j < l - 1 {
            assert(b[j] != 10);
        }
    }
    assert(b.subrange(0, l) =~= line);
    vstd::utf8::encode_utf8_valid_utf8(line_chars);
    vstd::utf8::encode_utf8_decode_utf8(line_chars);
    let fb = b.subrange(l, l + 24);
    assert(fb =~= block);
    assert(fb.subrange(0, 8) =~= spec_u64_to_le_bytes(m.creation_date));
    assert(fb.subrange(8, 16) =~= spec_u64_to_le_bytes(m.ttl));
    assert(fb.subrange(16, 24) =~= spec_u64_to_le_bytes(m.content_length));
    match m.content_type {
        Some(s) => {},
        None => {
            let e = Seq::<char>::empty();
            assert(line_chars =~= nl);
            assert(is_white_space(line_chars[0]));
            assert(line_chars.drop_first() =~= e);
            assert(trim_start(e) == e);
            assert(trim_end(e) == e);
            assert(trimmed(line_chars) =~= e);
        },
    }
}

/// An empty content type is written as the blank line that stands for none, and
/// reads back as none.
pub proof fn lemma_blank_content_type_collapses(m: MetadataModel, rest: Seq<u8>)
    requires
        m.content_type == Some(Seq::<char>::empty()),
    ensures
        header_spec(m) == header_spec(MetadataModel { content_type: None, ..m }),
        decode_spec(header_spec(m) + rest) == Some(MetadataModel { content_type: None, ..m }),
{
    let e = Seq::<char>::empty();
    assert(trim_start(e) == e);
    assert(trimmed(e) == e);
    assert(encode_utf8(e) =~= Seq::<u8>::empty());
    assert(content_type_line_spec(m.content_type) =~= seq![10u8]);
    lemma_header_round_trip(MetadataModel { content_type: None, ..m }, rest);
}

/// An entry is fresh when made, unless its time to live is zero, and stale from
/// the moment its age reaches its time to live on: the boundary counts as stale.
pub proof fn lemma_expiry(creation_date: u64, ttl: u64, now: int)
    requires
        now >= creation_date,
    ensures
        expired_at(creation_date, ttl, creation_date as int) == (ttl == 0),
        expired_at(creation_date, ttl, now) == (now - creation_date >= ttl),
        expired_at(creation_date, ttl, creation_date + ttl),
{
}

/// The bytes `b[start .. start + n]` as a vector.
fn copy_range(b: &[u8], start: usize, n: usize) -> (r: Vec<u8>)
    requires
        start + n <= b@.len(),
    ensures
        r@ == b@.subrange(start as int, start + n),
{
    let mut r: Vec<u8> = Vec::new();
    let len = b.len();
    let mut k: usize = 0;
    while k < n
        invariant
            len == b@.len(),
            start + n <= b@.len(),
            k <= n,
            r@ == b@.subrange(start as int, start + k),
        decreases n - k,
    {
        r.push(b[start + k]);
        k = k + 1;
        assert(r@ =~= b@.subrange(start as int, start + k));
    }
    r
}

/// Splits a 24-byte fixed block into creation time, time to live and payload
/// length.
pub fn parse_tools(buffer: &[u8]) -> (r: (u64, u64, u64))
    requires
        buffer@.len() == 24,
    ensures
        r.0 == spec_u64_from_le_bytes(buffer@.subrange(0, 8)),
        r.1 == spec_u64_from_le_bytes(buffer@.subrange(8, 16)),
        r.2 == spec_u64_from_le_bytes(buffer@.subrange(16, 24)),
{
    let a = copy_range(buffer, 0, METADATA_SPLIT_SIZE);
    let b = copy_range(buffer, METADATA_SPLIT_SIZE, METADATA_SPLIT_SIZE);
    let c = copy_range(buffer, 2 * METADATA_SPLIT_SIZE, METADATA_SPLIT_SIZE);
    (u64_from_le_bytes(a.as_slice()), u64_from_le_bytes(b.as_slice()), u64_from_le_bytes(c.as_slice()))
}

impl Metadata {
    /// The header of an entry made at `now`.
    pub fn created_at(now: u64, ttl: u64, content_length: u64, content_type: Option<String>) -> (r: Self)
        ensures
            r.creation_date == now,
            r.ttl == ttl,
            r.content_length == content_length,
            r.content_type == content_type,
    {
        Metadata { creation_date: now, ttl, content_length, content_type }
    }

    /// The header of an entry made now, by the system clock; an error where the
    /// clock cannot be read.
    pub fn default(ttl: u64, content_length: u64, content_type: Option<String>) -> (r: Result<Self, String>)
        ensures
            r matches Ok(m) ==> m.ttl == ttl && m.content_length == content_length && m.content_type
                == content_type,
    {
        match unix_time() {
            Some(now) => Ok(Self::created_at(now, ttl, content_length, content_type)),
            None => Err("the system clock reads before the epoch".to_string()),
        }
    }

    /// Whether the entry is stale at `now`: `now` has reached creation time plus
    /// time to live.
    pub fn is_expired_at(&self, now: u64) -> (r: bool)
        ensures
            r == expired_at(self.creation_date, self.ttl, now as int),
    {
        now >= self.creation_date && now - self.creation_date >= self.ttl
    }

    /// Whether the entry is stale by a clock reading; an unreadable clock counts
    /// as fresh, so that no entry is ever dropped for a clock fault.
    pub fn ttl_check_at(&self, now: Option<u64>) -> (r: bool)
        ensures
            r == match now {
                Some(t) => expired_at(self.creation_date, self.ttl, t as int),
                None => false,
            },
    {
        match now {
            Some(t) => self.is_expired_at(t),
            None => false,
        }
    }

    /// Whether the entry is stale now, by the system clock.
    pub fn ttl_check(&self) -> (r: bool)
        ensures
            r ==> self.creation_date + self.ttl <= u64::MAX,
    {
        self.ttl_check_at(unix_time())
    }

    /// The header that a 24-byte fixed block and a content-type line, newline
    /// included, stand for.
    pub fn parse_buffer(buffer: &[u8], content_type: String) -> (r: Self)
        requires
            buffer@.len() == 24,
        ensures
            r@ == model_from(buffer@, content_type@),
    {
        let (date, ttl, content_length) = parse_tools(buffer);
        let ct = trim(content_type.as_str());
        let content_type = if ct.as_str().is_empty() {
            None
        } else {
            Some(ct)
        };
        Metadata { creation_date: date, ttl, content_length, content_type }
    }

    /// The content-type line: the trimmed content type and a newline.
    pub fn content_type_line(&self) -> (r: Vec<u8>)
        ensures
            r@ == content_type_line_spec(self@.content_type),
    {
        let mut r: Vec<u8> = Vec::new();
        match &self.content_type {
            Some(s) => {
                let t = trim(s.as_str());
                let b = t.as_str().as_bytes();
                let mut k: usize = 0;
                while k < b.len()
                    invariant
                        b@ == encode_utf8(t@),
                        k <= b@.len(),
                        r@ == b@.subrange(0, k as int),
                    decreases b@.len() - k,
                {
                    r.push(b[k]);
                    k = k + 1;
                    assert(r@ =~= b@.subrange(0, k as int));
                }
                assert(r@ =~= b@);
            },
            None => {},
        }
        r.push(10u8);
        r
    }

    /// The fixed block: creation time, time to live and payload length.
    pub fn fixed_block(&self) -> (r: Vec<u8>)
        ensures
            r@ == fixed_block_spec(self.creation_date, self.ttl, self.content_length),
    {
        let mut r = u64_to_le_bytes(self.creation_date);
        let mut b = u64_to_le_bytes(self.ttl);
        let mut c = u64_to_le_bytes(self.content_length);
        r.append(&mut b);
        r.append(&mut c);
        r
    }

    /// The header bytes.
    pub fn encode(&self) -> (r: Vec<u8>)
        ensures
            r@ == header_spec(self@),
    {
        let mut r = self.content_type_line();
        let mut b = self.fixed_block();
        r.append(&mut b);
        r
    }

    /// The header at the start of `bytes`, if there is a whole one.
    pub fn decode(bytes: &[u8]) -> (r: Option<Self>)
        ensures
            match r {
                Some(m) => decode_spec(bytes@) == Some(m@),
                None => decode_spec(bytes@).is_none(),
            },
    {
        let mut i: usize = 0;
        while i < bytes.len() && bytes[i] != 10u8
            invariant
                i <= bytes@.len(),
                forall|j: int| 0 <= j < i ==> bytes@[j] != 10,
            decreases bytes@.len() - i,
        {
            i = i + 1;
        }
        if i == bytes.len() {
            proof {
                assert forall|j: int| !is_first_newline(bytes@, j) by {}
            }
            return None;
        }
        proof {
            assert(is_first_newline(bytes@, i as int));
            assert forall|j: int| is_first_newline(bytes@, j) implies j == i by {
                if j < i {
                    assert(bytes@[j] != 10);
                } else if j > i {
                    assert(bytes@[i as int] != 10);
                }
            }
        }
        let line_bytes = copy_range(bytes, 0, i + 1);
        let line = match string_from_utf8(line_bytes.as_slice()) {
            Some(s) => s,
            None => {
                return None;
            },
        };
        if bytes.len() - (i + 1) < FIXED_BLOCK_SIZE {
            return None;
        }
        let block = copy_range(bytes, i + 1, FIXED_BLOCK_SIZE);
        proof {
            vstd::utf8::encode_utf8_decode_utf8(line@);
        }
        Some(Self::parse_buffer(block.as_slice(), line))
    }

    /// Where the payload starts in a cache file: the header's length. A length
    /// beyond `u64` saturates.
    pub fn get_size(&self) -> (r: u64)
        ensures
            header_spec(self@).len() <= u64::MAX ==> r == header_spec(self@).len(),
            header_spec(self@).len() > u64::MAX ==> r == u64::MAX,
    {
        let line = self.content_type_line();
        proof {
            lemma_auto_spec_u64_to_from_le_bytes();
            assert(fixed_block_spec(self.creation_date, self.ttl, self.content_length).len() == 24);
        }
        let n = line.len() as u64;
        if n <= u64::MAX - 24 {
            n + 24
        } else {
            u64::MAX
        }
    }

    pub fn get_creation_date(&self) -> (r: u64)
        ensures
            r == self.creation_date,
    {
        self.creation_date
    }

    pub fn get_ttl_time(&self) -> (r: u64)
        ensures
            r == self.ttl,
    {
        self.ttl
    }

    pub fn get_content_length(&self) -> (r: u64)
        ensures
            r == self.content_length,
    {
        self.content_length
    }

    pub fn get_content_type(&self) -> (r: &Option<String>)
        ensures
            r == &self.content_type,
    {
        &self.content_type
    }
}

} // verus!
