//! Little-endian numbers, NUL-terminated strings and byte buffers.

use vstd::prelude::*;
use vstd::utf8::{decode_utf8, valid_utf8};

verus! {

/// The little-endian 16-bit number at index `i` of `s`.
pub open spec fn le16(s: Seq<u8>, i: int) -> u16 {
    (s[i] + 256 * s[i + 1]) as u16
}

/// The little-endian 32-bit number at index `i` of `s`.
pub open spec fn le32(s: Seq<u8>, i: int) -> u32 {
    (s[i] + 256 * s[i + 1] + 65536 * s[i + 2] + 16777216 * s[i + 3]) as u32
}

/// The two bytes of `n`, least significant first.
pub open spec fn le16_bytes(n: u16) -> Seq<u8> {
    seq![(n % 256) as u8, (n / 256) as u8]
}

/// The four bytes of `n`, least significant first.
pub open spec fn le32_bytes(n: u32) -> Seq<u8> {
    seq![
        (n % 256) as u8,
        (n / 256 % 256) as u8,
        (n / 65536 % 256) as u8,
        (n / 16777216) as u8,
    ]
}

/// Numbers lie in bytes with the least significant byte first.
pub proof fn law_least_significant_byte_first(s: Seq<u8>, i: int)
    requires
        0 <= i,
        i + 4 <= s.len(),
    ensures
        le16(s, i) == s[i] + 256 * s[i + 1],
        le32(s, i) == le16(s, i) + 65536 * le16(s, i + 2),
{
}

/// Reading back the bytes of a 16-bit number gives that number.
pub proof fn law_le16_round_trip(n: u16)
    ensures
        le16(le16_bytes(n), 0) == n,
{
}

/// Reading back the bytes of a 32-bit number gives that number.
pub proof fn law_le32_round_trip(n: u32)
    ensures
        le32(le32_bytes(n), 0) == n,
{
}

/// The first index from `from` on that holds a zero byte; the length of `s`
/// where none does.
pub open spec fn nul_from(s: Seq<u8>, from: int) -> int
    decreases s.len() - from,
{
    if from < 0 || from >= s.len() {
        s.len() as int
    } else if s[from] == 0 {
        from
    } else {
        nul_from(s, from + 1)
    }
}

/// `nul_from` is the least index of a zero byte.
pub proof fn lemma_nul_from(s: Seq<u8>, from: int)
    requires
        0 <= from <= s.len(),
    ensures
        from <= nul_from(s, from) <= s.len(),
        forall|k: int| from <= k < nul_from(s, from) ==> s[k] != 0,
        nul_from(s, from) < s.len() ==> s[nul_from(s, from)] == 0,
    decreases s.len() - from,
{
    if from < s.len() && s[from] != 0 {
        lemma_nul_from(s, from + 1);
    }
}

/// The characters that `String::from_utf8_lossy` gives for bytes that are not
/// valid UTF-8.
pub uninterp spec fn utf8_replaced(bytes: Seq<u8>) -> Seq<char>;

/// The text of `bytes`: the characters that they encode where they are valid
/// UTF-8, and otherwise what lossy decoding puts in their place.
pub open spec fn text_of(bytes: Seq<u8>) -> Seq<char> {
    if valid_utf8(bytes) {
        decode_utf8(bytes)
    } else {
        utf8_replaced(bytes)
    }
}

/// `String::from_utf8_lossy` keeps valid UTF-8 as it is; for other bytes its
/// result, which depends on the bytes alone, is given a name.
#[verifier::external_body]
pub(crate) fn decode_lossy(bytes: &[u8]) -> (s: String)
    ensures
        valid_utf8(bytes@) ==> s@ == decode_utf8(bytes@),
        !valid_utf8(bytes@) ==> s@ == utf8_replaced(bytes@),
{
    String::from_utf8_lossy(bytes).into_owned()
}

/// The text of `data[start..end]`.
pub fn text_between(data: &[u8], start: usize, end: usize) -> (s: String)
    requires
        start <= end <= data@.len(),
    ensures
        s@ == text_of(data@.subrange(start as int, end as int)),
{
    decode_lossy(vstd::slice::slice_subrange(data, start, end))
}

/// ASCII bytes decode to the characters with the same codes.
pub proof fn law_ascii_text(bytes: Seq<u8>)
    requires
        forall|i: int| 0 <= i < bytes.len() ==> bytes[i] < 128,
    ensures
        text_of(bytes) == Seq::new(bytes.len(), |i: int| bytes[i] as char),
{
    let chars = Seq::new(bytes.len(), |i: int| bytes[i] as char);
    vstd::utf8::is_ascii_chars_encode_utf8(chars);
    assert(vstd::utf8::encode_utf8(chars) =~= bytes);
    vstd::utf8::encode_utf8_valid_utf8(chars);
    vstd::utf8::encode_utf8_decode_utf8(chars);
}

/// All the pieces, put together.
pub open spec fn joined(pieces: Seq<Seq<u8>>) -> Seq<u8>
    decreases pieces.len(),
{
    if pieces.len() == 0 {
        Seq::empty()
    } else {
        joined(pieces.drop_last()) + pieces.last()
    }
}

/// Nothing in front of a sequence.
pub proof fn lemma_empty_front<T>(s: Seq<T>)
    ensures
        Seq::<T>::empty() + s == s,
{
    assert(Seq::<T>::empty() + s =~= s);
}

/// Reads the 16-bit number at index `i`.
pub fn u16_at(data: &[u8], i: usize) -> (r: u16)
    requires
        i + 2 <= data@.len(),
    ensures
        r == le16(data@, i as int),
{
    data[i] as u16 + 256 * (data[i + 1] as u16)
}

/// Reads the 32-bit number at index `i`.
pub fn u32_at(data: &[u8], i: usize) -> (r: u32)
    requires
        i + 4 <= data@.len(),
    ensures
        r == le32(data@, i as int),
{
    data[i] as u32 + 256 * (data[i + 1] as u32) + 65536 * (data[i + 2] as u32) + 16777216 * (data[i
        + 3] as u32)
}

/// Finds the first zero byte from `from` on.
pub fn find_nul(data: &[u8], from: usize) -> (r: usize)
    requires
        from <= data@.len(),
    ensures
        r == nul_from(data@, from as int),
        from <= r <= data@.len(),
{
    let mut pos: usize = from;
    while pos < data.len() && data[pos] != 0
        invariant
            from <= pos <= data@.len(),
            nul_from(data@, pos as int) == nul_from(data@, from as int),
        decreases data@.len() - pos,
    {
        pos += 1;
    }
    pos
}

/// The first index from `from` on, and before `end`, that holds a zero byte;
/// `end` where none does.
pub open spec fn nul_before(s: Seq<u8>, from: int, end: int) -> int {
    if nul_from(s, from) < end {
        nul_from(s, from)
    } else {
        end
    }
}

/// Finds the first zero byte from `from` on, and before `end`.
pub fn find_nul_before(data: &[u8], from: usize, end: usize) -> (r: usize)
    requires
        from <= end <= data@.len(),
    ensures
        r == nul_before(data@, from as int, end as int),
        from <= r <= end,
{
    let mut pos: usize = from;
    while pos < end && data[pos] != 0
        invariant
            from <= pos <= end <= data@.len(),
            nul_from(data@, pos as int) == nul_from(data@, from as int),
        decreases end - pos,
    {
        pos += 1;
    }
    proof {
        lemma_nul_from(data@, pos as int);
    }
    pos
}

/// Appends `bytes` to `out`.
pub fn push_all(out: &mut Vec<u8>, bytes: &[u8])
    ensures
        final(out)@ == old(out)@ + bytes@,
{
    out.extend_from_slice(bytes);
    assert(out@ =~= old(out)@ + bytes@);
}

/// Appends the two bytes of `n`, least significant first.
pub fn push_u16(out: &mut Vec<u8>, n: u16)
    ensures
        final(out)@ == old(out)@ + le16_bytes(n),
{
    out.push((n % 256) as u8);
    out.push((n / 256) as u8);
    assert(out@ =~= old(out)@ + le16_bytes(n));
}

/// Appends the four bytes of `n`, least significant first.
pub fn push_u32(out: &mut Vec<u8>, n: u32)
    ensures
        final(out)@ == old(out)@ + le32_bytes(n),
{
    out.push((n % 256) as u8);
    out.push((n / 256 % 256) as u8);
    out.push((n / 65536 % 256) as u8);
    out.push((n / 16777216) as u8);
    assert(out@ =~= old(out)@ + le32_bytes(n));
}

// ---------------------------------------------------------------------------
// Bytes at a place
// ---------------------------------------------------------------------------

/// Whether `data` holds `bytes` from index `at` on.
pub open spec fn holds(data: Seq<u8>, at: int, bytes: Seq<u8>) -> bool {
    &&& 0 <= at
    &&& at + bytes.len() <= data.len()
    &&& data.subrange(at, at + bytes.len()) == bytes
}

/// Data holds itself.
pub proof fn lemma_holds_all(data: Seq<u8>)
    ensures
        holds(data, 0, data),
{
    assert(data.subrange(0, data.len() as int) =~= data);
}

/// What is held in one piece is held part by part.
pub proof fn lemma_holds_parts(data: Seq<u8>, at: int, a: Seq<u8>, b: Seq<u8>)
    requires
        holds(data, at, a + b),
    ensures
        holds(data, at, a),
        holds(data, at + a.len(), b),
{
    let whole = data.subrange(at, at + (a + b).len());
    assert(data.subrange(at, at + a.len()) =~= a) by {
        assert forall|i: int| 0 <= i < a.len() implies data[at + i] == a[i] by {
            assert(whole[i] == (a + b)[i]);
        }
    }
    assert(data.subrange(at + a.len(), at + a.len() + b.len()) =~= b) by {
        assert forall|i: int| 0 <= i < b.len() implies data[at + a.len() + i] == b[i] by {
            assert(whole[a.len() + i] == (a + b)[a.len() + i]);
        }
    }
}

/// The bytes of a 16-bit number read as that number, wherever they are.
pub proof fn lemma_holds_le16(data: Seq<u8>, at: int, n: u16)
    requires
        holds(data, at, le16_bytes(n)),
    ensures
        le16(data, at) == n,
{
    let s = data.subrange(at, at + 2);
    assert(s[0] == data[at] && s[1] == data[at + 1]);
}

/// The bytes of a 32-bit number read as that number, wherever they are.
pub proof fn lemma_holds_le32(data: Seq<u8>, at: int, n: u32)
    requires
        holds(data, at, le32_bytes(n)),
    ensures
        le32(data, at) == n,
{
    let s = data.subrange(at, at + 4);
    assert(s[0] == data[at] && s[1] == data[at + 1] && s[2] == data[at + 2] && s[3] == data[at + 3]);
    assert(le32(data, at) == le32(s, 0));
    law_le32_round_trip(n);
}

/// A string without NUL bytes, with a NUL byte behind it.
pub open spec fn cstring(s: Seq<u8>) -> Seq<u8> {
    s.push(0)
}

/// Whether a string can be NUL-terminated.
pub open spec fn nul_free(s: Seq<u8>) -> bool {
    forall|i: int| 0 <= i < s.len() ==> #[trigger] s[i] != 0
}

/// A NUL-terminated string ends at its NUL byte.
pub proof fn lemma_holds_cstring(data: Seq<u8>, at: int, s: Seq<u8>)
    requires
        holds(data, at, cstring(s)),
        nul_free(s),
    ensures
        nul_from(data, at) == at + s.len(),
        data.subrange(at, at + s.len()) == s,
{
    let whole = data.subrange(at, at + s.len() + 1);
    assert forall|i: int| 0 <= i < s.len() implies data[at + i] == s[i] by {
        assert(whole[i] == cstring(s)[i]);
    }
    assert(data[at + s.len()] == 0) by {
        assert(whole[s.len() as int] == cstring(s)[s.len() as int]);
    }
    lemma_nul_from(data, at);
    let nul = nul_from(data, at);
    if nul < at + s.len() {
        assert(data[at + (nul - at)] == s[nul - at]);
    }
    assert(data.subrange(at, at + s.len()) =~= s);
}

} // verus!
