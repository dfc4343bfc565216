//! The WinHelp 4.0 ("Hall") phrase table: `|PhrIndex` holds a header and a
//! bit stream of phrase lengths, `|PhrImage` the phrases one after another.

use vstd::arithmetic::div_mod::lemma_div_denominator;
use vstd::arithmetic::power2::{lemma2_to64, lemma_pow2_pos, lemma_pow2_unfold, pow2};
use vstd::prelude::*;

use crate::bytes::{joined, le16, le32, u16_at, u32_at};
use crate::error::{bad_file, new_bad_file, prefixed, ErrorView};
use crate::lz77::{lz77, lz77_decompress};
use crate::phrase::{ints, PhraseTable, PhraseTableView};
use crate::text::{decimal, push_decimal, push_str};
use crate::views::views;
use crate::Error;

verus! {

/// Size of the header of `|PhrIndex`.
pub const PHRINDEX_HEADER_SIZE: usize = 28;

/// The fields of the header of `|PhrIndex` that matter for decoding.
#[derive(Debug, Clone, Copy)]
pub struct PhrIndexHeader {
    /// Number of phrases.
    pub entries: u32,
    /// Size of the phrases.
    pub phrimagesize: u32,
    /// Size of `|PhrImage` as stored.
    pub phrimagecompressedsize: u32,
    /// Low four bits of the word at offset 24: the size of a length unit.
    pub bits: u8,
}

/// The header at the start of `|PhrIndex`.
pub open spec fn header_of(data: Seq<u8>) -> Result<PhrIndexHeader, ErrorView> {
    if data.len() < PHRINDEX_HEADER_SIZE {
        Err(
            bad_file(
                "|PhrIndex"@,
                "need 28 bytes for PHRINDEXHDR, got "@ + decimal(data.len()),
            ),
        )
    } else {
        Ok(
            PhrIndexHeader {
                entries: le32(data, 4),
                phrimagesize: le32(data, 12),
                phrimagecompressedsize: le32(data, 16),
                bits: (le16(data, 24) % 16) as u8,
            },
        )
    }
}

impl PhrIndexHeader {
    /// Parses the header of `|PhrIndex`.
    pub fn from_bytes(data: &[u8]) -> (r: Result<Self, Error>)
        ensures
            match r {
                Ok(h) => header_of(data@) == Ok::<PhrIndexHeader, ErrorView>(h) && h.bits < 16,
                Err(e) => header_of(data@) == Err::<PhrIndexHeader, ErrorView>(e@),
            },
    {
        if data.len() < PHRINDEX_HEADER_SIZE {
            let mut s: String = "need 28 bytes for PHRINDEXHDR, got ".to_owned();
            push_decimal(&mut s, data.len() as u64);
            return Err(new_bad_file("|PhrIndex", s.as_str()));
        }
        Ok(
            PhrIndexHeader {
                entries: u32_at(data, 4),
                phrimagesize: u32_at(data, 12),
                phrimagecompressedsize: u32_at(data, 16),
                bits: (u16_at(data, 24) % 16) as u8,
            },
        )
    }
}

// ---------------------------------------------------------------------------
// The bit stream
// ---------------------------------------------------------------------------

/// Whether the stream holds the 32-bit word of bit `k`.
pub open spec fn has_bit(data: Seq<u8>, k: int) -> bool {
    4 * (k / 32) + 4 <= data.len()
}

/// Bit `k` of the stream: 32-bit words, least significant bit first.
pub open spec fn bit_at(data: Seq<u8>, k: int) -> bool {
    (le32(data, 4 * (k / 32)) as nat / pow2((k % 32) as nat)) % 2 == 1
}

/// The error of a bit stream that ends too early.
pub open spec fn stream_exhausted() -> ErrorView {
    bad_file("|PhrIndex"@, "bitstream exhausted before all phrase lengths were read"@)
}

/// The error of a phrase length that no machine number holds.
pub open spec fn length_overflow() -> ErrorView {
    bad_file("|PhrIndex"@, "phrase length overflowed usize"@)
}

/// Reads a stream of bits, word by word.
pub struct BitReader<'a> {
    data: &'a [u8],
    /// Byte offset of the next word.
    pos: usize,
    /// The bits of the current word that are still to come.
    value: u32,
    /// How many they are.
    left: u32,
}

impl<'a> BitReader<'a> {
    /// The bytes that are read.
    pub closed spec fn source(&self) -> Seq<u8> {
        self.data@
    }

    /// The number of bits that have been read.
    pub closed spec fn read(&self) -> int {
        8 * self.pos - self.left
    }

    /// The state of the reader agrees with the number of bits read.
    pub closed spec fn wf(&self) -> bool {
        &&& self.pos % 4 == 0
        &&& self.pos <= self.data@.len()
        &&& self.left <= 32
        &&& self.left > 0 ==> self.pos >= 4 && self.value as nat == le32(
            self.data@,
            self.pos - 4,
        ) as nat / pow2((32 - self.left) as nat)
    }

    /// A reader at the start of `data`.
    pub fn new(data: &'a [u8]) -> (r: Self)
        ensures
            r.wf(),
            r.source() == data@,
            r.read() == 0,
    {
        BitReader { data, pos: 0, value: 0, left: 0 }
    }

    /// Reads the next bit.
    pub fn read_bit(&mut self) -> (r: Result<bool, Error>)
        requires
            old(self).wf(),
        ensures
            final(self).wf(),
            final(self).source() == old(self).source(),
            match r {
                Ok(b) => has_bit(old(self).source(), old(self).read()) && b == bit_at(
                    old(self).source(),
                    old(self).read(),
                ) && final(self).read() == old(self).read() + 1,
                Err(e) => !has_bit(old(self).source(), old(self).read()) && e@
                    == stream_exhausted(),
            },
            old(self).read() >= 0,
    {
        if self.left == 0 {
            if self.data.len() - self.pos < 4 {
                return Err(
                    new_bad_file(
                        "|PhrIndex",
                        "bitstream exhausted before all phrase lengths were read",
                    ),
                );
            }
            self.value = u32_at(self.data, self.pos);
            self.pos = self.pos + 4;
            self.left = 32;
            proof {
                lemma2_to64();
            }
            assert(self.value as nat / pow2(0) == self.value as nat);
        }
        let ghost word = le32(self.data@, self.pos - 4) as nat;
        let ghost used = (32 - self.left) as nat;
        assert(8 * self.pos - self.left == old(self).read());
        assert(old(self).read() / 32 == self.pos / 4 - 1 && old(self).read() % 32 == used) by {
            let q = self.pos as int / 4;
            assert(self.pos == 4 * q);
            assert(old(self).read() == 32 * (q - 1) + used);
        }
        let bit: bool = self.value % 2 == 1;
        self.value = self.value / 2;
        self.left = self.left - 1;
        proof {
            lemma_pow2_pos(used);
            lemma_pow2_unfold(used + 1);
            lemma_div_denominator(word as int, pow2(used) as int, 2);
            assert(pow2(used + 1) == pow2(used) * 2);
        }
        Ok(bit)
    }
}

// ---------------------------------------------------------------------------
// Phrase lengths
// ---------------------------------------------------------------------------

/// Reads set bits from bit `k` on, each worth `unit`, up to a clear bit. Gives
/// `n` plus their worth, and the bit behind the clear one.
pub open spec fn unary_part(data: Seq<u8>, k: int, unit: nat, n: nat) -> Result<
    (nat, int),
    ErrorView,
>
    decreases 8 * data.len() + 32 - k,
{
    if k < 0 || !has_bit(data, k) {
        Err(stream_exhausted())
    } else if bit_at(data, k) {
        if n + unit > usize::MAX {
            Err(length_overflow())
        } else {
            unary_part(data, k + 1, unit, n + unit)
        }
    } else {
        Ok((n, k + 1))
    }
}

/// Reads `m` bits from bit `k` on, the first worth `weight`, every further one
/// worth double. Gives `n` plus their worth, and the bit behind them.
pub open spec fn binary_part(data: Seq<u8>, k: int, m: nat, weight: nat, n: nat) -> Result<
    (nat, int),
    ErrorView,
>
    decreases m,
{
    if m == 0 {
        Ok((n, k))
    } else if !has_bit(data, k) {
        Err(stream_exhausted())
    } else if bit_at(data, k) {
        if n + weight > usize::MAX {
            Err(length_overflow())
        } else {
            binary_part(data, k + 1, (m - 1) as nat, 2 * weight, n + weight)
        }
    } else {
        binary_part(data, k + 1, (m - 1) as nat, 2 * weight, n)
    }
}

/// The number of bits in the binary part of a length.
pub open spec fn binary_width(bits: nat) -> nat {
    if bits < 1 {
        1
    } else if bits > 5 {
        5
    } else {
        bits
    }
}

/// The phrase length that starts at bit `k`, and the bit behind it.
pub open spec fn phrase_length(data: Seq<u8>, k: int, bits: nat) -> Result<(nat, int), ErrorView> {
    match unary_part(data, k, pow2(bits), 1) {
        Err(e) => Err(e),
        Ok((n, next)) => binary_part(data, next, binary_width(bits), 1, n),
    }
}

/// The ends of `count` phrases, the first of which starts at `start`.
pub open spec fn phrase_ends(data: Seq<u8>, k: int, bits: nat, count: nat, start: nat) -> Result<
    Seq<int>,
    ErrorView,
>
    decreases count,
{
    if count == 0 {
        Ok(Seq::empty())
    } else {
        match phrase_length(data, k, bits) {
            Err(e) => Err(e),
            Ok((n, next)) => if start + n > usize::MAX {
                Err(length_overflow())
            } else {
                prefixed(
                    seq![(start + n) as int],
                    phrase_ends(data, next, bits, (count - 1) as nat, start + n),
                )
            },
        }
    }
}

/// The phrases as `|PhrImage` holds them: stored plainly where the two sizes
/// in the header agree, otherwise compressed.
pub open spec fn phrase_image(header: PhrIndexHeader, image: Seq<u8>) -> Result<
    Seq<u8>,
    ErrorView,
> {
    if header.phrimagesize == header.phrimagecompressedsize {
        Ok(image)
    } else if lz77(image).len() != header.phrimagesize {
        Err(
            bad_file(
                "|PhrImage"@,
                "LZ77 output is "@ + decimal(lz77(image).len()) + " bytes, PHRINDEXHDR says "@
                    + decimal(header.phrimagesize as nat),
            ),
        )
    } else {
        Ok(lz77(image))
    }
}

/// The parts of `image` between consecutive bounds.
pub open spec fn parts(image: Seq<u8>, bounds: Seq<int>) -> Seq<Seq<u8>> {
    Seq::new(
        (bounds.len() - 1) as nat,
        |i: int| image.subrange(bounds[i], bounds[i + 1]),
    )
}

/// The phrase table that `|PhrIndex` and `|PhrImage` hold.
pub open spec fn hall_result(index: Seq<u8>, image: Seq<u8>) -> Result<
    PhraseTableView,
    ErrorView,
> {
    match header_of(index) {
        Err(e) => Err(e),
        Ok(header) => match phrase_image(header, image) {
            Err(e) => Err(e),
            Ok(image) => match phrase_ends(
                index.skip(PHRINDEX_HEADER_SIZE as int),
                0,
                header.bits as nat,
                header.entries as nat,
                0,
            ) {
                Err(e) => Err(e),
                Ok(ends) => {
                    let bounds = seq![0int] + ends;
                    if bounds.last() != image.len() {
                        Err(
                            bad_file(
                                "|PhrIndex"@,
                                "decoded phrase offsets cover "@ + decimal(bounds.last() as nat)
                                    + " bytes, |PhrImage has "@ + decimal(image.len()),
                            ),
                        )
                    } else {
                        Ok(PhraseTableView { phrases: parts(image, bounds), hall: true })
                    }
                },
            },
        },
    }
}

proof fn lemma_unary_grows(data: Seq<u8>, k: int, unit: nat, n: nat)
    ensures
        unary_part(data, k, unit, n) matches Ok((m, _)) ==> m >= n,
    decreases 8 * data.len() + 32 - k,
{
    if k >= 0 && has_bit(data, k) && bit_at(data, k) && n + unit <= usize::MAX {
        lemma_unary_grows(data, k + 1, unit, n + unit);
    }
}

proof fn lemma_binary_grows(data: Seq<u8>, k: int, m: nat, weight: nat, n: nat)
    ensures
        binary_part(data, k, m, weight, n) matches Ok((r, _)) ==> r >= n,
    decreases m,
{
    if m > 0 && has_bit(data, k) {
        if bit_at(data, k) {
            if n + weight <= usize::MAX {
                lemma_binary_grows(data, k + 1, (m - 1) as nat, 2 * weight, n + weight);
            }
        } else {
            lemma_binary_grows(data, k + 1, (m - 1) as nat, 2 * weight, n);
        }
    }
}

/// Phrase ends strictly increase: no phrase is empty.
proof fn lemma_ends_increase(data: Seq<u8>, k: int, bits: nat, count: nat, start: nat)
    ensures
        phrase_ends(data, k, bits, count, start) matches Ok(ends) ==> ends.len() == count && (
        forall|i: int| 0 <= i < ends.len() ==> start < #[trigger] ends[i]) && (forall|
            i: int,
            j: int,
        |
            0 <= i < j < ends.len() ==> ends[i] < ends[j]),
    decreases count,
{
    if count > 0 {
        lemma_unary_grows(data, k, pow2(bits), 1);
        if let Ok((n0, next0)) = unary_part(data, k, pow2(bits), 1) {
            lemma_binary_grows(data, next0, binary_width(bits), 1, n0);
        }
        if let Ok((n, next)) = phrase_length(data, k, bits) {
            lemma_ends_increase(data, next, bits, (count - 1) as nat, start + n);
        }
    }
}

/// The bounds of a Hall table start at zero and strictly increase.
proof fn lemma_bounds(data: Seq<u8>, bits: nat, count: nat)
    ensures
        phrase_ends(data, 0, bits, count, 0) matches Ok(ends) ==> {
            let bounds = seq![0int] + ends;
            bounds.len() == count + 1 && bounds[0] == 0 && (forall|i: int, j: int|
                0 <= i < j < bounds.len() ==> bounds[i] < bounds[j])
        },
{
    lemma_ends_increase(data, 0, bits, count, 0);
}

proof fn lemma_joined_parts(image: Seq<u8>, bounds: Seq<int>)
    requires
        bounds.len() >= 1,
        bounds[0] == 0,
        bounds.last() <= image.len(),
        forall|i: int, j: int| 0 <= i < j < bounds.len() ==> bounds[i] < bounds[j],
    ensures
        joined(parts(image, bounds)) == image.take(bounds.last()),
    decreases bounds.len(),
{
    let pieces = parts(image, bounds);
    if bounds.len() == 1 {
        assert(image.take(0) =~= Seq::empty());
    } else {
        let shorter = bounds.drop_last();
        assert(bounds[bounds.len() - 2] < bounds[bounds.len() - 1]);
        lemma_joined_parts(image, shorter);
        assert(parts(image, shorter) =~= pieces.drop_last());
        assert(image.take(shorter.last()) + image.subrange(shorter.last(), bounds.last())
            =~= image.take(bounds.last()));
    }
}

/// The phrases of a Hall table are never empty, and put together they are the
/// phrase image.
pub proof fn law_hall_phrases_make_up_the_image(index: Seq<u8>, image: Seq<u8>)
    requires
        hall_result(index, image) is Ok,
    ensures
        joined(hall_result(index, image)->Ok_0.phrases) == phrase_image(
            header_of(index)->Ok_0,
            image,
        )->Ok_0,
        hall_result(index, image)->Ok_0.phrases.len() == header_of(index)->Ok_0.entries,
        forall|i: int|
            0 <= i < hall_result(index, image)->Ok_0.phrases.len() ==> #[trigger] hall_result(
                index,
                image,
            )->Ok_0.phrases[i].len() >= 1,
{
    let header = header_of(index)->Ok_0;
    let plain = phrase_image(header, image)->Ok_0;
    let stream = index.skip(PHRINDEX_HEADER_SIZE as int);
    let ends = phrase_ends(stream, 0, header.bits as nat, header.entries as nat, 0)->Ok_0;
    let bounds = seq![0int] + ends;
    lemma_bounds(stream, header.bits as nat, header.entries as nat);
    lemma_joined_parts(plain, bounds);
    assert(plain.take(plain.len() as int) =~= plain);
    assert forall|i: int| 0 <= i < ends.len() implies #[trigger] parts(plain, bounds)[i].len()
        >= 1 by {
        assert(bounds[i] < bounds[i + 1]);
        if i + 1 < bounds.len() - 1 {
            assert(bounds[i + 1] < bounds[bounds.len() - 1]);
        }
    }
}

/// Reads one phrase length.
fn read_length(reader: &mut BitReader<'_>, bits: u8) -> (r: Result<usize, Error>)
    requires
        old(reader).wf(),
        old(reader).read() >= 0,
        bits < 16,
    ensures
        final(reader).wf(),
        final(reader).source() == old(reader).source(),
        match r {
            Ok(n) => phrase_length(old(reader).source(), old(reader).read(), bits as nat) == Ok::<
                (nat, int),
                ErrorView,
            >((n as nat, final(reader).read())) && final(reader).read() >= 0,
            Err(e) => phrase_length(old(reader).source(), old(reader).read(), bits as nat) == Err::<
                (nat, int),
                ErrorView,
            >(e@),
        },
{
    let ghost data = reader.source();
    let unit: usize = power_of_two(bits);
    let mut n: usize = 1;
    let ghost unary = unary_part(data, reader.read(), unit as nat, 1);
    loop
        invariant_except_break
            unary == unary_part(data, reader.read(), unit as nat, n as nat),
        invariant
            reader.wf(),
            reader.source() == data,
            reader.read() >= 0,
            unit == pow2(bits as nat),
            unary == unary_part(data, old(reader).read(), unit as nat, 1),
            data == old(reader).source(),
        ensures
            reader.wf(),
            reader.source() == data,
            reader.read() >= 0,
            unary == Ok::<(nat, int), ErrorView>((n as nat, reader.read())),
        decreases 8 * data.len() + 32 - reader.read(),
    {
        let set: bool = match reader.read_bit() {
            Ok(b) => b,
            Err(e) => {
                return Err(e);
            },
        };
        if !set {
            break;
        }
        match n.checked_add(unit) {
            Some(sum) => {
                n = sum;
            },
            None => {
                return Err(new_bad_file("|PhrIndex", "phrase length overflowed usize"));
            },
        }
    }
    let width: u8 = if bits < 1 {
        1
    } else if bits > 5 {
        5
    } else {
        bits
    };
    let mut m: u8 = width;
    let mut weight: usize = 1;
    let ghost binary = binary_part(data, reader.read(), width as nat, 1, n as nat);
    proof {
        lemma2_to64();
    }
    while m > 0
        invariant
            m <= width <= 5,
            weight == pow2((width - m) as nat),
            reader.wf(),
            reader.source() == data,
            reader.read() >= 0,
            binary == binary_part(data, reader.read(), m as nat, weight as nat, n as nat),
            phrase_length(data, old(reader).read(), bits as nat) == binary,
            data == old(reader).source(),
        decreases m,
    {
        let set: bool = match reader.read_bit() {
            Ok(b) => b,
            Err(e) => {
                return Err(e);
            },
        };
        if set {
            match n.checked_add(weight) {
                Some(sum) => {
                    n = sum;
                },
                None => {
                    return Err(new_bad_file("|PhrIndex", "phrase length overflowed usize"));
                },
            }
        }
        proof {
            lemma_pow2_unfold((width - m + 1) as nat);
            lemma2_to64();
            assert(pow2((width - m) as nat) <= 16) by {
                let d = width - m;
                assert(d == 0 || d == 1 || d == 2 || d == 3 || d == 4);
            }
        }
        weight = weight * 2;
        m -= 1;
    }
    Ok(n)
}

/// `2` to the power `bits`.
fn power_of_two(bits: u8) -> (r: usize)
    requires
        bits < 16,
    ensures
        r == pow2(bits as nat),
{
    let mut r: usize = 1;
    let mut i: u8 = 0;
    proof {
        lemma2_to64();
    }
    while i < bits
        invariant
            i <= bits < 16,
            r == pow2(i as nat),
            r <= 32768,
        decreases bits - i,
    {
        proof {
            lemma_pow2_unfold((i + 1) as nat);
            lemma2_to64();
            assert(pow2((i + 1) as nat) <= 32768) by {
                vstd::arithmetic::power2::lemma_pow2_strictly_increases((i + 1) as nat, 16);
                if i + 1 < 15 {
                    vstd::arithmetic::power2::lemma_pow2_strictly_increases((i + 1) as nat, 15);
                }
            }
        }
        r = r * 2;
        i += 1;
    }
    r
}

impl PhraseTable {
    /// Builds the WinHelp 4.0 phrase table from `|PhrIndex` and `|PhrImage`.
    pub fn from_hall(phr_index: &[u8], phr_image: &[u8]) -> (r: Result<Self, Error>)
        ensures
            match r {
                Ok(t) => hall_result(phr_index@, phr_image@) == Ok::<PhraseTableView, ErrorView>(
                    t@,
                ),
                Err(e) => hall_result(phr_index@, phr_image@) == Err::<PhraseTableView, ErrorView>(
                    e@,
                ),
            },
    {
        let header: PhrIndexHeader = match PhrIndexHeader::from_bytes(phr_index) {
            Ok(h) => h,
            Err(e) => {
                return Err(e);
            },
        };
        let image: Vec<u8> = if header.phrimagesize == header.phrimagecompressedsize {
            vstd::slice::slice_to_vec(phr_image)
        } else {
            let plain: Vec<u8> = match lz77_decompress(phr_image) {
                Ok(v) => v,
                Err(e) => {
                    return Err(e);
                },
            };
            if plain.len() as u64 != header.phrimagesize as u64 {
                let mut s: String = "LZ77 output is ".to_owned();
                push_decimal(&mut s, plain.len() as u64);
                push_str(&mut s, " bytes, PHRINDEXHDR says ");
                push_decimal(&mut s, header.phrimagesize as u64);
                return Err(new_bad_file("|PhrImage", s.as_str()));
            }
            plain
        };
        let stream: &[u8] = vstd::slice::slice_subrange(
            phr_index,
            PHRINDEX_HEADER_SIZE,
            phr_index.len(),
        );
        assert(stream@ =~= phr_index@.skip(PHRINDEX_HEADER_SIZE as int));
        let mut reader: BitReader<'_> = BitReader::new(stream);
        let mut bounds: Vec<usize> = Vec::new();
        bounds.push(0);
        let mut last: usize = 0;
        let mut i: u32 = 0;
        let ghost bits = header.bits as nat;
        let ghost ends = phrase_ends(stream@, 0, bits, header.entries as nat, 0);
        let ghost found: Seq<int> = Seq::empty();
        proof {
            assert(ints(bounds@) =~= seq![0int] + found);
            if let Ok(s) = ends {
                assert(found + s =~= s);
            }
        }
        while i < header.entries
            invariant
                i <= header.entries,
                header.bits < 16,
                bits == header.bits,
                reader.wf(),
                reader.source() == stream@,
                reader.read() >= 0,
                ints(bounds@) == seq![0int] + found,
                found.len() == i,
                last == (seq![0int] + found).last(),
                ends == phrase_ends(stream@, 0, bits, header.entries as nat, 0),
                ends == prefixed(
                    found,
                    phrase_ends(
                        stream@,
                        reader.read(),
                        bits,
                        (header.entries - i) as nat,
                        last as nat,
                    ),
                ),
                header_of(phr_index@) == Ok::<PhrIndexHeader, ErrorView>(header),
                phrase_image(header, phr_image@) == Ok::<Seq<u8>, ErrorView>(image@),
                stream@ == phr_index@.skip(PHRINDEX_HEADER_SIZE as int),
            decreases header.entries - i,
        {
            let n: usize = match read_length(&mut reader, header.bits) {
                Ok(n) => n,
                Err(e) => {
                    return Err(e);
                },
            };
            match last.checked_add(n) {
                Some(sum) => {
                    last = sum;
                },
                None => {
                    return Err(new_bad_file("|PhrIndex", "phrase length overflowed usize"));
                },
            }
            let ghost before = bounds@;
            bounds.push(last);
            i += 1;
            proof {
                let more = found.push(last as int);
                assert(ints(bounds@) =~= ints(before).push(last as int));
                assert(ints(bounds@) =~= seq![0int] + more);
                let rest = phrase_ends(
                    stream@,
                    reader.read(),
                    bits,
                    (header.entries - i) as nat,
                    last as nat,
                );
                if let Ok(s) = rest {
                    assert(found + (seq![last as int] + s) =~= more + s);
                }
                found = more;
            }
        }
        assert(found + Seq::<int>::empty() =~= found);
        if last != image.len() {
            let mut s: String = "decoded phrase offsets cover ".to_owned();
            push_decimal(&mut s, last as u64);
            push_str(&mut s, " bytes, |PhrImage has ");
            push_decimal(&mut s, image.len() as u64);
            return Err(new_bad_file("|PhrIndex", s.as_str()));
        }
        let ghost all = seq![0int] + found;
        proof {
            lemma_bounds(stream@, bits, header.entries as nat);
        }
        let mut phrases: Vec<Vec<u8>> = Vec::new();
        let mut j: usize = 0;
        while j < bounds.len() - 1
            invariant
                bounds@.len() >= 1,
                j <= bounds@.len() - 1,
                phrases@.len() == j,
                ints(bounds@) == all,
                all.last() == image@.len(),
                forall|a: int, b: int| 0 <= a < b < all.len() ==> all[a] < all[b],
                forall|k: int| 0 <= k < j ==> (#[trigger] phrases@[k])@ == parts(image@, all)[k],
            decreases bounds@.len() - j,
        {
            let start: usize = bounds[j];
            let end: usize = bounds[j + 1];
            proof {
                assert(start as int == all[j as int] && end as int == all[j + 1]);
                assert(all[j as int] < all[j + 1]);
                if j + 1 < all.len() - 1 {
                    assert(all[j + 1] < all[all.len() - 1]);
                }
            }
            phrases.push(
                vstd::slice::slice_to_vec(
                    vstd::slice::slice_subrange(image.as_slice(), start, end),
                ),
            );
            j += 1;
        }
        assert(views(phrases@) =~= parts(image@, all));
        Ok(PhraseTable { phrases, hall: true })
    }
}

} // verus!
