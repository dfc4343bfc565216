//! The phrase lengths of WinHelp 4.0, bit by bit, and that a table with these
//! lengths is read back.

use vstd::arithmetic::power2::{lemma2_to64, lemma_pow2_adds, lemma_pow2_pos, pow2};
use vstd::prelude::*;

use crate::bytes::{holds, joined, le16, le32, le32_bytes, lemma_holds_all, lemma_holds_le32};
use crate::error::ErrorView;
use crate::hall::{
    binary_part, bit_at, hall_result, has_bit, parts, phrase_ends, phrase_length, unary_part,
};
use crate::lz77::{all_performed, law_operations_decompress, packed, Operation};
use crate::phrase::PhraseTableView;
use crate::records::{lemma_phrase_end, lemma_phrase_place, phrase_end};

verus! {

/// The bits of the stream are those of its bytes in order, the least significant
/// bit of each first.
pub proof fn law_bits_are_those_of_the_bytes(data: Seq<u8>, k: int)
    requires
        0 <= k,
        has_bit(data, k),
    ensures
        bit_at(data, k) == ((data[k / 8] as nat / pow2((k % 8) as nat)) % 2 == 1),
{
    let at = 4 * (k / 32);
    let j = k % 32;
    let b = j / 8;
    let r = j % 8;
    assert(k / 8 == at + b && k % 8 == r) by {
        assert(k == 32 * (k / 32) + j);
        assert(j == 8 * b + r);
    }
    let w = le32(data, at) as int;
    let rest = lemma_word_from(data, at, b);
    let byte = data[at + b] as int;
    lemma2_to64();
    lemma_pow2_adds((8 * b) as nat, r as nat);
    lemma_pow2_pos((8 * b) as nat);
    lemma_pow2_pos(r as nat);
    vstd::arithmetic::div_mod::lemma_div_denominator(
        w,
        pow2((8 * b) as nat) as int,
        pow2(r as nat) as int,
    );
    assert(w / (pow2(j as nat) as int) == (byte + 256 * rest) / (pow2(r as nat) as int));
    lemma_low_bit(byte, rest, r);
}

/// The word at `at` without its first `b` bytes: the next byte, and the rest.
proof fn lemma_word_from(data: Seq<u8>, at: int, b: int) -> (rest: int)
    requires
        0 <= at,
        at + 4 <= data.len(),
        0 <= b < 4,
    ensures
        le32(data, at) as int / (pow2((8 * b) as nat) as int) == data[at + b] + 256 * rest,
        rest >= 0,
{
    lemma2_to64();
    let d0 = data[at] as int;
    let d1 = data[at + 1] as int;
    let d2 = data[at + 2] as int;
    let d3 = data[at + 3] as int;
    let w = le32(data, at) as int;
    assert(w == d0 + 256 * d1 + 65536 * d2 + 16777216 * d3);
    if b == 0 {
        assert(pow2((8 * b) as nat) == 1);
        assert(w / 1 == w);
        d1 + 256 * d2 + 65536 * d3
    } else if b == 1 {
        assert(pow2((8 * b) as nat) == 256);
        assert(w / 256 == d1 + 256 * (d2 + 256 * d3));
        d2 + 256 * d3
    } else if b == 2 {
        assert(pow2((8 * b) as nat) == 65536);
        assert(w / 65536 == d2 + 256 * d3);
        d3
    } else {
        assert(b == 3);
        assert(pow2((8 * b) as nat) == 16777216);
        assert(w / 16777216 == d3);
        0
    }
}

proof fn lemma_low_bit(byte: int, rest: int, r: int)
    requires
        0 <= byte < 256,
        0 <= rest,
        0 <= r < 8,
    ensures
        ((byte + 256 * rest) / (pow2(r as nat) as int)) % 2 == (byte / (pow2(r as nat) as int)) % 2,
{
    lemma2_to64();
    if r == 0 {
        assert(pow2(r as nat) == 1);
        assert((byte + 256 * rest) / 1 == byte / 1 + 256 * rest);
    }
    if r == 1 {
        assert(pow2(r as nat) == 2);
        assert((byte + 256 * rest) / 2 == byte / 2 + 128 * rest);
    }
    if r == 2 {
        assert(pow2(r as nat) == 4);
        assert((byte + 256 * rest) / 4 == byte / 4 + 64 * rest);
    }
    if r == 3 {
        assert(pow2(r as nat) == 8);
        assert((byte + 256 * rest) / 8 == byte / 8 + 32 * rest);
    }
    if r == 4 {
        assert(pow2(r as nat) == 16);
        assert((byte + 256 * rest) / 16 == byte / 16 + 16 * rest);
    }
    if r == 5 {
        assert(pow2(r as nat) == 32);
        assert((byte + 256 * rest) / 32 == byte / 32 + 8 * rest);
    }
    if r == 6 {
        assert(pow2(r as nat) == 64);
        assert((byte + 256 * rest) / 64 == byte / 64 + 4 * rest);
    }
    if r == 7 {
        assert(pow2(r as nat) == 128);
        assert((byte + 256 * rest) / 128 == byte / 128 + 2 * rest);
    }
}

/// Whether the bits from `k` on are `ones` set bits and a clear one.
pub open spec fn unary_lies(data: Seq<u8>, k: int, ones: nat) -> bool {
    &&& forall|i: int|
        k <= i < k + ones ==> #[trigger] has_bit(data, i) && bit_at(data, i)
    &&& has_bit(data, k + ones)
    &&& !bit_at(data, k + ones)
}

/// Whether the `width` bits from `k` on are those of `v`, the least significant
/// first.
pub open spec fn binary_lies(data: Seq<u8>, k: int, width: nat, v: nat) -> bool
    decreases width,
{
    if width == 0 {
        v == 0
    } else {
        &&& has_bit(data, k)
        &&& bit_at(data, k) <==> v % 2 == 1
        &&& binary_lies(data, k + 1, (width - 1) as nat, v / 2)
    }
}

proof fn lemma_unary(data: Seq<u8>, k: int, unit: nat, ones: nat, n: nat)
    requires
        0 <= k,
        unary_lies(data, k, ones),
        n + ones * unit <= usize::MAX,
    ensures
        unary_part(data, k, unit, n) == Ok::<(nat, int), ErrorView>(
            (n + ones * unit, k + ones + 1),
        ),
    decreases ones,
{
    if ones > 0 {
        assert(has_bit(data, k));
        assert(ones * unit == unit + (ones - 1) * unit) by (nonlinear_arith)
            requires
                ones > 0,
        ;
        assert((ones - 1) * unit >= 0) by (nonlinear_arith)
            requires
                ones > 0,
                unit >= 0,
        ;
        lemma_unary(data, k + 1, unit, (ones - 1) as nat, n + unit);
    } else {
        assert(ones * unit == 0) by (nonlinear_arith)
            requires
                ones == 0,
        ;
    }
}

proof fn lemma_binary(data: Seq<u8>, k: int, width: nat, weight: nat, v: nat, n: nat)
    requires
        binary_lies(data, k, width, v),
        n + weight * v <= usize::MAX,
    ensures
        binary_part(data, k, width, weight, n) == Ok::<(nat, int), ErrorView>(
            (n + weight * v, k + width),
        ),
    decreases width,
{
    if width > 0 {
        let half = v / 2;
        assert(v == 2 * half + v % 2);
        assert(weight * v == weight * (v % 2) + (2 * weight) * half) by (nonlinear_arith)
            requires
                v == 2 * half + v % 2,
        ;
        assert((2 * weight) * half >= 0) by (nonlinear_arith)
            requires
                weight >= 0,
                half >= 0,
        ;
        if v % 2 == 1 {
            assert(weight * (v % 2) == weight) by (nonlinear_arith)
                requires
                    v % 2 == 1,
            ;
            lemma_binary(data, k + 1, (width - 1) as nat, 2 * weight, half, n + weight);
        } else {
            assert(weight * (v % 2) == 0) by (nonlinear_arith)
                requires
                    v % 2 == 0,
            ;
            lemma_binary(data, k + 1, (width - 1) as nat, 2 * weight, half, n);
        }
    } else {
        assert(weight * v == 0) by (nonlinear_arith)
            requires
                v == 0,
        ;
    }
}

/// A phrase length is one, as many units of two to the power `bits` as there are
/// set bits in front of the first clear one, and the number in the bits behind
/// it: as many bits as `bits` says, but at least one and at most five.
pub proof fn law_phrase_lengths(data: Seq<u8>, k: int, bits: nat, ones: nat, width: nat, v: nat)
    requires
        0 <= k,
        width == if bits == 0 {
            1
        } else if bits > 5 {
            5
        } else {
            bits
        },
        unary_lies(data, k, ones),
        binary_lies(data, k + ones + 1, width, v),
        1 + ones * pow2(bits) + v <= usize::MAX,
    ensures
        phrase_length(data, k, bits) == Ok::<(nat, int), ErrorView>(
            (1 + ones * pow2(bits) + v, k + ones + 1 + width),
        ),
{
    lemma_unary(data, k, pow2(bits), ones, 1);
    lemma_binary(data, k + ones + 1, width, 1, v, 1 + ones * pow2(bits));
}

/// Whether the lengths of the phrases from number `i` on lie in the stream, that
/// of phrase `i` from bit `k` on.
pub open spec fn lengths_lie(
    stream: Seq<u8>,
    k: int,
    bits: nat,
    phrases: Seq<Seq<u8>>,
    i: int,
) -> bool
    decreases phrases.len() - i,
{
    i >= phrases.len() || (phrase_length(stream, k, bits) matches Ok((n, next)) && n
        == phrases[i].len() && lengths_lie(stream, next, bits, phrases, i + 1))
}

proof fn lemma_ends(stream: Seq<u8>, k: int, bits: nat, phrases: Seq<Seq<u8>>, i: int)
    requires
        0 <= i <= phrases.len(),
        lengths_lie(stream, k, bits, phrases, i),
        joined(phrases).len() <= usize::MAX,
    ensures
        phrase_ends(
            stream,
            k,
            bits,
            (phrases.len() - i) as nat,
            phrase_end(phrases, 0, i) as nat,
        ) == Ok::<Seq<int>, ErrorView>(
            Seq::new((phrases.len() - i) as nat, |j: int| phrase_end(phrases, 0, i + j + 1)),
        ),
    decreases phrases.len() - i,
{
    let expected = Seq::new(
        (phrases.len() - i) as nat,
        |j: int| phrase_end(phrases, 0, i + j + 1),
    );
    lemma_phrase_end(phrases, 0, i);
    if i < phrases.len() {
        let (n, next) = phrase_length(stream, k, bits)->Ok_0;
        lemma_ends(stream, next, bits, phrases, i + 1);
        lemma_phrase_end(phrases, 0, i + 1);
        crate::records::lemma_joined_prefix(phrases, i + 1);
        let rest = Seq::new(
            (phrases.len() - (i + 1)) as nat,
            |j: int| phrase_end(phrases, 0, i + 1 + j + 1),
        );
        assert(seq![phrase_end(phrases, 0, i + 1)] + rest =~= expected);
    } else {
        assert(expected =~= Seq::empty());
    }
}

/// A phrase table of WinHelp 4.0 is read back: its header gives the number of
/// phrases, the two sizes of the phrase image, and the bits of a length unit;
/// behind it stand the lengths. The image is stored plainly where the sizes
/// agree, and otherwise packed by LZ77 operations.
pub proof fn law_hall_table_is_read_back(
    index: Seq<u8>,
    image: Seq<u8>,
    phrases: Seq<Seq<u8>>,
    stored_size: u32,
    ops: Seq<Operation>,
)
    requires
        index.len() >= 28,
        phrases.len() <= u32::MAX,
        joined(phrases).len() <= u32::MAX,
        joined(phrases).len() <= usize::MAX,
        holds(index, 4, le32_bytes(phrases.len() as u32)),
        holds(index, 12, le32_bytes(joined(phrases).len() as u32)),
        holds(index, 16, le32_bytes(stored_size)),
        lengths_lie(index.skip(28), 0, (le16(index, 24) % 16) as nat, phrases, 0),
        stored_size == joined(phrases).len() ==> image == joined(phrases),
        stored_size != joined(phrases).len() ==> image == packed(ops) && all_performed(
            Seq::empty(),
            ops,
        ) == joined(phrases) && forall|i: int|
            0 <= i < ops.len() ==> crate::lz77::encodable(#[trigger] ops[i]),
    ensures
        hall_result(index, image) == Ok::<PhraseTableView, ErrorView>(
            PhraseTableView { phrases, hall: true },
        ),
{
    lemma_holds_le32(index, 4, phrases.len() as u32);
    lemma_holds_le32(index, 12, joined(phrases).len() as u32);
    lemma_holds_le32(index, 16, stored_size);
    let blob = joined(phrases);
    if stored_size != blob.len() {
        law_operations_decompress(ops);
    }
    let bits = (le16(index, 24) % 16) as nat;
    let stream = index.skip(28);
    lemma_ends(stream, 0, bits, phrases, 0);
    let ends = Seq::new(phrases.len(), |j: int| phrase_end(phrases, 0, 0 + j + 1));
    assert(phrase_ends(stream, 0, bits, phrases.len(), 0) == Ok::<Seq<int>, ErrorView>(ends));
    let bounds = seq![0int] + ends;
    assert forall|i: int| 0 <= i <= phrases.len() implies #[trigger] bounds[i] == phrase_end(
        phrases,
        0,
        i,
    ) by {}
    lemma_phrase_end(phrases, 0, phrases.len() as int);
    assert(phrases.take(phrases.len() as int) =~= phrases);
    assert(bounds.last() == bounds[phrases.len() as int]);
    lemma_holds_all(blob);
    let cut = parts(blob, bounds);
    assert(cut =~= phrases) by {
        assert forall|i: int| 0 <= i < phrases.len() implies cut[i] == phrases[i] by {
            lemma_phrase_place(blob, 0, phrases, i);
            assert(bounds[i] == phrase_end(phrases, 0, i));
            assert(bounds[i + 1] == phrase_end(phrases, 0, i + 1));
        }
    }
}

} // verus!
