//! The LZ77 variant that WinHelp uses for topic blocks, phrases and pictures.

use vstd::prelude::*;

use crate::bytes::{
    holds, le16, le16_bytes, lemma_holds_all, lemma_holds_le16, lemma_holds_parts, u16_at,
};
use crate::Error;

verus! {

/// `out` with `n` more bytes, each a copy of the byte `back` places before it;
/// zero where the output does not reach back that far.
pub open spec fn copy_back(out: Seq<u8>, back: nat, n: nat) -> Seq<u8>
    decreases n,
{
    if n == 0 {
        out
    } else {
        let shorter = copy_back(out, back, (n - 1) as nat);
        shorter.push(
            if shorter.len() >= back {
                shorter[shorter.len() - back]
            } else {
                0
            },
        )
    }
}

/// What the operations of one control byte do, least significant bit first:
/// a clear bit copies one byte, a set bit reads a 16-bit word whose low
/// twelve bits are the distance minus one and whose high four bits are the
/// length minus three. Gives the position and the output that they leave.
pub open spec fn lz77_group(data: Seq<u8>, pos: int, control: nat, bits: nat, out: Seq<u8>) -> (
    int,
    Seq<u8>,
)
    decreases bits,
{
    if bits == 0 || pos >= data.len() {
        (pos, out)
    } else if control % 2 == 0 {
        lz77_group(data, pos + 1, control / 2, (bits - 1) as nat, out.push(data[pos]))
    } else if pos + 1 >= data.len() {
        (data.len() as int, out)
    } else {
        let word = le16(data, pos) as nat;
        lz77_group(
            data,
            pos + 2,
            control / 2,
            (bits - 1) as nat,
            copy_back(out, word % 4096 + 1, word / 4096 + 3),
        )
    }
}

/// A group never moves backwards, and never past the end.
pub proof fn lemma_group_advances(data: Seq<u8>, pos: int, control: nat, bits: nat, out: Seq<u8>)
    requires
        0 <= pos <= data.len(),
    ensures
        pos <= lz77_group(data, pos, control, bits, out).0 <= data.len(),
    decreases bits,
{
    if bits == 0 || pos >= data.len() {
    } else if control % 2 == 0 {
        lemma_group_advances(data, pos + 1, control / 2, (bits - 1) as nat, out.push(data[pos]));
    } else if pos + 1 < data.len() {
        let word = le16(data, pos) as nat;
        lemma_group_advances(
            data,
            pos + 2,
            control / 2,
            (bits - 1) as nat,
            copy_back(out, word % 4096 + 1, word / 4096 + 3),
        );
    }
}

/// The output of all groups from `pos` on, behind what is already in `out`.
pub open spec fn lz77_from(data: Seq<u8>, pos: int, out: Seq<u8>) -> Seq<u8>
    decreases data.len() - pos,
{
    if pos < 0 || pos >= data.len() {
        out
    } else {
        let (next, more) = lz77_group(data, pos + 1, data[pos] as nat, 8, out);
        proof {
            lemma_group_advances(data, pos + 1, data[pos] as nat, 8, out);
        }
        lz77_from(data, next, more)
    }
}

/// The decompressed form of `data`.
pub open spec fn lz77(data: Seq<u8>) -> Seq<u8> {
    lz77_from(data, 0, Seq::empty())
}

/// Copies `length` bytes from `back` places before the end of the output.
fn push_back_reference(out: &mut Vec<u8>, back: usize, length: usize)
    requires
        back >= 1,
    ensures
        final(out)@ == copy_back(old(out)@, back as nat, length as nat),
{
    let mut j: usize = 0;
    while j < length
        invariant
            j <= length,
            back >= 1,
            out@ == copy_back(old(out)@, back as nat, j as nat),
        decreases length - j,
    {
        let n: usize = out.len();
        let byte: u8 = if n >= back {
            out[n - back]
        } else {
            0
        };
        out.push(byte);
        j += 1;
    }
}

/// Decompresses data with the WinHelp LZ77 variant.
///
/// There is no pre-initialised window: a back-reference that reaches before
/// the start of the output gives zero bytes. Every input is accepted; a
/// back-reference that is cut off at the end of the input is dropped.
pub fn lz77_decompress(data: &[u8]) -> (r: Result<Vec<u8>, Error>)
    ensures
        r matches Ok(out) && out@ == lz77(data@),
{
    let mut out: Vec<u8> = Vec::new();
    let mut pos: usize = 0;
    let len: usize = data.len();
    while pos < len
        invariant
            pos <= len,
            len == data@.len(),
            lz77_from(data@, pos as int, out@) == lz77(data@),
        decreases len - pos,
    {
        let ghost start = pos;
        let ghost start_out = out@;
        let mut control: u8 = data[pos];
        pos += 1;
        let ghost group = lz77_group(data@, pos as int, control as nat, 8, out@);
        let mut bits: u8 = 8;
        while bits > 0 && pos < len
            invariant
                bits <= 8,
                start < pos <= len,
                len == data@.len(),
                lz77_group(data@, pos as int, control as nat, bits as nat, out@) == group,
            decreases bits,
        {
            if control % 2 == 0 {
                out.push(data[pos]);
                pos += 1;
            } else if pos + 1 >= len {
                pos = len;
                // The cut-off operation is the last one of its group.
                control = 0;
                bits = 1;
            } else {
                let word: usize = u16_at(data, pos) as usize;
                push_back_reference(&mut out, word % 4096 + 1, word / 4096 + 3);
                pos += 2;
            }
            control = control / 2;
            bits -= 1;
        }
        assert(group == (pos as int, out@));
        assert(lz77_from(data@, start as int, start_out) == lz77_from(data@, pos as int, out@));
    }
    Ok(out)
}

// ---------------------------------------------------------------------------
// Laws
// ---------------------------------------------------------------------------

/// `s` as literal bytes: a zero control byte in front of every eight.
pub open spec fn literal_groups(s: Seq<u8>) -> Seq<u8>
    decreases s.len(),
{
    if s.len() == 0 {
        Seq::empty()
    } else if s.len() <= 8 {
        seq![0u8] + s
    } else {
        seq![0u8] + s.take(8) + literal_groups(s.skip(8))
    }
}

proof fn lemma_literal_group(data: Seq<u8>, pos: int, bits: nat, out: Seq<u8>)
    requires
        0 <= pos <= data.len(),
    ensures
        ({
            let end = if pos + bits <= data.len() {
                pos + bits
            } else {
                data.len() as int
            };
            lz77_group(data, pos, 0, bits, out) == (end, out + data.subrange(pos, end))
        }),
    decreases bits,
{
    let end = if pos + bits <= data.len() {
        pos + bits
    } else {
        data.len() as int
    };
    if bits == 0 || pos >= data.len() {
        assert(out + data.subrange(pos, end) =~= out);
    } else {
        lemma_literal_group(data, pos + 1, (bits - 1) as nat, out.push(data[pos]));
        assert(out.push(data[pos]) + data.subrange(pos + 1, end) =~= out + data.subrange(pos, end));
    }
}

proof fn lemma_literals_from(data: Seq<u8>, pos: int, s: Seq<u8>, out: Seq<u8>)
    requires
        0 <= pos <= data.len(),
        data.skip(pos) == literal_groups(s),
    ensures
        lz77_from(data, pos, out) == out + s,
    decreases s.len(),
{
    let rest = data.skip(pos);
    if s.len() == 0 {
        assert(out + s =~= out);
        assert(rest.len() == 0);
    } else {
        assert(rest.len() >= 1 && rest[0] == 0);
        assert(rest.len() == data.len() - pos);
        assert(data[pos] == rest[0]);
        lemma_literal_group(data, pos + 1, 8, out);
        if s.len() <= 8 {
            assert(rest.len() == s.len() + 1);
            assert(data.subrange(pos + 1, data.len() as int) =~= s) by {
                assert forall|i: int| 0 <= i < s.len() implies data[pos + 1 + i] == s[i] by {
                    assert(rest[i + 1] == s[i]);
                }
            }
            assert(lz77_from(data, data.len() as int, out + s) == out + s);
        } else {
            let tail = literal_groups(s.skip(8));
            assert(rest =~= seq![0u8] + s.take(8) + tail);
            assert(data.subrange(pos + 1, pos + 9) =~= s.take(8)) by {
                assert forall|i: int| 0 <= i < 8 implies data[pos + 1 + i] == s[i] by {
                    assert(rest[i + 1] == s[i]);
                }
            }
            assert(data.skip(pos + 9) =~= tail) by {
                assert forall|i: int| 0 <= i < tail.len() implies data[pos + 9 + i] == tail[i] by {
                    assert(rest[i + 9] == tail[i]);
                }
            }
            lemma_literals_from(data, pos + 9, s.skip(8), out + s.take(8));
            assert(out + s.take(8) + s.skip(8) =~= out + s);
        }
    }
}

/// Data that holds literals only decompresses to those literals.
pub proof fn law_literals_decompress_to_themselves(s: Seq<u8>)
    ensures
        lz77(literal_groups(s)) == s,
{
    let data = literal_groups(s);
    assert(data.skip(0) =~= data);
    lemma_literals_from(data, 0, s, Seq::empty());
    assert(Seq::<u8>::empty() + s =~= s);
}

/// A back-reference leaves what was there before, adds exactly its length,
/// and repeats the byte `back` places earlier (zero before the start).
pub proof fn law_back_reference(out: Seq<u8>, back: nat, n: nat)
    requires
        back >= 1,
    ensures
        copy_back(out, back, n).len() == out.len() + n,
        copy_back(out, back, n).take(out.len() as int) == out,
        forall|i: int|
            out.len() <= i < out.len() + n ==> #[trigger] copy_back(out, back, n)[i] == if i
                >= back {
                copy_back(out, back, n)[i - back]
            } else {
                0
            },
    decreases n,
{
    if n > 0 {
        law_back_reference(out, back, (n - 1) as nat);
        let shorter = copy_back(out, back, (n - 1) as nat);
        let longer = copy_back(out, back, n);
        assert(longer.take(out.len() as int) =~= shorter.take(out.len() as int));
    } else {
        assert(out.take(out.len() as int) =~= out);
    }
}

/// One operation of a compressed stream.
pub enum Operation {
    /// One byte.
    Literal { byte: u8 },
    /// Bytes from `back` places before the end of the output.
    Copy { back: nat, length: nat },
}

/// Whether an operation can be encoded: a copy reaches back between 1 and 4096
/// places and is between 3 and 18 bytes long.
pub open spec fn encodable(op: Operation) -> bool {
    match op {
        Operation::Literal { .. } => true,
        Operation::Copy { back, length } => 1 <= back <= 4096 && 3 <= length <= 18,
    }
}

/// The output after an operation.
pub open spec fn performed(out: Seq<u8>, op: Operation) -> Seq<u8> {
    match op {
        Operation::Literal { byte } => out.push(byte),
        Operation::Copy { back, length } => copy_back(out, back, length),
    }
}

/// The output after all operations.
pub open spec fn all_performed(out: Seq<u8>, ops: Seq<Operation>) -> Seq<u8>
    decreases ops.len(),
{
    if ops.len() == 0 {
        out
    } else {
        all_performed(performed(out, ops[0]), ops.skip(1))
    }
}

/// The operand of an operation.
pub open spec fn operand(op: Operation) -> Seq<u8> {
    match op {
        Operation::Literal { byte } => seq![byte],
        Operation::Copy { back, length } => le16_bytes(
            ((length - 3) * 4096 + (back - 1)) as u16,
        ),
    }
}

/// The operands of operations, one after another.
pub open spec fn operands(ops: Seq<Operation>) -> Seq<u8>
    decreases ops.len(),
{
    if ops.len() == 0 {
        Seq::empty()
    } else {
        operand(ops[0]) + operands(ops.skip(1))
    }
}

/// The control bits of operations, the first in the least significant place.
pub open spec fn control_bits(ops: Seq<Operation>) -> nat
    decreases ops.len(),
{
    if ops.len() == 0 {
        0
    } else {
        (if ops[0] is Copy {
            1nat
        } else {
            0nat
        }) + 2 * control_bits(ops.skip(1))
    }
}

/// The compressed form of operations: eight at a time, a control byte in front
/// of their operands.
pub open spec fn packed(ops: Seq<Operation>) -> Seq<u8>
    decreases ops.len(),
{
    if ops.len() == 0 {
        Seq::empty()
    } else if ops.len() <= 8 {
        seq![control_bits(ops) as u8] + operands(ops)
    } else {
        seq![control_bits(ops.take(8)) as u8] + (operands(ops.take(8)) + packed(ops.skip(8)))
    }
}

proof fn lemma_control_bits_fit(ops: Seq<Operation>)
    requires
        ops.len() <= 8,
    ensures
        control_bits(ops) < 256,
{
    reveal_with_fuel(control_bits, 9);
}

proof fn lemma_performed_concat(out: Seq<u8>, a: Seq<Operation>, b: Seq<Operation>)
    ensures
        all_performed(out, a + b) == all_performed(all_performed(out, a), b),
    decreases a.len(),
{
    if a.len() == 0 {
        assert(a + b =~= b);
    } else {
        assert((a + b).skip(1) =~= a.skip(1) + b);
        lemma_performed_concat(performed(out, a[0]), a.skip(1), b);
    }
}

proof fn lemma_group_of(data: Seq<u8>, pos: int, ops: Seq<Operation>, bits: nat, out: Seq<u8>)
    requires
        holds(data, pos, operands(ops)),
        forall|i: int| 0 <= i < ops.len() ==> encodable(#[trigger] ops[i]),
        ops.len() == bits || ops.len() < bits && pos + operands(ops).len() == data.len(),
    ensures
        lz77_group(data, pos, control_bits(ops), bits, out) == (
            pos + operands(ops).len(),
            all_performed(out, ops),
        ),
    decreases ops.len(),
{
    if ops.len() > 0 {
        let rest = ops.skip(1);
        let op = ops[0];
        assert(encodable(op));
        assert forall|i: int| 0 <= i < rest.len() implies encodable(#[trigger] rest[i]) by {
            assert(rest[i] == ops[i + 1]);
        }
        lemma_holds_parts(data, pos, operand(op), operands(rest));
        assert(control_bits(ops) / 2 == control_bits(rest));
        lemma_group_of(
            data,
            pos + operand(op).len(),
            rest,
            (bits - 1) as nat,
            performed(out, op),
        );
        match op {
            Operation::Literal { byte } => {
                assert(data.subrange(pos, pos + 1)[0] == data[pos]);
            },
            Operation::Copy { back, length } => {
                lemma_holds_le16(data, pos, ((length - 3) * 4096 + (back - 1)) as u16);
            },
        }
    }
}

proof fn lemma_packed_from(data: Seq<u8>, pos: int, ops: Seq<Operation>, out: Seq<u8>)
    requires
        holds(data, pos, packed(ops)),
        pos + packed(ops).len() == data.len(),
        forall|i: int| 0 <= i < ops.len() ==> encodable(#[trigger] ops[i]),
    ensures
        lz77_from(data, pos, out) == all_performed(out, ops),
    decreases ops.len(),
{
    if ops.len() > 0 {
        let group = if ops.len() <= 8 {
            ops
        } else {
            ops.take(8)
        };
        let rest = if ops.len() <= 8 {
            Seq::<Operation>::empty()
        } else {
            ops.skip(8)
        };
        assert(group + rest =~= ops);
        let control = control_bits(group) as u8;
        lemma_control_bits_fit(group);
        assert(packed(ops) =~= seq![control] + (operands(group) + packed(rest)));
        lemma_holds_parts(data, pos, seq![control], operands(group) + packed(rest));
        lemma_holds_parts(data, pos + 1, operands(group), packed(rest));
        assert(data.subrange(pos, pos + 1)[0] == data[pos]);
        assert forall|i: int| 0 <= i < group.len() implies encodable(#[trigger] group[i]) by {
            assert(group[i] == ops[i]);
        }
        assert forall|i: int| 0 <= i < rest.len() implies encodable(#[trigger] rest[i]) by {
            assert(rest[i] == ops[i + 8]);
        }
        lemma_group_of(data, pos + 1, group, 8, out);
        lemma_packed_from(
            data,
            pos + 1 + operands(group).len(),
            rest,
            all_performed(out, group),
        );
        lemma_performed_concat(out, group, rest);
    }
}

/// Compressed operations decompress to what they produce.
pub proof fn law_operations_decompress(ops: Seq<Operation>)
    requires
        forall|i: int| 0 <= i < ops.len() ==> encodable(#[trigger] ops[i]),
    ensures
        lz77(packed(ops)) == all_performed(Seq::empty(), ops),
{
    let data = packed(ops);
    lemma_holds_all(data);
    lemma_packed_from(data, 0, ops, Seq::empty());
}

} // verus!
