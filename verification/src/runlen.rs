//! The run-length encoding of pictures.
//!
//! A control byte below 128 is a count: the next byte is repeated that often.
//! A control byte `128 + n` introduces `n` bytes that are copied. The control
//! bytes 0 and 128 stand for nothing.

use vstd::prelude::*;

use crate::bytes::push_all;
use crate::phrase::{push_repeated, repeated};

verus! {

/// The bytes that the runs from `pos` on stand for. A run that is cut off at
/// the end of the input gives the bytes that are there.
pub open spec fn derun_from(input: Seq<u8>, pos: int) -> Seq<u8>
    decreases input.len() - pos,
{
    if pos < 0 || pos >= input.len() {
        Seq::empty()
    } else {
        let control = input[pos];
        if control == 0 || control == 128 {
            derun_from(input, pos + 1)
        } else if control < 128 {
            if pos + 1 >= input.len() {
                Seq::empty()
            } else {
                repeated(input[pos + 1], control as nat) + derun_from(input, pos + 2)
            }
        } else {
            let end = if pos + 1 + (control - 128) <= input.len() {
                pos + 1 + (control - 128)
            } else {
                input.len() as int
            };
            input.subrange(pos + 1, end) + derun_from(input, end)
        }
    }
}

/// Decodes a run-length encoded stream.
pub fn derun(input: &[u8]) -> (out: Vec<u8>)
    ensures
        out@ == derun_from(input@, 0),
{
    let mut out: Vec<u8> = Vec::new();
    let len: usize = input.len();
    let mut pos: usize = 0;
    let ghost all = derun_from(input@, 0);
    assert(out@ + all =~= all);
    while pos < len
        invariant
            pos <= len,
            len == input@.len(),
            all == derun_from(input@, 0),
            all == out@ + derun_from(input@, pos as int),
        decreases len - pos,
    {
        let control: u8 = input[pos];
        let ghost before = out@;
        let ghost mut piece: Seq<u8> = Seq::empty();
        pos += 1;
        if control == 0 || control == 128 {
        } else if control < 128 {
            if pos >= len {
                assert(out@ + Seq::<u8>::empty() =~= out@);
                return out;
            }
            let byte: u8 = input[pos];
            push_repeated(&mut out, byte, control as usize);
            pos += 1;
            proof {
                piece = repeated(byte, control as nat);
            }
        } else {
            let n: usize = control as usize - 128;
            let end: usize = if n <= len - pos {
                pos + n
            } else {
                len
            };
            push_all(&mut out, vstd::slice::slice_subrange(input, pos, end));
            proof {
                piece = input@.subrange(pos as int, end as int);
            }
            pos = end;
        }
        proof {
            assert(out@ =~= before + piece);
            let rest = derun_from(input@, pos as int);
            assert(before + (piece + rest) =~= before + piece + rest);
            assert(Seq::<u8>::empty() + rest =~= rest);
        }
    }
    assert(out@ + Seq::<u8>::empty() =~= out@);
    out
}

// ---------------------------------------------------------------------------
// Laws
// ---------------------------------------------------------------------------

/// A run of an encoded stream.
pub enum Run {
    /// One byte, repeated.
    Packed { byte: u8, count: nat },
    /// Bytes that are copied.
    Literal { bytes: Seq<u8> },
}

/// Whether a run can be encoded: its length is between 1 and 127.
pub open spec fn encodable(run: Run) -> bool {
    match run {
        Run::Packed { count, .. } => 0 < count < 128,
        Run::Literal { bytes } => 0 < bytes.len() < 128,
    }
}

/// The bytes that a run stands for.
pub open spec fn run_text(run: Run) -> Seq<u8> {
    match run {
        Run::Packed { byte, count } => repeated(byte, count),
        Run::Literal { bytes } => bytes,
    }
}

/// The encoded form of a run.
pub open spec fn run_bytes(run: Run) -> Seq<u8> {
    match run {
        Run::Packed { byte, count } => seq![count as u8, byte],
        Run::Literal { bytes } => seq![(128 + bytes.len()) as u8] + bytes,
    }
}

/// The bytes that runs stand for, one after another.
pub open spec fn runs_text(runs: Seq<Run>) -> Seq<u8>
    decreases runs.len(),
{
    if runs.len() == 0 {
        Seq::empty()
    } else {
        run_text(runs[0]) + runs_text(runs.skip(1))
    }
}

/// The encoded form of runs, one after another.
pub open spec fn runs_bytes(runs: Seq<Run>) -> Seq<u8>
    decreases runs.len(),
{
    if runs.len() == 0 {
        Seq::empty()
    } else {
        run_bytes(runs[0]) + runs_bytes(runs.skip(1))
    }
}

proof fn lemma_runs_from(input: Seq<u8>, pos: int, runs: Seq<Run>)
    requires
        0 <= pos <= input.len(),
        input.skip(pos) == runs_bytes(runs),
        forall|i: int| 0 <= i < runs.len() ==> encodable(#[trigger] runs[i]),
    ensures
        derun_from(input, pos) == runs_text(runs),
    decreases runs.len(),
{
    let rest = input.skip(pos);
    if runs.len() == 0 {
        assert(rest.len() == 0);
    } else {
        let run = runs[0];
        assert(encodable(run));
        let first = run_bytes(run);
        let tail = runs.skip(1);
        assert forall|i: int| 0 <= i < tail.len() implies encodable(#[trigger] tail[i]) by {
            assert(tail[i] == runs[i + 1]);
        }
        assert(rest == first + runs_bytes(tail));
        assert forall|i: int| 0 <= i < first.len() implies input[pos + i] == first[i] by {
            assert(rest[i] == first[i]);
        }
        assert(input.skip(pos + first.len()) =~= runs_bytes(tail)) by {
            assert forall|i: int| 0 <= i < runs_bytes(tail).len() implies input[pos + first.len()
                + i] == runs_bytes(tail)[i] by {
                assert(rest[first.len() + i] == runs_bytes(tail)[i]);
            }
        }
        lemma_runs_from(input, pos + first.len(), tail);
        match run {
            Run::Packed { byte, count } => {
                assert(input[pos + 0] == first[0]);
                assert(input[pos + 1] == first[1]);
            },
            Run::Literal { bytes } => {
                assert(input[pos + 0] == first[0]);
                let end = pos + first.len();
                assert(input.subrange(pos + 1, end) =~= bytes) by {
                    assert forall|i: int| 0 <= i < bytes.len() implies input[pos + 1 + i]
                        == bytes[i] by {
                        assert(input[pos + (1 + i)] == first[1 + i]);
                    }
                }
            },
        }
    }
}

/// Encoded runs decode to the bytes that they stand for.
pub proof fn law_runs_decode(runs: Seq<Run>)
    requires
        forall|i: int| 0 <= i < runs.len() ==> encodable(#[trigger] runs[i]),
    ensures
        derun_from(runs_bytes(runs), 0) == runs_text(runs),
{
    let input = runs_bytes(runs);
    assert(input.skip(0) =~= input);
    lemma_runs_from(input, 0, runs);
}

proof fn lemma_derun_behind(front: Seq<u8>, rest: Seq<u8>, pos: int)
    requires
        0 <= pos,
    ensures
        derun_from(front + rest, front.len() + pos) == derun_from(rest, pos),
    decreases rest.len() - pos,
{
    let all = front + rest;
    let at = front.len() + pos;
    if pos < rest.len() {
        let control = rest[pos];
        assert(all[at] == control);
        if control == 0 || control == 128 {
            lemma_derun_behind(front, rest, pos + 1);
        } else if control < 128 {
            if pos + 1 < rest.len() {
                lemma_derun_behind(front, rest, pos + 2);
                assert(all[at + 1] == rest[pos + 1]);
            }
        } else {
            let end = if pos + 1 + (control - 128) <= rest.len() {
                pos + 1 + (control - 128)
            } else {
                rest.len() as int
            };
            lemma_derun_behind(front, rest, end);
            assert(all.subrange(at + 1, front.len() + end) =~= rest.subrange(pos + 1, end));
        }
    }
}

/// The control bytes 0 and 128 stand for nothing. At the end of the input a run
/// of copied bytes gives the bytes that are there, and a repeated byte that is
/// not there gives nothing.
pub proof fn law_idle_and_cut_off_runs(rest: Seq<u8>, count: u8, bytes: Seq<u8>)
    requires
        0 < count < 128,
        bytes.len() <= count,
    ensures
        derun_from(seq![0u8] + rest, 0) == derun_from(rest, 0),
        derun_from(seq![128u8] + rest, 0) == derun_from(rest, 0),
        derun_from(seq![count], 0).len() == 0,
        derun_from(seq![(128 + count) as u8] + bytes, 0) == bytes,
{
    lemma_derun_behind(seq![0u8], rest, 0);
    lemma_derun_behind(seq![128u8], rest, 0);
    let all = seq![(128 + count) as u8] + bytes;
    assert(all.subrange(1, all.len() as int) =~= bytes);
    assert(derun_from(all, all.len() as int) =~= Seq::empty());
    assert(derun_from(all, 0) =~= bytes);
}

} // verus!
