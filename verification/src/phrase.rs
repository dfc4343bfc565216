//! Phrase substitution: the dictionary of frequent phrases and the token
//! streams that refer to it.
//!
//! Two encodings exist. In **WinHelp 3.1** the bytes 1 to 15 start a two-byte
//! token `v = 256 * (byte1 - 1) + byte2` for the phrase `v / 2`, with a space
//! behind it where `v` is odd; all other bytes stand for themselves. In
//! **WinHelp 4.0** ("Hall") every byte is classified by its low bits:
//!
//! | low bits   | meaning                                                    |
//! |------------|------------------------------------------------------------|
//! | `xxxxxxx0` | the phrase `byte / 2`                                      |
//! | `xxxxxx01` | the phrase `128 + (byte / 4) * 256 + next byte`            |
//! | `xxxxx011` | `byte / 8 + 1` literal bytes follow                        |
//! | `xxxx0111` | `byte / 16 + 1` spaces                                     |
//! | `xxxx1111` | `byte / 16 + 1` NUL bytes                                  |

use vstd::prelude::*;

use crate::bytes::{le16, push_all, u16_at};
use crate::error::{bad_file, new_bad_file, prefixed, ErrorView};
use crate::lz77::{lz77, lz77_decompress};
use crate::text::{decimal, push_decimal, push_str};
use crate::views::{lemma_views_push, views};
use crate::Error;

verus! {

/// The phrase dictionary.
#[derive(Debug, Clone)]
pub struct PhraseTable {
    /// The phrases, by index.
    pub phrases: Vec<Vec<u8>>,
    /// True where tokens are in the WinHelp 4.0 encoding.
    pub hall: bool,
}

/// A phrase dictionary with its phrases as byte sequences.
pub struct PhraseTableView {
    pub phrases: Seq<Seq<u8>>,
    pub hall: bool,
}

impl View for PhraseTable {
    type V = PhraseTableView;

    open spec fn view(&self) -> PhraseTableView {
        PhraseTableView { phrases: views(self.phrases@), hall: self.hall }
    }
}

// ---------------------------------------------------------------------------
// Expansion
// ---------------------------------------------------------------------------

/// The error of a token whose phrase is not in a table of `count` phrases.
pub open spec fn phrase_range_error(index: nat, count: nat) -> ErrorView {
    ErrorView::Decompression(
        "phrase index "@ + decimal(index) + " out of range (table has "@ + decimal(count)
            + " entries)"@,
    )
}

fn new_phrase_range_error(index: usize, count: usize) -> (e: Error)
    ensures
        e@ == phrase_range_error(index as nat, count as nat),
{
    let mut s: String = "phrase index ".to_owned();
    push_decimal(&mut s, index as u64);
    push_str(&mut s, " out of range (table has ");
    push_decimal(&mut s, count as u64);
    push_str(&mut s, " entries)");
    Error::Decompression(s)
}

/// The expansion of a WinHelp 3.1 token stream from `pos` on. A token that is
/// cut off at the end stands for its first byte.
pub open spec fn expanded_oldstyle(phrases: Seq<Seq<u8>>, data: Seq<u8>, pos: int) -> Result<
    Seq<u8>,
    ErrorView,
>
    decreases data.len() - pos,
{
    if pos < 0 || pos >= data.len() {
        Ok(Seq::empty())
    } else if 0 < data[pos] < 16 {
        if pos + 1 >= data.len() {
            Ok(seq![data[pos]])
        } else {
            let value = 256 * (data[pos] - 1) + data[pos + 1];
            if value / 2 < phrases.len() {
                prefixed(
                    phrases[value / 2] + (if value % 2 == 1 {
                        seq![32u8]
                    } else {
                        Seq::empty()
                    }),
                    expanded_oldstyle(phrases, data, pos + 2),
                )
            } else {
                Err(phrase_range_error((value / 2) as nat, phrases.len()))
            }
        }
    } else {
        prefixed(seq![data[pos]], expanded_oldstyle(phrases, data, pos + 1))
    }
}

/// `n` copies of one byte.
pub open spec fn repeated(byte: u8, n: nat) -> Seq<u8> {
    Seq::new(n, |i: int| byte)
}

/// The expansion of a WinHelp 4.0 token stream from `pos` on. A two-byte token
/// that is cut off at the end stands for its first byte, and a literal run
/// ends with the stream.
pub open spec fn expanded_hall(phrases: Seq<Seq<u8>>, data: Seq<u8>, pos: int) -> Result<
    Seq<u8>,
    ErrorView,
>
    decreases data.len() - pos,
{
    if pos < 0 || pos >= data.len() {
        Ok(Seq::empty())
    } else {
        let byte = data[pos] as int;
        if byte % 2 == 0 {
            if byte / 2 < phrases.len() {
                prefixed(phrases[byte / 2], expanded_hall(phrases, data, pos + 1))
            } else {
                Err(phrase_range_error((byte / 2) as nat, phrases.len()))
            }
        } else if byte % 4 == 1 {
            if pos + 1 >= data.len() {
                Ok(seq![data[pos]])
            } else {
                let index = 128 + (byte / 4) * 256 + data[pos + 1];
                if index < phrases.len() {
                    prefixed(phrases[index], expanded_hall(phrases, data, pos + 2))
                } else {
                    Err(phrase_range_error(index as nat, phrases.len()))
                }
            }
        } else if byte % 8 == 3 {
            let end = if pos + 1 + byte / 8 + 1 <= data.len() {
                pos + 1 + byte / 8 + 1
            } else {
                data.len() as int
            };
            prefixed(data.subrange(pos + 1, end), expanded_hall(phrases, data, end))
        } else if byte % 16 == 7 {
            prefixed(
                repeated(32, (byte / 16 + 1) as nat),
                expanded_hall(phrases, data, pos + 1),
            )
        } else {
            prefixed(
                repeated(0, (byte / 16 + 1) as nat),
                expanded_hall(phrases, data, pos + 1),
            )
        }
    }
}

/// The expansion of `data` by a phrase table.
pub open spec fn expanded(table: PhraseTableView, data: Seq<u8>) -> Result<Seq<u8>, ErrorView> {
    if table.hall {
        expanded_hall(table.phrases, data, 0)
    } else {
        expanded_oldstyle(table.phrases, data, 0)
    }
}

/// Appends `n` copies of one byte.
pub fn push_repeated(out: &mut Vec<u8>, byte: u8, n: usize)
    ensures
        final(out)@ == old(out)@ + repeated(byte, n as nat),
{
    let mut i: usize = 0;
    assert(out@ =~= old(out)@ + repeated(byte, 0));
    while i < n
        invariant
            i <= n,
            out@ == old(out)@ + repeated(byte, i as nat),
        decreases n - i,
    {
        out.push(byte);
        i += 1;
        assert(out@ =~= old(out)@ + repeated(byte, i as nat));
    }
}

/// Two pieces in front of a result, one after the other.
proof fn lemma_prefixed_twice<T, E>(a: Seq<T>, b: Seq<T>, r: Result<Seq<T>, E>)
    ensures
        prefixed(a, prefixed(b, r)) == prefixed(a + b, r),
{
    if let Ok(s) = r {
        assert(a + (b + s) =~= a + b + s);
    }
}

proof fn lemma_prefixed_empty<T, E>(r: Result<Seq<T>, E>)
    ensures
        prefixed(Seq::empty(), r) == r,
{
    if let Ok(s) = r {
        assert(Seq::<T>::empty() + s =~= s);
    }
}

impl PhraseTable {
    /// An empty phrase table, for files without phrase compression.
    pub fn empty() -> (t: Self)
        ensures
            t@ == (PhraseTableView { phrases: Seq::empty(), hall: false }),
    {
        let t = PhraseTable { phrases: Vec::new(), hall: false };
        assert(views(t.phrases@) =~= Seq::empty());
        t
    }

    /// Number of phrases in the table.
    pub fn len(&self) -> (n: usize)
        ensures
            n == self@.phrases.len(),
    {
        self.phrases.len()
    }

    /// Whether the table has no phrases.
    pub fn is_empty(&self) -> (b: bool)
        ensures
            b == (self@.phrases.len() == 0),
    {
        self.phrases.is_empty()
    }

    /// Expands the phrase tokens in `data`, in the encoding of this table.
    pub fn expand(&self, data: &[u8]) -> (r: Result<Vec<u8>, Error>)
        ensures
            match r {
                Ok(v) => expanded(self@, data@) == Ok::<Seq<u8>, ErrorView>(v@),
                Err(e) => expanded(self@, data@) == Err::<Seq<u8>, ErrorView>(e@),
            },
    {
        if self.hall {
            self.expand_hall(data)
        } else {
            self.expand_oldstyle(data)
        }
    }

    /// WinHelp 3.1 phrase expansion.
    fn expand_oldstyle(&self, data: &[u8]) -> (r: Result<Vec<u8>, Error>)
        ensures
            match r {
                Ok(v) => expanded_oldstyle(self@.phrases, data@, 0) == Ok::<Seq<u8>, ErrorView>(
                    v@,
                ),
                Err(e) => expanded_oldstyle(self@.phrases, data@, 0) == Err::<Seq<u8>, ErrorView>(
                    e@,
                ),
            },
    {
        let mut out: Vec<u8> = Vec::new();
        let mut i: usize = 0;
        let len: usize = data.len();
        let ghost all = expanded_oldstyle(self@.phrases, data@, 0);
        proof {
            lemma_prefixed_empty(all);
            assert(out@ =~= Seq::empty());
        }
        while i < len
            invariant
                i <= len,
                len == data@.len(),
                all == expanded_oldstyle(self@.phrases, data@, 0),
                all == prefixed(out@, expanded_oldstyle(self@.phrases, data@, i as int)),
            decreases len - i,
        {
            let cur: u8 = data[i];
            let ghost before = out@;
            if cur > 0 && cur < 16 {
                if i + 1 >= len {
                    out.push(cur);
                    assert(out@ =~= before + seq![cur]);
                    return Ok(out);
                }
                let value: usize = 256 * (cur as usize - 1) + data[i + 1] as usize;
                let index: usize = value / 2;
                if index >= self.phrases.len() {
                    return Err(new_phrase_range_error(index, self.phrases.len()));
                }
                push_all(&mut out, self.phrases[index].as_slice());
                assert(self.phrases[index as int]@ == self@.phrases[index as int]);
                let ghost piece = self@.phrases[index as int] + (if value % 2 == 1 {
                    seq![32u8]
                } else {
                    Seq::empty()
                });
                if value % 2 != 0 {
                    out.push(32);
                }
                i += 2;
                proof {
                    assert(out@ =~= before + piece);
                    lemma_prefixed_twice(
                        before,
                        piece,
                        expanded_oldstyle(self@.phrases, data@, i as int),
                    );
                }
            } else {
                out.push(cur);
                i += 1;
                proof {
                    assert(out@ =~= before + seq![cur]);
                    lemma_prefixed_twice(
                        before,
                        seq![cur],
                        expanded_oldstyle(self@.phrases, data@, i as int),
                    );
                }
            }
        }
        assert(out@ + Seq::<u8>::empty() =~= out@);
        Ok(out)
    }

    /// WinHelp 4.0 phrase expansion.
    fn expand_hall(&self, data: &[u8]) -> (r: Result<Vec<u8>, Error>)
        ensures
            match r {
                Ok(v) => expanded_hall(self@.phrases, data@, 0) == Ok::<Seq<u8>, ErrorView>(v@),
                Err(e) => expanded_hall(self@.phrases, data@, 0) == Err::<Seq<u8>, ErrorView>(e@),
            },
    {
        let mut out: Vec<u8> = Vec::new();
        let mut i: usize = 0;
        let len: usize = data.len();
        let ghost all = expanded_hall(self@.phrases, data@, 0);
        proof {
            lemma_prefixed_empty(all);
            assert(out@ =~= Seq::empty());
        }
        while i < len
            invariant
                i <= len,
                len == data@.len(),
                all == expanded_hall(self@.phrases, data@, 0),
                all == prefixed(out@, expanded_hall(self@.phrases, data@, i as int)),
            decreases len - i,
        {
            let cur: usize = data[i] as usize;
            let ghost before = out@;
            let ghost mut piece: Seq<u8> = Seq::empty();
            if cur % 2 == 0 {
                let index: usize = cur / 2;
                if index >= self.phrases.len() {
                    return Err(new_phrase_range_error(index, self.phrases.len()));
                }
                push_all(&mut out, self.phrases[index].as_slice());
                i += 1;
                proof {
                    piece = self@.phrases[index as int];
                }
            } else if cur % 4 == 1 {
                if i + 1 >= len {
                    out.push(cur as u8);
                    assert(out@ =~= before + seq![cur as u8]);
                    return Ok(out);
                }
                let index: usize = 128 + (cur / 4) * 256 + data[i + 1] as usize;
                if index >= self.phrases.len() {
                    return Err(new_phrase_range_error(index, self.phrases.len()));
                }
                push_all(&mut out, self.phrases[index].as_slice());
                i += 2;
                proof {
                    piece = self@.phrases[index as int];
                }
            } else if cur % 8 == 3 {
                let n: usize = cur / 8 + 1;
                let start: usize = i + 1;
                let end: usize = if n <= len - start {
                    start + n
                } else {
                    len
                };
                push_all(&mut out, vstd::slice::slice_subrange(data, start, end));
                i = end;
                proof {
                    piece = data@.subrange(start as int, end as int);
                }
            } else if cur % 16 == 7 {
                push_repeated(&mut out, 32, cur / 16 + 1);
                i += 1;
                proof {
                    piece = repeated(32, (cur / 16 + 1) as nat);
                }
            } else {
                push_repeated(&mut out, 0, cur / 16 + 1);
                i += 1;
                proof {
                    piece = repeated(0, (cur / 16 + 1) as nat);
                }
            }
            proof {
                assert(out@ =~= before + piece);
                lemma_prefixed_twice(
                    before,
                    piece,
                    expanded_hall(self@.phrases, data@, i as int),
                );
            }
        }
        assert(out@ + Seq::<u8>::empty() =~= out@);
        Ok(out)
    }
}

/// In the WinHelp 3.1 encoding data without the bytes 1 to 15 expands to
/// itself, whatever the phrases are.
pub proof fn law_no_tokens_expands_to_itself(table: PhraseTableView, data: Seq<u8>)
    requires
        !table.hall,
        forall|i: int| 0 <= i < data.len() ==> data[i] == 0 || data[i] >= 16,
    ensures
        expanded(table, data) == Ok::<Seq<u8>, ErrorView>(data),
{
    lemma_no_tokens(table.phrases, data, 0);
    assert(data.skip(0) =~= data);
}

proof fn lemma_no_tokens(phrases: Seq<Seq<u8>>, data: Seq<u8>, pos: int)
    requires
        0 <= pos <= data.len(),
        forall|i: int| 0 <= i < data.len() ==> data[i] == 0 || data[i] >= 16,
    ensures
        expanded_oldstyle(phrases, data, pos) == Ok::<Seq<u8>, ErrorView>(data.skip(pos)),
    decreases data.len() - pos,
{
    if pos < data.len() {
        lemma_no_tokens(phrases, data, pos + 1);
        assert(seq![data[pos]] + data.skip(pos + 1) =~= data.skip(pos));
    } else {
        assert(data.skip(pos) =~= Seq::empty());
    }
}

// ---------------------------------------------------------------------------
// Loading from |Phrases
// ---------------------------------------------------------------------------

/// What the phrases of a table are cut out of. It decides how the error of a
/// phrase that does not fit is worded.
#[derive(Clone, Copy)]
pub enum PhraseSource {
    /// `|Phrases` holds the offsets and the text.
    Inline,
    /// `|Phrases` holds the offsets and LZ77-compressed text.
    Compressed,
    /// `|PhrIndex` holds the offsets, `|Phrases` the text.
    Indexed,
}

/// The error of phrase `i`, which ends at `end` where only `available` bytes
/// are there.
pub open spec fn phrase_past_end(
    source: PhraseSource,
    i: nat,
    end: nat,
    available: nat,
) -> ErrorView {
    bad_file(
        "|Phrases"@,
        match source {
            PhraseSource::Inline => "phrase "@ + decimal(i) + " extends past end of data"@,
            PhraseSource::Compressed => "phrase "@ + decimal(i)
                + " extends past decompressed data (end="@ + decimal(end) + ", decompressed="@
                + decimal(available) + ")"@,
            PhraseSource::Indexed => "phrase "@ + decimal(i)
                + " extends past end of data (4.0 format)"@,
        },
    )
}

/// The error of phrase `i` where its end is before its start.
pub open spec fn phrase_reversed(i: nat) -> ErrorView {
    bad_file("|Phrases"@, "phrase "@ + decimal(i) + " ends before it starts"@)
}

/// The phrases from number `i` on: phrase `k` is the part of `blob` between
/// the bounds `k` and `k + 1`.
pub open spec fn cut_from(
    source: PhraseSource,
    blob: Seq<u8>,
    bounds: Seq<int>,
    i: int,
) -> Result<Seq<Seq<u8>>, ErrorView>
    decreases bounds.len() - i,
{
    if i < 0 || i + 1 >= bounds.len() {
        Ok(Seq::empty())
    } else if bounds[i + 1] > blob.len() {
        Err(phrase_past_end(source, i as nat, bounds[i + 1] as nat, blob.len()))
    } else if bounds[i] > bounds[i + 1] {
        Err(phrase_reversed(i as nat))
    } else {
        prefixed(
            seq![blob.subrange(bounds[i], bounds[i + 1])],
            cut_from(source, blob, bounds, i + 1),
        )
    }
}

/// The `count` 16-bit offsets at `at`, each lowered by `below` (to zero at
/// least) and raised by `base`.
pub open spec fn bounds_at(
    data: Seq<u8>,
    at: int,
    count: nat,
    base: int,
    below: int,
) -> Seq<int> {
    Seq::new(
        count,
        |i: int|
            base + (if le16(data, at + 2 * i) >= below {
                le16(data, at + 2 * i) - below
            } else {
                0
            }),
    )
}

/// A table of the phrases that were cut out.
pub open spec fn table_of(phrases: Result<Seq<Seq<u8>>, ErrorView>, hall: bool) -> Result<
    PhraseTableView,
    ErrorView,
> {
    match phrases {
        Err(e) => Err(e),
        Ok(phrases) => Ok(PhraseTableView { phrases, hall }),
    }
}

/// A table whose offsets and text are both in `|Phrases`:
/// `u16 count`, `u16[count + 1] offsets`, text.
pub open spec fn inline_table(data: Seq<u8>, count: nat) -> Result<PhraseTableView, ErrorView> {
    let text = 2 + 2 * (count + 1);
    if data.len() < text {
        Err(bad_file("|Phrases"@, "not enough data for phrase offsets"@))
    } else {
        table_of(
            cut_from(
                PhraseSource::Inline,
                data,
                bounds_at(data, 2, count + 1, text as int, 0),
                0,
            ),
            false,
        )
    }
}

/// A table whose text is compressed: `u16 count`, `u16 0x0100`, `u32 size`,
/// `u16[count + 1] offsets`, LZ77 data. The offsets count from the start of
/// the offset array.
pub open spec fn compressed_table(data: Seq<u8>, count: nat) -> Result<
    PhraseTableView,
    ErrorView,
> {
    let size = 2 * (count + 1);
    if data.len() < 8 + size {
        Err(bad_file("|Phrases"@, "not enough data for phrase offsets (compressed)"@))
    } else {
        table_of(
            cut_from(
                PhraseSource::Compressed,
                lz77(data.skip(8 + size as int)),
                bounds_at(data, 8, count + 1, 0, size as int),
                0,
            ),
            false,
        )
    }
}

/// A table whose offsets are in `|PhrIndex`; the text is what follows the
/// count in `|Phrases`.
pub open spec fn indexed_table(data: Seq<u8>, index: Seq<u8>, count: nat) -> Result<
    PhraseTableView,
    ErrorView,
> {
    if index.len() < 2 * (count + 1) {
        Err(bad_file("|PhrIndex"@, "not enough data for phrase offsets"@))
    } else {
        table_of(
            cut_from(PhraseSource::Indexed, data, bounds_at(index, 0, count + 1, 2, 0), 0),
            true,
        )
    }
}

/// The phrase table that `|Phrases` and, where there is one, `|PhrIndex` hold.
pub open spec fn table_result(data: Seq<u8>, index: Option<Seq<u8>>, compressed: bool) -> Result<
    PhraseTableView,
    ErrorView,
> {
    if data.len() < 2 {
        Err(bad_file("|Phrases"@, "too small for phrase count"@))
    } else {
        let count = le16(data, 0) as nat;
        match index {
            Some(index) => indexed_table(data, index, count),
            None => if compressed && data.len() >= 8 {
                compressed_table(data, count)
            } else {
                inline_table(data, count)
            },
        }
    }
}

/// Machine numbers as mathematical ones.
pub open spec fn ints(s: Seq<usize>) -> Seq<int> {
    Seq::new(s.len(), |i: int| s[i] as int)
}

/// Reads `count` 16-bit offsets.
fn read_bounds(data: &[u8], at: usize, count: usize, base: usize, below: usize) -> (bounds: Vec<
    usize,
>)
    requires
        at + 2 * count <= data@.len(),
        base <= 1000000,
    ensures
        ints(bounds@) == bounds_at(data@, at as int, count as nat, base as int, below as int),
{
    let mut bounds: Vec<usize> = Vec::new();
    let mut i: usize = 0;
    let len: usize = data.len();
    while i < count
        invariant
            i <= count,
            at + 2 * count <= len,
            len == data@.len(),
            base <= 1000000,
            bounds@.len() == i,
            forall|k: int|
                0 <= k < i ==> #[trigger] bounds@[k] as int == bounds_at(
                    data@,
                    at as int,
                    count as nat,
                    base as int,
                    below as int,
                )[k],
        decreases count - i,
    {
        let offset: usize = u16_at(data, at + 2 * i) as usize;
        let lowered: usize = if offset >= below {
            offset - below
        } else {
            0
        };
        bounds.push(base + lowered);
        i += 1;
    }
    assert(ints(bounds@) =~= bounds_at(
        data@,
        at as int,
        count as nat,
        base as int,
        below as int,
    ));
    bounds
}

fn new_phrase_past_end(source: PhraseSource, i: usize, end: usize, available: usize) -> (e: Error)
    ensures
        e@ == phrase_past_end(source, i as nat, end as nat, available as nat),
{
    let mut s: String = "phrase ".to_owned();
    push_decimal(&mut s, i as u64);
    match source {
        PhraseSource::Inline => {
            push_str(&mut s, " extends past end of data");
        },
        PhraseSource::Compressed => {
            push_str(&mut s, " extends past decompressed data (end=");
            push_decimal(&mut s, end as u64);
            push_str(&mut s, ", decompressed=");
            push_decimal(&mut s, available as u64);
            push_str(&mut s, ")");
        },
        PhraseSource::Indexed => {
            push_str(&mut s, " extends past end of data (4.0 format)");
        },
    }
    new_bad_file("|Phrases", s.as_str())
}

/// Cuts the phrases between the given bounds out of `blob`.
fn cut_phrases(source: PhraseSource, blob: &[u8], bounds: &Vec<usize>) -> (r: Result<
    Vec<Vec<u8>>,
    Error,
>)
    ensures
        match r {
            Ok(v) => cut_from(source, blob@, ints(bounds@), 0) == Ok::<Seq<Seq<u8>>, ErrorView>(
                views(v@),
            ),
            Err(e) => cut_from(source, blob@, ints(bounds@), 0) == Err::<Seq<Seq<u8>>, ErrorView>(
                e@,
            ),
        },
{
    let mut phrases: Vec<Vec<u8>> = Vec::new();
    let mut i: usize = 0;
    let count: usize = bounds.len();
    let ghost all = cut_from(source, blob@, ints(bounds@), 0);
    proof {
        assert(views(phrases@) =~= Seq::empty());
        lemma_prefixed_empty(all);
    }
    while count > 0 && i < count - 1
        invariant
            count == bounds@.len(),
            count > 0 ==> i <= count - 1,
            count == 0 ==> i == 0,
            all == cut_from(source, blob@, ints(bounds@), 0),
            all == prefixed(views(phrases@), cut_from(source, blob@, ints(bounds@), i as int)),
        decreases count - i,
    {
        let start: usize = bounds[i];
        let end: usize = bounds[i + 1];
        if end > blob.len() {
            return Err(new_phrase_past_end(source, i, end, blob.len()));
        }
        if start > end {
            let mut s: String = "phrase ".to_owned();
            push_decimal(&mut s, i as u64);
            push_str(&mut s, " ends before it starts");
            return Err(new_bad_file("|Phrases", s.as_str()));
        }
        let phrase: Vec<u8> = vstd::slice::slice_to_vec(
            vstd::slice::slice_subrange(blob, start, end),
        );
        proof {
            lemma_views_push(phrases@, phrase);
            assert(views(phrases@).push(phrase@) =~= views(phrases@) + seq![phrase@]);
            lemma_prefixed_twice(
                views(phrases@),
                seq![phrase@],
                cut_from(source, blob@, ints(bounds@), i + 1),
            );
        }
        phrases.push(phrase);
        i += 1;
    }
    assert(views(phrases@) + Seq::<Seq<u8>>::empty() =~= views(phrases@));
    Ok(phrases)
}

/// The bytes of an optional slice.
pub open spec fn optional_bytes(data: Option<&[u8]>) -> Option<Seq<u8>> {
    match data {
        Some(d) => Some(d@),
        None => None,
    }
}

impl PhraseTable {
    /// Parses the phrase table from the bytes of `|Phrases`.
    ///
    /// With `phr_index` the offsets come from there. Otherwise they are in
    /// `|Phrases` itself, and `compressed` says whether the text behind them is
    /// LZ77-compressed. A phrase that ends before it starts is an error.
    pub fn from_bytes(
        phrases_data: &[u8],
        phr_index: Option<&[u8]>,
        compressed: bool,
    ) -> (r: Result<Self, Error>)
        ensures
            match r {
                Ok(t) => table_result(phrases_data@, optional_bytes(phr_index), compressed) == Ok::<
                    PhraseTableView,
                    ErrorView,
                >(t@),
                Err(e) => table_result(phrases_data@, optional_bytes(phr_index), compressed)
                    == Err::<PhraseTableView, ErrorView>(e@),
            },
    {
        if phrases_data.len() < 2 {
            return Err(new_bad_file("|Phrases", "too small for phrase count"));
        }
        let count: usize = u16_at(phrases_data, 0) as usize;
        match phr_index {
            Some(index) => Self::parse_with_index(phrases_data, index, count),
            None => {
                if compressed && phrases_data.len() >= 8 {
                    Self::parse_compressed_inline(phrases_data, count)
                } else {
                    Self::parse_inline(phrases_data, count)
                }
            },
        }
    }

    /// WinHelp 3.1: offsets and text are both in `|Phrases`.
    fn parse_inline(data: &[u8], num_phrases: usize) -> (r: Result<Self, Error>)
        requires
            num_phrases <= 65535,
        ensures
            match r {
                Ok(t) => inline_table(data@, num_phrases as nat) == Ok::<
                    PhraseTableView,
                    ErrorView,
                >(t@),
                Err(e) => inline_table(data@, num_phrases as nat) == Err::<
                    PhraseTableView,
                    ErrorView,
                >(e@),
            },
    {
        let text: usize = 2 + 2 * (num_phrases + 1);
        if data.len() < text {
            return Err(new_bad_file("|Phrases", "not enough data for phrase offsets"));
        }
        let bounds: Vec<usize> = read_bounds(data, 2, num_phrases + 1, text, 0);
        match cut_phrases(PhraseSource::Inline, data, &bounds) {
            Ok(phrases) => Ok(PhraseTable { phrases, hall: false }),
            Err(e) => Err(e),
        }
    }

    /// WinHelp 3.1 with LZ77-compressed text.
    fn parse_compressed_inline(data: &[u8], num_phrases: usize) -> (r: Result<Self, Error>)
        requires
            num_phrases <= 65535,
        ensures
            match r {
                Ok(t) => compressed_table(data@, num_phrases as nat) == Ok::<
                    PhraseTableView,
                    ErrorView,
                >(t@),
                Err(e) => compressed_table(data@, num_phrases as nat) == Err::<
                    PhraseTableView,
                    ErrorView,
                >(e@),
            },
    {
        let size: usize = 2 * (num_phrases + 1);
        if data.len() < 8 + size {
            return Err(
                new_bad_file("|Phrases", "not enough data for phrase offsets (compressed)"),
            );
        }
        let bounds: Vec<usize> = read_bounds(data, 8, num_phrases + 1, 0, size);
        let packed: &[u8] = vstd::slice::slice_subrange(data, 8 + size, data.len());
        assert(packed@ =~= data@.skip(8 + size as int));
        let text: Vec<u8> = match lz77_decompress(packed) {
            Ok(v) => v,
            Err(e) => {
                return Err(e);
            },
        };
        match cut_phrases(PhraseSource::Compressed, text.as_slice(), &bounds) {
            Ok(phrases) => Ok(PhraseTable { phrases, hall: false }),
            Err(e) => Err(e),
        }
    }

    /// WinHelp 4.0: offsets are in `|PhrIndex`, the text is in `|Phrases`
    /// after the 2-byte count.
    fn parse_with_index(phrases_data: &[u8], index_data: &[u8], num_phrases: usize) -> (r: Result<
        Self,
        Error,
    >)
        requires
            num_phrases <= 65535,
        ensures
            match r {
                Ok(t) => indexed_table(phrases_data@, index_data@, num_phrases as nat) == Ok::<
                    PhraseTableView,
                    ErrorView,
                >(t@),
                Err(e) => indexed_table(phrases_data@, index_data@, num_phrases as nat) == Err::<
                    PhraseTableView,
                    ErrorView,
                >(e@),
            },
    {
        if index_data.len() < 2 * (num_phrases + 1) {
            return Err(new_bad_file("|PhrIndex", "not enough data for phrase offsets"));
        }
        let bounds: Vec<usize> = read_bounds(index_data, 0, num_phrases + 1, 2, 0);
        match cut_phrases(PhraseSource::Indexed, phrases_data, &bounds) {
            Ok(phrases) => Ok(PhraseTable { phrases, hall: true }),
            Err(e) => Err(e),
        }
    }
}

} // verus!
