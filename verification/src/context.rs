//! The `|CONTEXT` B-tree: context string hashes and topic offsets.

use std::collections::HashMap;

use vstd::arithmetic::power::pow;
use vstd::prelude::*;

use crate::btree::{lemma_walk_all_prefix_error, page_at, page_offset, walk, walk_all, BTREE_MAGIC};
use crate::bytes::{le16, le32, u16_at, u32_at};
use crate::error::{bad_file, new_bad_file, new_parse_error, parse_error, ErrorView};
use crate::text::{hex_upper, push_hex_padded, zero_padded};
use crate::Error;

verus! {

broadcast use vstd::std_specs::hash::group_hash_axioms;

/// Size of the B-tree header of `|CONTEXT`.
pub const CONTEXT_HEADER_SIZE: usize = 22;

/// The map from context string hashes to topic offsets.
#[derive(Debug, Clone)]
pub struct ContextMap {
    entries: HashMap<u32, u32>,
}

impl View for ContextMap {
    type V = Map<u32, u32>;

    closed spec fn view(&self) -> Map<u32, u32> {
        self.entries@
    }
}

// ---------------------------------------------------------------------------
// The hash
// ---------------------------------------------------------------------------

/// A byte with ASCII capitals made small.
pub open spec fn lowered(b: u8) -> u8 {
    if 65 <= b <= 90 {
        (b + 32) as u8
    } else {
        b
    }
}

/// The hash of a context string: base 43, modulo the size of a word, with
/// ASCII capitals made small.
pub open spec fn hash_of(bytes: Seq<u8>) -> nat
    decreases bytes.len(),
{
    if bytes.len() == 0 {
        0
    } else {
        (43 * hash_of(bytes.drop_last()) + lowered(bytes.last())) as nat % 0x1_0000_0000
    }
}

/// The hash does not tell ASCII capitals from small letters.
pub proof fn law_hash_ignores_case(bytes: Seq<u8>)
    ensures
        hash_of(bytes) == hash_of(Seq::new(bytes.len(), |i: int| lowered(bytes[i]))),
    decreases bytes.len(),
{
    let small = Seq::new(bytes.len(), |i: int| lowered(bytes[i]));
    if bytes.len() > 0 {
        law_hash_ignores_case(bytes.drop_last());
        assert(small.drop_last() =~= Seq::new(
            bytes.drop_last().len(),
            |i: int| lowered(bytes.drop_last()[i]),
        ));
    }
}

/// The empty string has the hash zero.
pub proof fn law_hash_of_empty()
    ensures
        hash_of(Seq::empty()) == 0,
{
}

/// The hash of two strings put together: that of the first, times 43 for every
/// byte of the second, and that of the second, as a 32-bit word. The hash of one
/// byte is the byte, with an ASCII capital made small.
pub proof fn law_hash_of_strings_put_together(a: Seq<u8>, b: Seq<u8>)
    ensures
        hash_of(a + b) == (hash_of(a) * pow(43, b.len()) + hash_of(b)) % 0x1_0000_0000,
        a.len() == 1 && 65 <= a[0] <= 90 ==> hash_of(a) == a[0] + 32,
        a.len() == 1 && !(65 <= a[0] <= 90) ==> hash_of(a) == a[0],
        hash_of(a) < 0x1_0000_0000,
    decreases b.len(),
{
    lemma_hash_fits(a);
    if a.len() == 1 {
        assert(a.drop_last() =~= Seq::empty());
        assert(hash_of(a.drop_last()) == 0);
    }
    if b.len() == 0 {
        assert(a + b =~= a);
        vstd::arithmetic::power::lemma_pow0(43);
        assert(hash_of(b) == 0);
    } else {
        let shorter = b.drop_last();
        let c = lowered(b.last()) as int;
        law_hash_of_strings_put_together(a, shorter);
        assert((a + b).drop_last() =~= a + shorter);
        let x = hash_of(a) as int;
        let y = hash_of(shorter) as int;
        let p = pow(43, shorter.len());
        vstd::arithmetic::power::lemma_pow_adds(43, 1, shorter.len());
        vstd::arithmetic::power::lemma_pow1(43);
        assert(pow(43, b.len()) == 43 * p);
        let word = 0x1_0000_0000int;
        let left = (43 * ((x * p + y) % word) + c) % word;
        assert(hash_of(a + b) == left);
        assert(hash_of(b) == (43 * y + c) % word);
        lemma_mod_step(x * p + y, c);
        assert(43 * (x * p + y) + c == x * (43 * p) + (43 * y + c)) by (nonlinear_arith);
        vstd::arithmetic::div_mod::lemma_add_mod_noop_right(x * (43 * p), 43 * y + c, word);
    }
}

proof fn lemma_hash_fits(a: Seq<u8>)
    ensures
        hash_of(a) < 0x1_0000_0000,
{
}

proof fn lemma_mod_step(n: int, c: int)
    ensures
        (43 * (n % 0x1_0000_0000) + c) % 0x1_0000_0000 == (43 * n + c) % 0x1_0000_0000,
{
    vstd::arithmetic::div_mod::lemma_mul_mod_noop_right(43, n, 0x1_0000_0000);
    vstd::arithmetic::div_mod::lemma_add_mod_noop(
        43 * (n % 0x1_0000_0000),
        c,
        0x1_0000_0000,
    );
    vstd::arithmetic::div_mod::lemma_add_mod_noop(43 * n, c, 0x1_0000_0000);
}

/// The WinHelp hash of a context string.
pub fn context_hash(s: &str) -> (h: u32)
    ensures
        h == hash_of(vstd::utf8::encode_utf8(s@)),
{
    let bytes: &[u8] = s.as_bytes();
    let mut hash: u32 = 0;
    let mut i: usize = 0;
    assert(bytes@.take(0) =~= Seq::empty());
    while i < bytes.len()
        invariant
            i <= bytes@.len(),
            hash == hash_of(bytes@.take(i as int)),
        decreases bytes@.len() - i,
    {
        let b: u8 = bytes[i];
        let small: u8 = if b >= 65 && b <= 90 {
            b + 32
        } else {
            b
        };
        hash = ((43 * (hash as u64) + small as u64) % 0x1_0000_0000) as u32;
        i += 1;
        assert(bytes@.take(i as int).drop_last() =~= bytes@.take(i - 1));
    }
    assert(bytes@.take(i as int) =~= bytes@);
    hash
}

// ---------------------------------------------------------------------------
// The tree
// ---------------------------------------------------------------------------

/// At most `n` pairs from `pos` on, up to `end`.
pub open spec fn leaf_pairs(data: Seq<u8>, pos: int, end: int, n: nat) -> Seq<(u32, u32)>
    decreases n,
{
    if n == 0 || pos + 8 > end {
        Seq::empty()
    } else {
        seq![(le32(data, pos), le32(data, pos + 4))] + leaf_pairs(
            data,
            pos + 8,
            end,
            (n - 1) as nat,
        )
    }
}

/// The pairs of the leaf page at byte `at`.
pub open spec fn leaf_page(data: Seq<u8>, at: int, page_size: u16) -> Result<
    Seq<(u32, u32)>,
    ErrorView,
> {
    if data.len() < at + page_size || data.len() < at + 4 {
        Err(parse_error(at, "context leaf page past EOF"@))
    } else {
        Ok(leaf_pairs(data, at + 4, at + page_size, le16(data, at + 2) as nat))
    }
}

/// At most `n` child pages from `pos` on, up to `end`. Each stands behind a
/// 32-bit key and, with `counters`, a 16-bit counter.
pub open spec fn index_children(
    data: Seq<u8>,
    pos: int,
    end: int,
    counters: bool,
    n: nat,
) -> Seq<u16>
    decreases n,
{
    let child = pos + if counters {
        6int
    } else {
        4int
    };
    if n == 0 || child + 2 > end {
        Seq::empty()
    } else {
        seq![le16(data, child)] + index_children(data, child + 2, end, counters, (n - 1) as nat)
    }
}

/// The child pages of the index page at byte `at`.
pub open spec fn index_page(data: Seq<u8>, at: int, page_size: u16, counters: bool) -> Result<
    Seq<u16>,
    ErrorView,
> {
    if data.len() < at + page_size || data.len() < at + 6 {
        Err(parse_error(at, "context index page past EOF"@))
    } else {
        Ok(
            seq![le16(data, at + 4)] + index_children(
                data,
                at + 6,
                at + page_size,
                counters,
                le16(data, at + 2) as nat,
            ),
        )
    }
}

/// The pairs below a page.
pub open spec fn pairs_below(
    data: Seq<u8>,
    page_size: u16,
    counters: bool,
    page: u16,
    levels: nat,
) -> Result<Seq<(u32, u32)>, ErrorView> {
    walk(
        |p: u16|
            leaf_page(data, page_at(CONTEXT_HEADER_SIZE as int, page_size, p), page_size),
        |p: u16|
            index_page(
                data,
                page_at(CONTEXT_HEADER_SIZE as int, page_size, p),
                page_size,
                counters,
            ),
        page,
        levels,
    )
}

/// Whether the entries of index pages have counters.
pub open spec fn has_counters(flags: u16) -> bool {
    (flags / 1024) % 2 == 1
}

/// The pairs that the bytes of `|CONTEXT` hold, in order.
pub open spec fn pairs_result(data: Seq<u8>) -> Result<Seq<(u32, u32)>, ErrorView> {
    if data.len() < CONTEXT_HEADER_SIZE {
        Err(bad_file("|CONTEXT"@, "too small for B-tree header"@))
    } else if le16(data, 0) != BTREE_MAGIC {
        Err(
            bad_file(
                "|CONTEXT"@,
                "bad B-tree magic: 0x"@ + zero_padded(hex_upper(le16(data, 0) as nat), 4),
            ),
        )
    } else if le16(data, 16) == 0 {
        Ok(Seq::empty())
    } else {
        pairs_below(
            data,
            le16(data, 4),
            has_counters(le16(data, 2)),
            le16(data, 12),
            le16(data, 16) as nat,
        )
    }
}

/// `m` with the given pairs; of two pairs with one key the later counts.
pub open spec fn with_pairs(m: Map<u32, u32>, pairs: Seq<(u32, u32)>) -> Map<u32, u32>
    decreases pairs.len(),
{
    if pairs.len() == 0 {
        m
    } else {
        with_pairs(m, pairs.drop_last()).insert(pairs.last().0, pairs.last().1)
    }
}

/// The map that the bytes of `|CONTEXT` hold.
pub open spec fn context_result(data: Seq<u8>) -> Result<Map<u32, u32>, ErrorView> {
    match pairs_result(data) {
        Err(e) => Err(e),
        Ok(pairs) => Ok(with_pairs(Map::empty(), pairs)),
    }
}

proof fn lemma_with_pairs_concat(m: Map<u32, u32>, a: Seq<(u32, u32)>, b: Seq<(u32, u32)>)
    ensures
        with_pairs(m, a + b) == with_pairs(with_pairs(m, a), b),
    decreases b.len(),
{
    if b.len() == 0 {
        assert(a + b =~= a);
    } else {
        assert((a + b).drop_last() =~= a + b.drop_last());
        lemma_with_pairs_concat(m, a, b.drop_last());
    }
}

/// A hash resolves to the offset of the last pair that has it.
pub proof fn law_last_pair_counts(pairs: Seq<(u32, u32)>, i: int)
    requires
        0 <= i < pairs.len(),
        forall|j: int| i < j < pairs.len() ==> (#[trigger] pairs[j]).0 != pairs[i].0,
    ensures
        with_pairs(Map::empty(), pairs).contains_key(pairs[i].0),
        with_pairs(Map::empty(), pairs)[pairs[i].0] == pairs[i].1,
    decreases pairs.len(),
{
    if i < pairs.len() - 1 {
        assert(pairs[pairs.len() - 1].0 != pairs[i].0);
        law_last_pair_counts(pairs.drop_last(), i);
    }
}

/// A hash that no pair has does not resolve.
pub proof fn law_missing_hash(pairs: Seq<(u32, u32)>, hash: u32)
    requires
        forall|j: int| 0 <= j < pairs.len() ==> (#[trigger] pairs[j]).0 != hash,
    ensures
        !with_pairs(Map::empty(), pairs).contains_key(hash),
    decreases pairs.len(),
{
    if pairs.len() > 0 {
        assert(pairs[pairs.len() - 1].0 != hash);
        law_missing_hash(pairs.drop_last(), hash);
    }
}

/// Parses a leaf page and enters its pairs.
fn parse_context_leaf(
    data: &[u8],
    page_offset: u64,
    page_size: u16,
    entries: &mut HashMap<u32, u32>,
) -> (r: Result<(), Error>)
    requires
        page_offset <= 0x2_0000_0000_0000,
    ensures
        match r {
            Ok(_) => leaf_page(data@, page_offset as int, page_size) is Ok && final(entries)@
                == with_pairs(
                old(entries)@,
                leaf_page(data@, page_offset as int, page_size)->Ok_0,
            ),
            Err(e) => leaf_page(data@, page_offset as int, page_size) == Err::<
                Seq<(u32, u32)>,
                ErrorView,
            >(e@),
        },
{
    let len: u64 = data.len() as u64;
    if len < page_offset + page_size as u64 || len < page_offset + 4 {
        return Err(new_parse_error(page_offset, "context leaf page past EOF"));
    }
    let at: usize = page_offset as usize;
    let page_end: usize = at + page_size as usize;
    let num_entries: u16 = u16_at(data, at + 2);
    let mut pos: usize = at + 4;
    let mut i: u16 = 0;
    let ghost all = leaf_pairs(data@, at + 4, page_end as int, num_entries as nat);
    let ghost done: Seq<(u32, u32)> = Seq::empty();
    assert(done + all =~= all);
    while i < num_entries && pos <= page_end && page_end - pos >= 8
        invariant
            i <= num_entries,
            page_end <= data@.len(),
            entries@ == with_pairs(old(entries)@, done),
            all == done + leaf_pairs(
                data@,
                pos as int,
                page_end as int,
                (num_entries - i) as nat,
            ),
        decreases num_entries - i,
    {
        let hash: u32 = u32_at(data, pos);
        let offset: u32 = u32_at(data, pos + 4);
        entries.insert(hash, offset);
        pos += 8;
        i += 1;
        proof {
            let next = done.push((hash, offset));
            assert(next.drop_last() =~= done);
            let rest = leaf_pairs(data@, pos as int, page_end as int, (num_entries - i) as nat);
            assert(done + (seq![(hash, offset)] + rest) =~= next + rest);
            done = next;
        }
    }
    assert(done + Seq::<(u32, u32)>::empty() =~= done);
    Ok(())
}

/// Parses an index page: the child pages, left to right.
fn parse_context_index(
    data: &[u8],
    page_offset: u64,
    page_size: u16,
    counters: bool,
) -> (r: Result<Vec<u16>, Error>)
    requires
        page_offset <= 0x2_0000_0000_0000,
    ensures
        match r {
            Ok(children) => index_page(data@, page_offset as int, page_size, counters) == Ok::<
                Seq<u16>,
                ErrorView,
            >(children@),
            Err(e) => index_page(data@, page_offset as int, page_size, counters) == Err::<
                Seq<u16>,
                ErrorView,
            >(e@),
        },
{
    let len: u64 = data.len() as u64;
    if len < page_offset + page_size as u64 || len < page_offset + 6 {
        return Err(new_parse_error(page_offset, "context index page past EOF"));
    }
    let at: usize = page_offset as usize;
    let page_end: usize = at + page_size as usize;
    let num_entries: u16 = u16_at(data, at + 2);
    let step: usize = if counters {
        6
    } else {
        4
    };
    let mut children: Vec<u16> = Vec::new();
    children.push(u16_at(data, at + 4));
    let mut pos: usize = at + 6;
    let mut i: u16 = 0;
    let ghost all = index_page(data@, page_offset as int, page_size, counters)->Ok_0;
    assert(children@ =~= seq![le16(data@, at + 4)]);
    while i < num_entries && pos <= page_end && page_end - pos >= step + 2
        invariant
            i <= num_entries,
            page_end <= data@.len(),
            step == if counters {
                6int
            } else {
                4int
            },
            all == children@ + index_children(
                data@,
                pos as int,
                page_end as int,
                counters,
                (num_entries - i) as nat,
            ),
        decreases num_entries - i,
    {
        let child: u16 = u16_at(data, pos + step);
        let ghost before = children@;
        children.push(child);
        pos = pos + step + 2;
        i += 1;
        proof {
            let rest = index_children(
                data@,
                pos as int,
                page_end as int,
                counters,
                (num_entries - i) as nat,
            );
            assert(before + (seq![child] + rest) =~= children@ + rest);
        }
    }
    assert(children@ + Seq::<u16>::empty() =~= children@);
    Ok(children)
}

/// Walks the tree and enters the pairs of its leaf pages.
fn collect_context_entries(
    data: &[u8],
    page_size: u16,
    page_index: u16,
    levels_remaining: u16,
    counters: bool,
    entries: &mut HashMap<u32, u32>,
) -> (r: Result<(), Error>)
    requires
        levels_remaining >= 1,
    ensures
        match r {
            Ok(_) => pairs_below(data@, page_size, counters, page_index, levels_remaining as nat)
                is Ok && final(entries)@ == with_pairs(
                old(entries)@,
                pairs_below(
                    data@,
                    page_size,
                    counters,
                    page_index,
                    levels_remaining as nat,
                )->Ok_0,
            ),
            Err(e) => pairs_below(data@, page_size, counters, page_index, levels_remaining as nat)
                == Err::<Seq<(u32, u32)>, ErrorView>(e@),
        },
    decreases levels_remaining,
{
    let ghost leaf = |p: u16|
        leaf_page(data@, page_at(CONTEXT_HEADER_SIZE as int, page_size, p), page_size);
    let ghost index = |p: u16|
        index_page(data@, page_at(CONTEXT_HEADER_SIZE as int, page_size, p), page_size, counters);
    let at: u64 = page_offset(CONTEXT_HEADER_SIZE as u64, page_size, page_index);
    if levels_remaining == 1 {
        return parse_context_leaf(data, at, page_size, entries);
    }
    let children: Vec<u16> = match parse_context_index(data, at, page_size, counters) {
        Ok(v) => v,
        Err(e) => {
            return Err(e);
        },
    };
    let ghost below: Seq<(u32, u32)> = Seq::empty();
    let ghost levels = (levels_remaining - 1) as nat;
    let mut i: usize = 0;
    assert(children@.take(0) =~= Seq::empty());
    while i < children.len()
        invariant
            i <= children@.len(),
            levels_remaining >= 2,
            levels == levels_remaining - 1,
            leaf == (|p: u16|
                leaf_page(data@, page_at(CONTEXT_HEADER_SIZE as int, page_size, p), page_size)),
            index == (|p: u16|
                index_page(
                    data@,
                    page_at(CONTEXT_HEADER_SIZE as int, page_size, p),
                    page_size,
                    counters,
                )),
            index(page_index) == Ok::<Seq<u16>, ErrorView>(children@),
            entries@ == with_pairs(old(entries)@, below),
            walk_all(leaf, index, children@.take(i as int), levels) == Ok::<
                Seq<(u32, u32)>,
                ErrorView,
            >(below),
        decreases children@.len() - i,
    {
        let child: u16 = children[i];
        let ghost upto = children@.take(i + 1);
        assert(upto.drop_last() =~= children@.take(i as int));
        assert(upto.last() == child);
        match collect_context_entries(
            data,
            page_size,
            child,
            levels_remaining - 1,
            counters,
            entries,
        ) {
            Ok(_) => {},
            Err(e) => {
                proof {
                    lemma_walk_all_prefix_error(leaf, index, children@, levels, i + 1);
                }
                return Err(e);
            },
        }
        proof {
            let more = walk(leaf, index, child, levels)->Ok_0;
            lemma_with_pairs_concat(old(entries)@, below, more);
            below = below + more;
        }
        i += 1;
    }
    assert(children@.take(i as int) =~= children@);
    Ok(())
}

impl ContextMap {
    /// Parses the bytes of the `|CONTEXT` internal file.
    ///
    /// A page whose header is past the end of the data is past the end itself.
    pub fn from_bytes(data: &[u8]) -> (r: Result<Self, Error>)
        ensures
            match r {
                Ok(m) => context_result(data@) == Ok::<Map<u32, u32>, ErrorView>(m@),
                Err(e) => context_result(data@) == Err::<Map<u32, u32>, ErrorView>(e@),
            },
    {
        if data.len() < CONTEXT_HEADER_SIZE {
            return Err(new_bad_file("|CONTEXT", "too small for B-tree header"));
        }
        let magic: u16 = u16_at(data, 0);
        if magic != BTREE_MAGIC {
            let mut detail: String = "bad B-tree magic: 0x".to_owned();
            push_hex_padded(&mut detail, magic as u64, 4);
            return Err(new_bad_file("|CONTEXT", detail.as_str()));
        }
        let flags: u16 = u16_at(data, 2);
        let page_size: u16 = u16_at(data, 4);
        let root_page: u16 = u16_at(data, 12);
        let num_levels: u16 = u16_at(data, 16);
        let mut entries: HashMap<u32, u32> = HashMap::new();
        if num_levels > 0 {
            match collect_context_entries(
                data,
                page_size,
                root_page,
                num_levels,
                (flags / 1024) % 2 == 1,
                &mut entries,
            ) {
                Ok(_) => {},
                Err(e) => {
                    return Err(e);
                },
            }
        }
        Ok(ContextMap { entries })
    }

    /// An empty context map.
    pub fn empty() -> (m: Self)
        ensures
            m@ == Map::<u32, u32>::empty(),
    {
        ContextMap { entries: HashMap::new() }
    }

    /// The topic offset of a context string hash.
    pub fn resolve_hash(&self, hash: u32) -> (r: Option<u32>)
        ensures
            r == if self@.contains_key(hash) {
                Some(self@[hash])
            } else {
                None
            },
    {
        match self.entries.get(&hash) {
            Some(offset) => Some(*offset),
            None => None,
        }
    }

    /// Number of entries in the map.
    pub fn len(&self) -> (n: usize)
        ensures
            n == self@.len(),
    {
        self.entries.len()
    }

    /// Whether the map has no entries.
    pub fn is_empty(&self) -> (b: bool)
        ensures
            b == self@.is_empty(),
    {
        self.entries.is_empty()
    }

    /// All entries as pairs of a hash and an offset, each once, in no
    /// particular order.
    pub fn entries(&self) -> (r: Vec<(u32, u32)>)
        ensures
            r@.no_duplicates(),
            r@.to_set() == self@.kv_pairs(),
    {
        let mut out: Vec<(u32, u32)> = Vec::new();
        for pair in iter: self.entries.iter()
            invariant
                out@.len() == iter.index(),
                forall|k: int|
                    0 <= k < out@.len() ==> #[trigger] out@[k] == (
                        *iter.seq()[k].0,
                        *iter.seq()[k].1,
                    ),
                iter.seq() == vstd::std_specs::iter::IteratorSpec::remaining(
                    &vstd::std_specs::hash::spec_hash_map_iter(&self.entries),
                ),
                iter.seq().no_duplicates(),
        {
            out.push((*pair.0, *pair.1));
        }
        proof {
            let seq = vstd::std_specs::iter::IteratorSpec::remaining(
                &vstd::std_specs::hash::spec_hash_map_iter(&self.entries),
            );
            assert(out@ =~= seq.unref());
        }
        out
    }
}

} // verus!
