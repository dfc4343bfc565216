//! The encodings of phrase tokens, and that expanding them gives back the text
//! that they stand for.

use vstd::prelude::*;

use crate::bytes::{holds, lemma_holds_all, lemma_holds_parts};
use crate::error::ErrorView;
use crate::phrase::{expanded, expanded_hall, expanded_oldstyle, repeated, PhraseTableView};

verus! {

// ---------------------------------------------------------------------------
// WinHelp 3.1
// ---------------------------------------------------------------------------

/// A token of the WinHelp 3.1 encoding.
pub enum Token {
    /// A byte that stands for itself.
    Byte { byte: u8 },
    /// A phrase, with or without a space behind it.
    Phrase { index: nat, space: bool },
}

/// Whether a token can be encoded. The bytes 1 to 15 introduce phrases, so
/// they cannot stand for themselves.
pub open spec fn token_ok(phrases: Seq<Seq<u8>>, t: Token) -> bool {
    match t {
        Token::Byte { byte } => byte == 0 || byte >= 16,
        Token::Phrase { index, .. } => index < phrases.len() && index < 1920,
    }
}

/// The number that a phrase token holds.
pub open spec fn token_value(index: nat, space: bool) -> nat {
    2 * index + if space {
        1nat
    } else {
        0nat
    }
}

/// The encoded form of a token.
pub open spec fn token_bytes(t: Token) -> Seq<u8> {
    match t {
        Token::Byte { byte } => seq![byte],
        Token::Phrase { index, space } => seq![
            (token_value(index, space) / 256 + 1) as u8,
            (token_value(index, space) % 256) as u8,
        ],
    }
}

/// The text that a token stands for.
pub open spec fn token_text(phrases: Seq<Seq<u8>>, t: Token) -> Seq<u8> {
    match t {
        Token::Byte { byte } => seq![byte],
        Token::Phrase { index, space } => phrases[index as int] + (if space {
            seq![32u8]
        } else {
            Seq::empty()
        }),
    }
}

/// The encoded form of tokens, one after another.
pub open spec fn tokens_bytes(tokens: Seq<Token>) -> Seq<u8>
    decreases tokens.len(),
{
    if tokens.len() == 0 {
        Seq::empty()
    } else {
        token_bytes(tokens[0]) + tokens_bytes(tokens.skip(1))
    }
}

/// The text that tokens stand for, one after another.
pub open spec fn tokens_text(phrases: Seq<Seq<u8>>, tokens: Seq<Token>) -> Seq<u8>
    decreases tokens.len(),
{
    if tokens.len() == 0 {
        Seq::empty()
    } else {
        token_text(phrases, tokens[0]) + tokens_text(phrases, tokens.skip(1))
    }
}

proof fn lemma_tokens_from(phrases: Seq<Seq<u8>>, data: Seq<u8>, pos: int, tokens: Seq<Token>)
    requires
        holds(data, pos, tokens_bytes(tokens)),
        pos + tokens_bytes(tokens).len() == data.len(),
        forall|i: int| 0 <= i < tokens.len() ==> token_ok(phrases, #[trigger] tokens[i]),
    ensures
        expanded_oldstyle(phrases, data, pos) == Ok::<Seq<u8>, ErrorView>(
            tokens_text(phrases, tokens),
        ),
    decreases tokens.len(),
{
    if tokens.len() > 0 {
        let t = tokens[0];
        let rest = tokens.skip(1);
        assert(token_ok(phrases, t));
        assert forall|i: int| 0 <= i < rest.len() implies token_ok(phrases, #[trigger] rest[i]) by {
            assert(rest[i] == tokens[i + 1]);
        }
        let first = token_bytes(t);
        lemma_holds_parts(data, pos, first, tokens_bytes(rest));
        lemma_tokens_from(phrases, data, pos + first.len(), rest);
        let held = data.subrange(pos, pos + first.len());
        assert(held[0] == data[pos]);
        match t {
            Token::Byte { byte } => {},
            Token::Phrase { index, space } => {
                assert(held[1] == data[pos + 1]);
                let value = token_value(index, space);
                assert(256 * (data[pos] - 1) + data[pos + 1] == value);
            },
        }
    }
}

/// Tokens of the WinHelp 3.1 encoding expand to the text that they stand for.
pub proof fn law_tokens_expand(table: PhraseTableView, tokens: Seq<Token>)
    requires
        !table.hall,
        forall|i: int| 0 <= i < tokens.len() ==> token_ok(table.phrases, #[trigger] tokens[i]),
    ensures
        expanded(table, tokens_bytes(tokens)) == Ok::<Seq<u8>, ErrorView>(
            tokens_text(table.phrases, tokens),
        ),
{
    let data = tokens_bytes(tokens);
    lemma_holds_all(data);
    lemma_tokens_from(table.phrases, data, 0, tokens);
}

// ---------------------------------------------------------------------------
// WinHelp 4.0
// ---------------------------------------------------------------------------

/// A token of the WinHelp 4.0 encoding.
pub enum HallToken {
    /// A phrase.
    Phrase { index: nat },
    /// Bytes that stand for themselves.
    Literal { bytes: Seq<u8> },
    /// Spaces.
    Spaces { count: nat },
    /// NUL bytes.
    Nuls { count: nat },
}

/// Whether a token can be encoded.
pub open spec fn hall_token_ok(phrases: Seq<Seq<u8>>, t: HallToken) -> bool {
    match t {
        HallToken::Phrase { index } => index < phrases.len() && index < 16512,
        HallToken::Literal { bytes } => 1 <= bytes.len() <= 32,
        HallToken::Spaces { count } => 1 <= count <= 16,
        HallToken::Nuls { count } => 1 <= count <= 16,
    }
}

/// The encoded form of a token.
pub open spec fn hall_token_bytes(t: HallToken) -> Seq<u8> {
    match t {
        HallToken::Phrase { index } => if index < 128 {
            seq![(2 * index) as u8]
        } else {
            seq![(4 * ((index - 128) / 256) + 1) as u8, ((index - 128) % 256) as u8]
        },
        HallToken::Literal { bytes } => seq![(8 * (bytes.len() - 1) + 3) as u8] + bytes,
        HallToken::Spaces { count } => seq![(16 * (count - 1) + 7) as u8],
        HallToken::Nuls { count } => seq![(16 * (count - 1) + 15) as u8],
    }
}

/// The text that a token stands for.
pub open spec fn hall_token_text(phrases: Seq<Seq<u8>>, t: HallToken) -> Seq<u8> {
    match t {
        HallToken::Phrase { index } => phrases[index as int],
        HallToken::Literal { bytes } => bytes,
        HallToken::Spaces { count } => repeated(32, count),
        HallToken::Nuls { count } => repeated(0, count),
    }
}

/// The encoded form of tokens, one after another.
pub open spec fn hall_tokens_bytes(tokens: Seq<HallToken>) -> Seq<u8>
    decreases tokens.len(),
{
    if tokens.len() == 0 {
        Seq::empty()
    } else {
        hall_token_bytes(tokens[0]) + hall_tokens_bytes(tokens.skip(1))
    }
}

/// The text that tokens stand for, one after another.
pub open spec fn hall_tokens_text(phrases: Seq<Seq<u8>>, tokens: Seq<HallToken>) -> Seq<u8>
    decreases tokens.len(),
{
    if tokens.len() == 0 {
        Seq::empty()
    } else {
        hall_token_text(phrases, tokens[0]) + hall_tokens_text(phrases, tokens.skip(1))
    }
}

proof fn lemma_hall_tokens_from(
    phrases: Seq<Seq<u8>>,
    data: Seq<u8>,
    pos: int,
    tokens: Seq<HallToken>,
)
    requires
        holds(data, pos, hall_tokens_bytes(tokens)),
        pos + hall_tokens_bytes(tokens).len() == data.len(),
        forall|i: int| 0 <= i < tokens.len() ==> hall_token_ok(phrases, #[trigger] tokens[i]),
    ensures
        expanded_hall(phrases, data, pos) == Ok::<Seq<u8>, ErrorView>(
            hall_tokens_text(phrases, tokens),
        ),
    decreases tokens.len(),
{
    if tokens.len() > 0 {
        let t = tokens[0];
        let rest = tokens.skip(1);
        assert(hall_token_ok(phrases, t));
        assert forall|i: int| 0 <= i < rest.len() implies hall_token_ok(
            phrases,
            #[trigger] rest[i],
        ) by {
            assert(rest[i] == tokens[i + 1]);
        }
        let first = hall_token_bytes(t);
        lemma_holds_parts(data, pos, first, hall_tokens_bytes(rest));
        lemma_hall_tokens_from(phrases, data, pos + first.len(), rest);
        let held = data.subrange(pos, pos + first.len());
        assert(held[0] == data[pos]);
        match t {
            HallToken::Phrase { index } => {
                if index >= 128 {
                    assert(held[1] == data[pos + 1]);
                    assert(128 + (data[pos] / 4) * 256 + data[pos + 1] == index);
                }
            },
            HallToken::Literal { bytes } => {
                lemma_holds_parts(data, pos, seq![first[0]], bytes);
            },
            HallToken::Spaces { count } => {},
            HallToken::Nuls { count } => {},
        }
    }
}

/// Tokens of the WinHelp 4.0 encoding expand to the text that they stand for.
pub proof fn law_hall_tokens_expand(table: PhraseTableView, tokens: Seq<HallToken>)
    requires
        table.hall,
        forall|i: int|
            0 <= i < tokens.len() ==> hall_token_ok(table.phrases, #[trigger] tokens[i]),
    ensures
        expanded(table, hall_tokens_bytes(tokens)) == Ok::<Seq<u8>, ErrorView>(
            hall_tokens_text(table.phrases, tokens),
        ),
{
    let data = hall_tokens_bytes(tokens);
    lemma_holds_all(data);
    lemma_hall_tokens_from(table.phrases, data, 0, tokens);
}

} // verus!
