//! The deck codec: a card collection as one structured, human-readable text,
//! and the parse back. The decoder inverts the encoder exactly, so an
//! exported deck survives the round trip field for field.
//!
//! The shape is a record list: each card is an object of named fields in a
//! fixed order; numbers are fixed-width decimal (a sign and nineteen digits
//! for timestamps, ten digits otherwise); text is quoted, with quotes and
//! backslashes escaped by a backslash.

use vstd::prelude::*;
use crate::card::{Card, CardView};

verus! {

/// The decimal digit character for `n % 10`.
pub open spec fn dig(n: int) -> char {
    ((48 + (n % 10)) as u8) as char
}

/// Ten to the `k`.
pub open spec fn pow10(k: nat) -> int
    decreases k,
{
    if k == 0 {
        1
    } else {
        10 * pow10((k - 1) as nat)
    }
}

/// `n` written as exactly `k` decimal digits, most significant first,
/// zero-padded; digits beyond the width are dropped.
pub open spec fn enc_fixed(n: int, k: nat) -> Seq<char>
    decreases k,
{
    if k == 0 {
        Seq::empty()
    } else {
        seq![dig(n / pow10((k - 1) as nat))] + enc_fixed(n % pow10((k - 1) as nat), (k - 1) as nat)
    }
}

/// A 32-bit count as ten digits.
pub open spec fn enc_u32(n: u32) -> Seq<char> {
    enc_fixed(n as int, 10)
}

/// A timestamp as a sign and nineteen digits.
pub open spec fn enc_i64(n: i64) -> Seq<char> {
    if n < 0 {
        seq!['-'] + enc_fixed(-(n as int), 19)
    } else {
        seq!['+'] + enc_fixed(n as int, 19)
    }
}

/// One text character in escaped form: quotes and backslashes get a
/// backslash in front, everything else stands as it is.
pub open spec fn esc_char(c: char) -> Seq<char> {
    if c == '"' || c == '\\' {
        seq!['\\', c]
    } else {
        seq![c]
    }
}

/// A text with every character escaped.
pub open spec fn esc(s: Seq<char>) -> Seq<char>
    decreases s.len(),
{
    if s.len() == 0 {
        Seq::empty()
    } else {
        esc_char(s[0]) + esc(s.drop_first())
    }
}

/// A quoted, escaped text.
pub open spec fn enc_str(s: Seq<char>) -> Seq<char> {
    seq!['"'] + esc(s) + seq!['"']
}

/// The tag list's members, comma-separated.
pub open spec fn enc_tags_items(tags: Seq<Seq<char>>) -> Seq<char>
    decreases tags.len(),
{
    if tags.len() == 0 {
        Seq::empty()
    } else if tags.len() == 1 {
        enc_str(tags[0])
    } else {
        enc_str(tags[0]) + seq![','] + enc_tags_items(tags.drop_first())
    }
}

/// The tag list in brackets.
pub open spec fn enc_tags(tags: Seq<Seq<char>>) -> Seq<char> {
    seq!['['] + enc_tags_items(tags) + seq![']']
}

/// One card as an object of named fields in a fixed order.
pub open spec fn enc_card(c: CardView) -> Seq<char> {
    "{\"id\":\""@ + esc(c.id) + seq!['"'] + ",\"front_text\":\""@ + esc(c.front_text) + seq!['"']
        + ",\"back_text\":\""@ + esc(c.back_text) + seq!['"'] + ",\"difficulty\":"@ + enc_u32(
        c.difficulty,
    ) + ",\"easiness_factor\":"@ + enc_u32(c.easiness_factor) + ",\"interval\":"@ + enc_u32(
        c.interval,
    ) + ",\"repetitions\":"@ + enc_u32(c.repetitions) + ",\"next_review\":"@ + enc_i64(
        c.next_review,
    ) + ",\"tags\":"@ + enc_tags(c.tags) + seq!['}']
}

/// The deck's members, comma-separated.
pub open spec fn enc_deck_items(cs: Seq<CardView>) -> Seq<char>
    decreases cs.len(),
{
    if cs.len() == 0 {
        Seq::empty()
    } else if cs.len() == 1 {
        enc_card(cs[0])
    } else {
        enc_card(cs[0]) + seq![','] + enc_deck_items(cs.drop_first())
    }
}

/// A whole deck: the card list in brackets.
pub open spec fn enc_deck(cs: Seq<CardView>) -> Seq<char> {
    seq!['['] + enc_deck_items(cs) + seq![']']
}

/// Every power of ten is positive.
pub proof fn lemma_pow10_pos(k: nat)
    ensures
        pow10(k) >= 1,
    decreases k,
{
    if k > 0 {
        lemma_pow10_pos((k - 1) as nat);
    }
}

/// Relies on String::push: appends exactly the one character.
#[verifier::external_body]
pub(crate) fn push_char(out: &mut String, c: char)
    ensures
        final(out)@ == old(out)@.push(c),
{
    out.push(c);
}

/// Write `n` as exactly `k` digits, most significant first. `p` is ten to
/// the `k - 1`, handed down so no power is recomputed.
fn encode_fixed(n: u64, k: usize, p: u64, out: &mut String)
    requires
        k >= 1,
        p as int == pow10((k - 1) as nat),
    ensures
        final(out)@ == old(out)@ + enc_fixed(n as int, k as nat),
    decreases k,
{
    proof {
        lemma_pow10_pos((k - 1) as nat);
    }
    let d: u8 = ((n / p) % 10) as u8 + 48;
    push_char(out, d as char);
    if k > 1 {
        proof {
            assert(pow10((k - 1) as nat) == 10 * pow10((k - 2) as nat));
            assert((10 * pow10((k - 2) as nat)) / 10 == pow10((k - 2) as nat)) by {
                vstd::arithmetic::div_mod::lemma_div_multiples_vanish(
                    pow10((k - 2) as nat),
                    10,
                );
            }
        }
        encode_fixed(n % p, k - 1, p / 10, out);
        proof {
            assert(final(out)@ =~= old(out)@ + enc_fixed(n as int, k as nat));
        }
    } else {
        proof {
            assert(final(out)@ =~= old(out)@ + enc_fixed(n as int, 1));
        }
    }
}

/// Write a 32-bit count as ten digits.
fn encode_u32(n: u32, out: &mut String)
    ensures
        final(out)@ == old(out)@ + enc_u32(n),
{
    proof {
        reveal_with_fuel(pow10, 11);
        assert(pow10(9) == 1_000_000_000);
    }
    encode_fixed(n as u64, 10, 1_000_000_000, out);
}

/// Write a timestamp as a sign and nineteen digits.
fn encode_i64(n: i64, out: &mut String)
    ensures
        final(out)@ == old(out)@ + enc_i64(n),
{
    proof {
        reveal_with_fuel(pow10, 20);
        assert(pow10(18) == 1_000_000_000_000_000_000);
    }
    if n < 0 {
        push_char(out, '-');
        let mag: u64 = if n == i64::MIN {
            9_223_372_036_854_775_808u64
        } else {
            (-n) as u64
        };
        encode_fixed(mag, 19, 1_000_000_000_000_000_000, out);
        proof {
            assert(final(out)@ =~= old(out)@ + enc_i64(n));
        }
    } else {
        push_char(out, '+');
        encode_fixed(n as u64, 19, 1_000_000_000_000_000_000, out);
        proof {
            assert(final(out)@ =~= old(out)@ + enc_i64(n));
        }
    }
}

/// Escaping distributes over extending the text by one character.
proof fn lemma_esc_push(s: Seq<char>, c: char)
    ensures
        esc(s.push(c)) == esc(s) + esc_char(c),
    decreases s.len(),
{
    assert(s.push(c)[0] == if s.len() == 0 {
        c
    } else {
        s[0]
    });
    if s.len() == 0 {
        assert(s.push(c).drop_first() =~= Seq::<char>::empty());
        assert(esc(s.push(c)) == esc_char(c) + esc(Seq::<char>::empty()));
        assert(esc(Seq::<char>::empty()) =~= Seq::<char>::empty());
        assert(esc(s) =~= Seq::<char>::empty());
        assert(esc(s.push(c)) =~= esc(s) + esc_char(c));
    } else {
        assert(s.push(c).drop_first() =~= s.drop_first().push(c));
        lemma_esc_push(s.drop_first(), c);
        assert(esc(s.push(c)) =~= esc(s) + esc_char(c));
    }
}

/// Write a text in escaped form.
fn encode_escaped(s: &str, out: &mut String)
    ensures
        final(out)@ == old(out)@ + esc(s@),
{
    let n = s.unicode_len();
    let mut i: usize = 0;
    while i < n
        invariant
            n == s@.len(),
            i <= n,
            out@ == old(out)@ + esc(s@.subrange(0, i as int)),
        decreases n - i,
    {
        let c = s.get_char(i);
        if c == '"' || c == '\\' {
            push_char(out, '\\');
        }
        push_char(out, c);
        proof {
            assert(s@.subrange(0, i + 1) =~= s@.subrange(0, i as int).push(c));
            lemma_esc_push(s@.subrange(0, i as int), c);
            assert(out@ =~= old(out)@ + esc(s@.subrange(0, i + 1)));
        }
        i = i + 1;
    }
    proof {
        assert(s@.subrange(0, n as int) =~= s@);
    }
}

/// Write a quoted, escaped text.
fn encode_str(s: &str, out: &mut String)
    ensures
        final(out)@ == old(out)@ + enc_str(s@),
{
    push_char(out, '"');
    encode_escaped(s, out);
    push_char(out, '"');
    proof {
        assert(final(out)@ =~= old(out)@ + enc_str(s@));
    }
}

/// The encoded member list grows by a comma and one member at the end.
proof fn lemma_enc_tags_items_push(tags: Seq<Seq<char>>, t: Seq<char>)
    requires
        tags.len() >= 1,
    ensures
        enc_tags_items(tags.push(t)) == enc_tags_items(tags) + seq![','] + enc_str(t),
    decreases tags.len(),
{
    if tags.len() == 1 {
        assert(tags.push(t)[0] == tags[0]);
        assert(tags.push(t).drop_first() =~= seq![t]);
        assert(enc_tags_items(seq![t]) == enc_str(t));
        assert(enc_tags_items(tags.push(t)) =~= enc_tags_items(tags) + seq![','] + enc_str(t));
    } else {
        assert(tags.push(t).drop_first() =~= tags.drop_first().push(t));
        lemma_enc_tags_items_push(tags.drop_first(), t);
        assert(enc_tags_items(tags.push(t)) =~= enc_tags_items(tags) + seq![','] + enc_str(t));
    }
}

/// Write the bracketed tag list.
fn encode_tags(tags: &Vec<String>, out: &mut String)
    ensures
        final(out)@ == old(out)@ + enc_tags(tags@.map_values(|t: String| t@)),
{
    push_char(out, '[');
    let n = tags.len();
    let mut i: usize = 0;
    while i < n
        invariant
            n == tags@.len(),
            i <= n,
            out@ == old(out)@ + seq!['['] + enc_tags_items(
                tags@.map_values(|t: String| t@).subrange(0, i as int),
            ),
        decreases n - i,
    {
        if i > 0 {
            push_char(out, ',');
        }
        encode_str(tags[i].as_str(), out);
        proof {
            let m = tags@.map_values(|t: String| t@);
            assert(m.subrange(0, i + 1) =~= m.subrange(0, i as int).push(m[i as int]));
            assert(m[i as int] == tags@[i as int]@);
            if i == 0 {
                assert(m.subrange(0, 1) =~= seq![m[0]]);
                assert(enc_tags_items(seq![m[0]]) == enc_str(m[0]));
            } else {
                lemma_enc_tags_items_push(m.subrange(0, i as int), m[i as int]);
            }
            assert(out@ =~= old(out)@ + seq!['['] + enc_tags_items(m.subrange(0, i + 1)));
        }
        i = i + 1;
    }
    push_char(out, ']');
    proof {
        let m = tags@.map_values(|t: String| t@);
        assert(m.subrange(0, n as int) =~= m);
        assert(final(out)@ =~= old(out)@ + enc_tags(m));
    }
}

/// Write one card.
fn encode_card(c: &Card, out: &mut String)
    ensures
        final(out)@ == old(out)@ + enc_card(c@),
{
    out.append("{\"id\":\"");
    encode_escaped(c.id.as_str(), out);
    out.append("\"");
    out.append(",\"front_text\":\"");
    encode_escaped(c.front_text.as_str(), out);
    out.append("\"");
    out.append(",\"back_text\":\"");
    encode_escaped(c.back_text.as_str(), out);
    out.append("\"");
    out.append(",\"difficulty\":");
    encode_u32(c.difficulty, out);
    out.append(",\"easiness_factor\":");
    encode_u32(c.easiness_factor, out);
    out.append(",\"interval\":");
    encode_u32(c.interval, out);
    out.append(",\"repetitions\":");
    encode_u32(c.repetitions, out);
    out.append(",\"next_review\":");
    encode_i64(c.next_review, out);
    out.append(",\"tags\":");
    encode_tags(&c.tags, out);
    out.append("}");
    proof {
        assert("\""@ =~= seq!['"']) by {
            reveal_strlit("\"");
        }
        assert("}"@ =~= seq!['}']) by {
            reveal_strlit("}");
        }
        assert(final(out)@ =~= old(out)@ + enc_card(c@));
    }
}

/// The encoded deck list grows by a comma and one card at the end.
proof fn lemma_enc_deck_items_push(cs: Seq<CardView>, c: CardView)
    requires
        cs.len() >= 1,
    ensures
        enc_deck_items(cs.push(c)) == enc_deck_items(cs) + seq![','] + enc_card(c),
    decreases cs.len(),
{
    if cs.len() == 1 {
        assert(cs.push(c).drop_first() =~= seq![c]);
        assert(enc_deck_items(seq![c]) == enc_card(c));
        assert(enc_deck_items(cs.push(c)) =~= enc_deck_items(cs) + seq![','] + enc_card(c));
    } else {
        assert(cs.push(c).drop_first() =~= cs.drop_first().push(c));
        lemma_enc_deck_items_push(cs.drop_first(), c);
        assert(enc_deck_items(cs.push(c)) =~= enc_deck_items(cs) + seq![','] + enc_card(c));
    }
}

/// Serialize a whole deck to its textual form.
pub fn serialize_cards(cards: &Vec<Card>) -> (r: String)
    ensures
        r@ == enc_deck(cards@.map_values(|c: Card| c@)),
{
    let mut out = String::new();
    push_char(&mut out, '[');
    let n = cards.len();
    let mut i: usize = 0;
    while i < n
        invariant
            n == cards@.len(),
            i <= n,
            out@ == seq!['['] + enc_deck_items(
                cards@.map_values(|c: Card| c@).subrange(0, i as int),
            ),
        decreases n - i,
    {
        if i > 0 {
            push_char(&mut out, ',');
        }
        encode_card(&cards[i], &mut out);
        proof {
            let m = cards@.map_values(|c: Card| c@);
            assert(m.subrange(0, i + 1) =~= m.subrange(0, i as int).push(m[i as int]));
            assert(m[i as int] == cards@[i as int]@);
            if i == 0 {
                assert(m.subrange(0, 1) =~= seq![m[0]]);
                assert(enc_deck_items(seq![m[0]]) == enc_card(m[0]));
            } else {
                lemma_enc_deck_items_push(m.subrange(0, i as int), m[i as int]);
            }
            assert(out@ =~= seq!['['] + enc_deck_items(m.subrange(0, i + 1)));
        }
        i = i + 1;
    }
    push_char(&mut out, ']');
    proof {
        let m = cards@.map_values(|c: Card| c@);
        assert(m.subrange(0, n as int) =~= m);
        assert(out@ =~= enc_deck(m));
    }
    out
}

} // verus!
