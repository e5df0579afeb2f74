//! The deck decoder: parse the textual form back into cards, and the proof
//! that it inverts the encoder exactly.

use vstd::prelude::*;
use vstd::arithmetic::div_mod::{
    lemma_fundamental_div_mod, lemma_multiply_divide_lt, lemma_small_mod,
    lemma_mod_division_less_than_divisor,
};
use crate::card::{Card, CardView};
use crate::codec::{
    dig, pow10, enc_fixed, enc_u32, enc_i64, esc, esc_char, enc_tags_items, enc_tags, enc_card,
    enc_deck_items, enc_deck, lemma_pow10_pos, push_char,
};

verus! {

/// A decimal digit character.
pub open spec fn is_digit(c: char) -> bool {
    48 <= c as u32 <= 57
}

/// Read exactly `k` digits off the front of `s` into `acc`, most
/// significant first; the rest of `s` is handed back.
pub open spec fn parse_fixed(s: Seq<char>, k: nat, acc: int) -> Option<(int, Seq<char>)>
    decreases k,
{
    if k == 0 {
        Some((acc, s))
    } else if s.len() > 0 && is_digit(s[0]) {
        parse_fixed(s.drop_first(), (k - 1) as nat, acc * 10 + (s[0] as u32 - 48))
    } else {
        None
    }
}

/// Read a ten-digit count that fits 32 bits.
pub open spec fn parse_u32(s: Seq<char>) -> Option<(u32, Seq<char>)> {
    match parse_fixed(s, 10, 0) {
        Some((v, r)) => if v <= u32::MAX {
            Some((v as u32, r))
        } else {
            None
        },
        None => None,
    }
}

/// Read a signed nineteen-digit timestamp that fits 64 bits.
pub open spec fn parse_i64(s: Seq<char>) -> Option<(i64, Seq<char>)> {
    if s.len() == 0 {
        None
    } else if s[0] == '+' {
        match parse_fixed(s.drop_first(), 19, 0) {
            Some((v, r)) => if v <= i64::MAX {
                Some((v as i64, r))
            } else {
                None
            },
            None => None,
        }
    } else if s[0] == '-' {
        match parse_fixed(s.drop_first(), 19, 0) {
            Some((v, r)) => if v <= 0x8000_0000_0000_0000 {
                Some(((-v) as i64, r))
            } else {
                None
            },
            None => None,
        }
    } else {
        None
    }
}

/// Read an escaped text up to and over its closing quote (the opening quote
/// is already consumed).
pub open spec fn parse_strbody(s: Seq<char>) -> Option<(Seq<char>, Seq<char>)>
    decreases s.len(),
{
    if s.len() == 0 {
        None
    } else if s[0] == '"' {
        Some((Seq::empty(), s.drop_first()))
    } else if s[0] == '\\' {
        if s.len() >= 2 {
            match parse_strbody(s.skip(2)) {
                Some((t, r)) => Some((seq![s[1]] + t, r)),
                None => None,
            }
        } else {
            None
        }
    } else {
        match parse_strbody(s.drop_first()) {
            Some((t, r)) => Some((seq![s[0]] + t, r)),
            None => None,
        }
    }
}

/// Whatever a text parse hands back is strictly shorter than its input.
pub proof fn lemma_parse_strbody_shrinks(s: Seq<char>)
    ensures
        parse_strbody(s) is Some ==> parse_strbody(s)->Some_0.1.len() < s.len(),
    decreases s.len(),
{
    if s.len() == 0 {
    } else if s[0] == '"' {
    } else if s[0] == '\\' {
        if s.len() >= 2 {
            lemma_parse_strbody_shrinks(s.skip(2));
        }
    } else {
        lemma_parse_strbody_shrinks(s.drop_first());
    }
}

/// Consume an expected literal off the front of `s`.
pub open spec fn expect(s: Seq<char>, lit: Seq<char>) -> Option<Seq<char>> {
    if lit.len() <= s.len() && s.subrange(0, lit.len() as int) == lit {
        Some(s.skip(lit.len() as int))
    } else {
        None
    }
}

/// Read the members of a bracketed text list up to and over the closing
/// bracket (the opening bracket is already consumed).
pub open spec fn parse_tags_items(s: Seq<char>) -> Option<(Seq<Seq<char>>, Seq<char>)>
    decreases s.len(),
    via parse_tags_items_decreases
{
    if s.len() == 0 {
        None
    } else if s[0] == ']' {
        Some((Seq::empty(), s.drop_first()))
    } else if s[0] == '"' {
        match parse_strbody(s.drop_first()) {
            Some((t, r)) => if r.len() == 0 {
                None
            } else if r[0] == ',' {
                match parse_tags_items(r.drop_first()) {
                    Some((ts, r2)) => Some((seq![t] + ts, r2)),
                    None => None,
                }
            } else if r[0] == ']' {
                Some((seq![t], r.drop_first()))
            } else {
                None
            },
            None => None,
        }
    } else {
        None
    }
}

#[via_fn]
proof fn parse_tags_items_decreases(s: Seq<char>) {
    if s.len() > 0 && s[0] != ']' && s[0] == '"' {
        lemma_parse_strbody_shrinks(s.drop_first());
    }
}

/// Whatever a tag-list parse hands back is strictly shorter than its input.
pub proof fn lemma_parse_tags_items_shrinks(s: Seq<char>)
    ensures
        parse_tags_items(s) is Some ==> parse_tags_items(s)->Some_0.1.len() < s.len(),
    decreases s.len(),
{
    if s.len() > 0 && s[0] != ']' && s[0] == '"' {
        lemma_parse_strbody_shrinks(s.drop_first());
        if parse_strbody(s.drop_first()) is Some {
            let (t, r) = parse_strbody(s.drop_first())->Some_0;
            if r.len() > 0 && r[0] == ',' {
                lemma_parse_tags_items_shrinks(r.drop_first());
            }
        }
    }
}

/// Read a bracketed text list.
pub open spec fn parse_tags(s: Seq<char>) -> Option<(Seq<Seq<char>>, Seq<char>)> {
    if s.len() > 0 && s[0] == '[' {
        parse_tags_items(s.drop_first())
    } else {
        None
    }
}

/// Read one card: its fields in the fixed order, each behind its label.
pub open spec fn parse_card(s: Seq<char>) -> Option<(CardView, Seq<char>)> {
    match expect(s, "{\"id\":\""@) {
        None => None,
        Some(s1) => match parse_strbody(s1) {
            None => None,
            Some((id, s2)) => match expect(s2, ",\"front_text\":\""@) {
                None => None,
                Some(s3) => match parse_strbody(s3) {
                    None => None,
                    Some((front_text, s4)) => match expect(s4, ",\"back_text\":\""@) {
                        None => None,
                        Some(s5) => match parse_strbody(s5) {
                            None => None,
                            Some((back_text, s6)) => parse_card_nums(
                                s6,
                                id,
                                front_text,
                                back_text,
                            ),
                        },
                    },
                },
            },
        },
    }
}

/// The numeric and tag half of one card, after the three text fields.
pub open spec fn parse_card_nums(
    s: Seq<char>,
    id: Seq<char>,
    front_text: Seq<char>,
    back_text: Seq<char>,
) -> Option<(CardView, Seq<char>)> {
    match expect(s, ",\"difficulty\":"@) {
        None => None,
        Some(s1) => match parse_u32(s1) {
            None => None,
            Some((difficulty, s2)) => match expect(s2, ",\"easiness_factor\":"@) {
                None => None,
                Some(s3) => match parse_u32(s3) {
                    None => None,
                    Some((easiness_factor, s4)) => match expect(s4, ",\"interval\":"@) {
                        None => None,
                        Some(s5) => match parse_u32(s5) {
                            None => None,
                            Some((interval, s6)) => match expect(s6, ",\"repetitions\":"@) {
                                None => None,
                                Some(s7) => match parse_u32(s7) {
                                    None => None,
                                    Some((repetitions, s8)) => match expect(
                                        s8,
                                        ",\"next_review\":"@,
                                    ) {
                                        None => None,
                                        Some(s9) => match parse_i64(s9) {
                                            None => None,
                                            Some((next_review, s10)) => match expect(
                                                s10,
                                                ",\"tags\":"@,
                                            ) {
                                                None => None,
                                                Some(s11) => match parse_tags(s11) {
                                                    None => None,
                                                    Some((tags, s12)) => match expect(s12, "}"@) {
                                                        None => None,
                                                        Some(s13) => Some(
                                                            (
                                                                CardView {
                                                                    id,
                                                                    front_text,
                                                                    back_text,
                                                                    difficulty,
                                                                    easiness_factor,
                                                                    interval,
                                                                    repetitions,
                                                                    next_review,
                                                                    tags,
                                                                },
                                                                s13,
                                                            ),
                                                        ),
                                                    },
                                                },
                                            },
                                        },
                                    },
                                },
                            },
                        },
                    },
                },
            },
        },
    }
}

/// A fixed-width number parse consumes exactly its width.
pub proof fn lemma_parse_fixed_len(s: Seq<char>, k: nat, acc: int)
    ensures
        parse_fixed(s, k, acc) is Some ==> parse_fixed(s, k, acc)->Some_0.1.len() + k == s.len(),
    decreases k,
{
    if k > 0 && s.len() > 0 && is_digit(s[0]) {
        lemma_parse_fixed_len(s.drop_first(), (k - 1) as nat, acc * 10 + (s[0] as u32 - 48));
    }
}

/// Whatever a card parse hands back is strictly shorter than its input.
pub proof fn lemma_parse_card_shrinks(s: Seq<char>)
    ensures
        parse_card(s) is Some ==> parse_card(s)->Some_0.1.len() < s.len(),
{
    reveal_strlit("{\"id\":\"");
    if expect(s, "{\"id\":\""@) is Some {
        let s1 = expect(s, "{\"id\":\""@)->Some_0;
        lemma_parse_strbody_shrinks(s1);
        if parse_strbody(s1) is Some {
            let s2 = parse_strbody(s1)->Some_0.1;
            if expect(s2, ",\"front_text\":\""@) is Some {
                let s3 = expect(s2, ",\"front_text\":\""@)->Some_0;
                lemma_parse_strbody_shrinks(s3);
                if parse_strbody(s3) is Some {
                    let s4 = parse_strbody(s3)->Some_0.1;
                    if expect(s4, ",\"back_text\":\""@) is Some {
                        let s5 = expect(s4, ",\"back_text\":\""@)->Some_0;
                        lemma_parse_strbody_shrinks(s5);
                        if parse_strbody(s5) is Some {
                            let s6 = parse_strbody(s5)->Some_0.1;
                            let id = parse_strbody(s1)->Some_0.0;
                            let ft = parse_strbody(s3)->Some_0.0;
                            let bt = parse_strbody(s5)->Some_0.0;
                            lemma_parse_card_nums_shrinks(s6, id, ft, bt);
                        }
                    }
                }
            }
        }
    }
}

/// The numeric half of a card parse never hands back more than its input.
proof fn lemma_parse_card_nums_shrinks(
    s: Seq<char>,
    id: Seq<char>,
    front_text: Seq<char>,
    back_text: Seq<char>,
)
    ensures
        parse_card_nums(s, id, front_text, back_text) is Some ==> parse_card_nums(
            s,
            id,
            front_text,
            back_text,
        )->Some_0.1.len() <= s.len(),
{
    if expect(s, ",\"difficulty\":"@) is Some {
        let s1 = expect(s, ",\"difficulty\":"@)->Some_0;
        lemma_parse_fixed_len(s1, 10, 0);
        if parse_u32(s1) is Some {
            let s2 = parse_u32(s1)->Some_0.1;
            if expect(s2, ",\"easiness_factor\":"@) is Some {
                let s3 = expect(s2, ",\"easiness_factor\":"@)->Some_0;
                lemma_parse_fixed_len(s3, 10, 0);
                if parse_u32(s3) is Some {
                    let s4 = parse_u32(s3)->Some_0.1;
                    if expect(s4, ",\"interval\":"@) is Some {
                        let s5 = expect(s4, ",\"interval\":"@)->Some_0;
                        lemma_parse_fixed_len(s5, 10, 0);
                        if parse_u32(s5) is Some {
                            let s6 = parse_u32(s5)->Some_0.1;
                            if expect(s6, ",\"repetitions\":"@) is Some {
                                let s7 = expect(s6, ",\"repetitions\":"@)->Some_0;
                                lemma_parse_fixed_len(s7, 10, 0);
                                if parse_u32(s7) is Some {
                                    let s8 = parse_u32(s7)->Some_0.1;
                                    if expect(s8, ",\"next_review\":"@) is Some {
                                        let s9 = expect(s8, ",\"next_review\":"@)->Some_0;
                                        if s9.len() > 0 {
                                            lemma_parse_fixed_len(s9.drop_first(), 19, 0);
                                        }
                                        if parse_i64(s9) is Some {
                                            let s10 = parse_i64(s9)->Some_0.1;
                                            if expect(s10, ",\"tags\":"@) is Some {
                                                let s11 = expect(s10, ",\"tags\":"@)->Some_0;
                                                if s11.len() > 0 && s11[0] == '[' {
                                                    lemma_parse_tags_items_shrinks(
                                                        s11.drop_first(),
                                                    );
                                                }
                                            }
                                        }
                                    }
                                }
                            }
                        }
                    }
                }
            }
        }
    }
}

/// Read the members of the bracketed deck list up to and over the closing
/// bracket (the opening bracket is already consumed).
pub open spec fn parse_deck_items(s: Seq<char>) -> Option<(Seq<CardView>, Seq<char>)>
    decreases s.len(),
    via parse_deck_items_decreases
{
    if s.len() == 0 {
        None
    } else if s[0] == ']' {
        Some((Seq::empty(), s.drop_first()))
    } else {
        match parse_card(s) {
            Some((c, r)) => if r.len() == 0 {
                None
            } else if r[0] == ',' {
                match parse_deck_items(r.drop_first()) {
                    Some((cs, r2)) => Some((seq![c] + cs, r2)),
                    None => None,
                }
            } else if r[0] == ']' {
                Some((seq![c], r.drop_first()))
            } else {
                None
            },
            None => None,
        }
    }
}

#[via_fn]
proof fn parse_deck_items_decreases(s: Seq<char>) {
    if s.len() > 0 && s[0] != ']' {
        lemma_parse_card_shrinks(s);
    }
}

/// Read a whole deck; the text must be consumed entirely.
pub open spec fn spec_deserialize(s: Seq<char>) -> Option<Seq<CardView>> {
    if s.len() > 0 && s[0] == '[' {
        match parse_deck_items(s.drop_first()) {
            Some((cs, r)) => if r.len() == 0 {
                Some(cs)
            } else {
                None
            },
            None => None,
        }
    } else {
        None
    }
}

/// A fixed-width encoding of `n` parses back to `n`, folded onto whatever
/// was accumulated, and leaves exactly the tail.
pub proof fn lemma_parse_enc_fixed(n: int, k: nat, acc: int, rest: Seq<char>)
    requires
        0 <= n < pow10(k),
        0 <= acc,
    ensures
        parse_fixed(enc_fixed(n, k) + rest, k, acc) == Some((acc * pow10(k) + n, rest)),
    decreases k,
{
    lemma_pow10_pos(k);
    if k == 0 {
        assert(enc_fixed(n, 0) + rest =~= rest);
    } else {
        let p = pow10((k - 1) as nat);
        lemma_pow10_pos((k - 1) as nat);
        let s = enc_fixed(n, k) + rest;
        let d = n / p;
        assert(pow10(k) == 10 * p);
        lemma_multiply_divide_lt(n, p, 10);
        assert(0 <= d < 10);
        lemma_small_mod(d as nat, 10);
        assert(s[0] == dig(d));
        assert(dig(d) == ((48 + d) as u8) as char);
        assert((((48 + d) as u8) as char) as u32 == 48 + d);
        assert(is_digit(s[0]));
        assert(s.drop_first() =~= enc_fixed(n % p, (k - 1) as nat) + rest);
        lemma_mod_division_less_than_divisor(n, p);
        lemma_parse_enc_fixed(n % p, (k - 1) as nat, acc * 10 + d, rest);
        lemma_fundamental_div_mod(n, p);
        assert((acc * 10 + d) * p + n % p == acc * (10 * p) + n) by (nonlinear_arith)
            requires
                n == p * d + n % p,
        ;
    }
}

/// A ten-digit count parses back to itself.
pub proof fn lemma_parse_enc_u32(n: u32, rest: Seq<char>)
    ensures
        parse_u32(enc_u32(n) + rest) == Some((n, rest)),
{
    reveal_with_fuel(pow10, 11);
    assert(pow10(10) == 10_000_000_000);
    lemma_parse_enc_fixed(n as int, 10, 0, rest);
}

/// A signed nineteen-digit timestamp parses back to itself.
pub proof fn lemma_parse_enc_i64(n: i64, rest: Seq<char>)
    ensures
        parse_i64(enc_i64(n) + rest) == Some((n, rest)),
{
    reveal_with_fuel(pow10, 20);
    assert(pow10(19) == 10_000_000_000_000_000_000);
    if n < 0 {
        let mag = -(n as int);
        let s = enc_i64(n) + rest;
        assert(s[0] == '-');
        assert(s.drop_first() =~= enc_fixed(mag, 19) + rest);
        lemma_parse_enc_fixed(mag, 19, 0, rest);
    } else {
        let s = enc_i64(n) + rest;
        assert(s[0] == '+');
        assert(s.drop_first() =~= enc_fixed(n as int, 19) + rest);
        lemma_parse_enc_fixed(n as int, 19, 0, rest);
    }
}

/// An escaped, closed text parses back to itself.
pub proof fn lemma_parse_enc_strbody(x: Seq<char>, rest: Seq<char>)
    ensures
        parse_strbody(esc(x) + seq!['"'] + rest) == Some((x, rest)),
    decreases x.len(),
{
    let s = esc(x) + seq!['"'] + rest;
    if x.len() == 0 {
        assert(s =~= seq!['"'] + rest);
        assert(s[0] == '"');
        assert(s.drop_first() =~= rest);
        assert(x =~= Seq::<char>::empty());
    } else {
        let x0 = x[0];
        let xt = x.drop_first();
        assert(esc(x) == esc_char(x0) + esc(xt));
        lemma_parse_enc_strbody(xt, rest);
        if x0 == '"' || x0 == '\\' {
            assert(s[0] == '\\');
            assert(s[1] == x0);
            assert(s.len() >= 2);
            assert(s.skip(2) =~= esc(xt) + seq!['"'] + rest);
            assert(seq![x0] + xt =~= x);
        } else {
            assert(s[0] == x0);
            assert(s.drop_first() =~= esc(xt) + seq!['"'] + rest);
            assert(seq![x0] + xt =~= x);
        }
    }
}

/// Consuming a literal off a text that starts with it leaves the tail.
pub proof fn lemma_expect_prefix(lit: Seq<char>, rest: Seq<char>)
    ensures
        expect(lit + rest, lit) == Some(rest),
{
    assert((lit + rest).subrange(0, lit.len() as int) =~= lit);
    assert((lit + rest).skip(lit.len() as int) =~= rest);
}

/// An encoded, closed tag list parses back to itself.
pub proof fn lemma_parse_enc_tags_items(tags: Seq<Seq<char>>, rest: Seq<char>)
    ensures
        parse_tags_items(enc_tags_items(tags) + seq![']'] + rest) == Some((tags, rest)),
    decreases tags.len(),
{
    let s = enc_tags_items(tags) + seq![']'] + rest;
    if tags.len() == 0 {
        assert(s =~= seq![']'] + rest);
        assert(s[0] == ']');
        assert(s.drop_first() =~= rest);
        assert(tags =~= Seq::<Seq<char>>::empty());
    } else if tags.len() == 1 {
        assert(s =~= seq!['"'] + (esc(tags[0]) + seq!['"'] + (seq![']'] + rest)));
        assert(s[0] == '"');
        assert(s.drop_first() =~= esc(tags[0]) + seq!['"'] + (seq![']'] + rest));
        lemma_parse_enc_strbody(tags[0], seq![']'] + rest);
        let r = seq![']'] + rest;
        assert(r[0] == ']');
        assert(r.drop_first() =~= rest);
        assert(seq![tags[0]] =~= tags);
    } else {
        let t0 = tags[0];
        let tt = tags.drop_first();
        let inner = seq![','] + (enc_tags_items(tt) + seq![']'] + rest);
        assert(s =~= seq!['"'] + (esc(t0) + seq!['"'] + inner));
        assert(s[0] == '"');
        assert(s.drop_first() =~= esc(t0) + seq!['"'] + inner);
        lemma_parse_enc_strbody(t0, inner);
        assert(inner[0] == ',');
        assert(inner.drop_first() =~= enc_tags_items(tt) + seq![']'] + rest);
        lemma_parse_enc_tags_items(tt, rest);
        assert(seq![t0] + tt =~= tags);
    }
}

/// An encoded card parses back to itself, leaving exactly the tail.
#[verifier::rlimit(50)]
pub proof fn lemma_parse_enc_card(c: CardView, rest: Seq<char>)
    ensures
        parse_card(enc_card(c) + rest) == Some((c, rest)),
{
    reveal_strlit("}");
    assert("}"@ =~= seq!['}']);
    let s12 = "}"@ + rest;
    let s11 = enc_tags(c.tags) + s12;
    let s10 = ",\"tags\":"@ + s11;
    let s9 = enc_i64(c.next_review) + s10;
    let s8 = ",\"next_review\":"@ + s9;
    let s7 = enc_u32(c.repetitions) + s8;
    let s6 = ",\"repetitions\":"@ + s7;
    let s5 = enc_u32(c.interval) + s6;
    let s4 = ",\"interval\":"@ + s5;
    let s3 = enc_u32(c.easiness_factor) + s4;
    let s2 = ",\"easiness_factor\":"@ + s3;
    let s1 = enc_u32(c.difficulty) + s2;
    let s0 = ",\"difficulty\":"@ + s1;
    let b1 = esc(c.back_text) + seq!['"'] + s0;
    let b0 = ",\"back_text\":\""@ + b1;
    let f1 = esc(c.front_text) + seq!['"'] + b0;
    let f0 = ",\"front_text\":\""@ + f1;
    let i1 = esc(c.id) + seq!['"'] + f0;
    let s = enc_card(c) + rest;
    assert(s =~= "{\"id\":\""@ + i1);
    lemma_expect_prefix("{\"id\":\""@, i1);
    lemma_parse_enc_strbody(c.id, f0);
    assert(f0 =~= ",\"front_text\":\""@ + f1);
    lemma_expect_prefix(",\"front_text\":\""@, f1);
    lemma_parse_enc_strbody(c.front_text, b0);
    assert(b0 =~= ",\"back_text\":\""@ + b1);
    lemma_expect_prefix(",\"back_text\":\""@, b1);
    lemma_parse_enc_strbody(c.back_text, s0);
    assert(s0 =~= ",\"difficulty\":"@ + s1);
    lemma_expect_prefix(",\"difficulty\":"@, s1);
    lemma_parse_enc_u32(c.difficulty, s2);
    assert(s2 =~= ",\"easiness_factor\":"@ + s3);
    lemma_expect_prefix(",\"easiness_factor\":"@, s3);
    lemma_parse_enc_u32(c.easiness_factor, s4);
    assert(s4 =~= ",\"interval\":"@ + s5);
    lemma_expect_prefix(",\"interval\":"@, s5);
    lemma_parse_enc_u32(c.interval, s6);
    assert(s6 =~= ",\"repetitions\":"@ + s7);
    lemma_expect_prefix(",\"repetitions\":"@, s7);
    lemma_parse_enc_u32(c.repetitions, s8);
    assert(s8 =~= ",\"next_review\":"@ + s9);
    lemma_expect_prefix(",\"next_review\":"@, s9);
    lemma_parse_enc_i64(c.next_review, s10);
    assert(s10 =~= ",\"tags\":"@ + s11);
    lemma_expect_prefix(",\"tags\":"@, s11);
    assert(s11[0] == '[');
    assert(s11.drop_first() =~= enc_tags_items(c.tags) + seq![']'] + s12);
    lemma_parse_enc_tags_items(c.tags, s12);
    assert(s12 =~= "}"@ + rest);
    lemma_expect_prefix("}"@, rest);
    assert(parse_card(s) == Some((c, rest)));
}

/// An encoded, closed deck list parses back to itself.
#[verifier::rlimit(50)]
pub proof fn lemma_parse_enc_deck_items(cs: Seq<CardView>, rest: Seq<char>)
    ensures
        parse_deck_items(enc_deck_items(cs) + seq![']'] + rest) == Some((cs, rest)),
    decreases cs.len(),
{
    reveal_strlit("{\"id\":\"");
    let s = enc_deck_items(cs) + seq![']'] + rest;
    if cs.len() == 0 {
        assert(s =~= seq![']'] + rest);
        assert(s[0] == ']');
        assert(s.drop_first() =~= rest);
        assert(cs =~= Seq::<CardView>::empty());
    } else if cs.len() == 1 {
        assert(s =~= enc_card(cs[0]) + (seq![']'] + rest));
        assert(s[0] == '{');
        lemma_parse_enc_card(cs[0], seq![']'] + rest);
        let r = seq![']'] + rest;
        assert(r[0] == ']');
        assert(r.drop_first() =~= rest);
        assert(seq![cs[0]] =~= cs);
    } else {
        let c0 = cs[0];
        let ct = cs.drop_first();
        let inner = seq![','] + (enc_deck_items(ct) + seq![']'] + rest);
        assert(s =~= enc_card(c0) + inner);
        assert(s[0] == '{');
        lemma_parse_enc_card(c0, inner);
        assert(inner[0] == ',');
        assert(inner.drop_first() =~= enc_deck_items(ct) + seq![']'] + rest);
        lemma_parse_enc_deck_items(ct, rest);
        assert(seq![c0] + ct =~= cs);
    }
}

/// The round trip: a serialized deck deserializes to field-for-field the
/// same cards, tag order and all.
pub proof fn lemma_round_trip(cs: Seq<CardView>)
    ensures
        spec_deserialize(enc_deck(cs)) == Some(cs),
{
    let s = enc_deck(cs);
    assert(s[0] == '[');
    assert(s.drop_first() =~= enc_deck_items(cs) + seq![']'] + Seq::<char>::empty());
    lemma_parse_enc_deck_items(cs, Seq::<char>::empty());
}

/// Read exactly `k` digits off `s` at `i` into `acc`.
fn parse_fixed_exec(s: &str, i: usize, k: usize, acc: u64) -> (r: Option<(u64, usize)>)
    requires
        i <= s@.len(),
        (acc as int) * pow10(k as nat) + pow10(k as nat) - 1 <= u64::MAX,
    ensures
        match r {
            Some(v) => {
                &&& i <= v.1 <= s@.len()
                &&& parse_fixed(s@.skip(i as int), k as nat, acc as int) == Some(
                    (v.0 as int, s@.skip(v.1 as int)),
                )
            },
            None => parse_fixed(s@.skip(i as int), k as nat, acc as int) is None,
        },
{
    let n = s.unicode_len();
    let mut j = i;
    let mut rem = k;
    let mut a = acc;
    while rem > 0
        invariant
            i <= j <= n,
            n == s@.len(),
            (a as int) * pow10(rem as nat) + pow10(rem as nat) - 1 <= u64::MAX,
            parse_fixed(s@.skip(i as int), k as nat, acc as int) == parse_fixed(
                s@.skip(j as int),
                rem as nat,
                a as int,
            ),
        decreases rem,
    {
        proof {
            lemma_pow10_pos(rem as nat);
            lemma_pow10_pos((rem - 1) as nat);
        }
        if j >= n {
            return None;
        }
        let c = s.get_char(j);
        let cu = c as u32;
        if cu < 48 || cu > 57 {
            return None;
        }
        let d: u64 = (cu - 48) as u64;
        proof {
            let p = pow10((rem - 1) as nat);
            assert(pow10(rem as nat) == 10 * p);
            assert((a as int) * 10 + 9 <= (a as int) * (10 * p) + 10 * p - 1) by (nonlinear_arith)
                requires
                    p >= 1,
                    a >= 0,
            ;
            assert(((a as int) * 10 + d) * p + p - 1 <= (a as int) * (10 * p) + 10 * p - 1)
                by (nonlinear_arith)
                requires
                    p >= 1,
                    a >= 0,
                    0 <= d <= 9,
            ;
            assert(s@.skip(j as int)[0] == s@[j as int]);
            assert(s@.skip(j as int).drop_first() =~= s@.skip(j + 1));
        }
        a = a * 10 + d;
        j = j + 1;
        rem = rem - 1;
    }
    Some((a, j))
}

/// Read a ten-digit count at `i`.
fn parse_u32_exec(s: &str, i: usize) -> (r: Option<(u32, usize)>)
    requires
        i <= s@.len(),
    ensures
        match r {
            Some(v) => {
                &&& i <= v.1 <= s@.len()
                &&& parse_u32(s@.skip(i as int)) == Some((v.0, s@.skip(v.1 as int)))
            },
            None => parse_u32(s@.skip(i as int)) is None,
        },
{
    proof {
        reveal_with_fuel(pow10, 11);
        assert(pow10(10) == 10_000_000_000);
    }
    match parse_fixed_exec(s, i, 10, 0) {
        None => None,
        Some((v, j)) => {
            if v <= 0xFFFF_FFFFu64 {
                Some((v as u32, j))
            } else {
                None
            }
        },
    }
}

/// Read a signed nineteen-digit timestamp at `i`.
fn parse_i64_exec(s: &str, i: usize) -> (r: Option<(i64, usize)>)
    requires
        i <= s@.len(),
    ensures
        match r {
            Some(v) => {
                &&& i <= v.1 <= s@.len()
                &&& parse_i64(s@.skip(i as int)) == Some((v.0, s@.skip(v.1 as int)))
            },
            None => parse_i64(s@.skip(i as int)) is None,
        },
{
    proof {
        reveal_with_fuel(pow10, 20);
        assert(pow10(19) == 10_000_000_000_000_000_000);
    }
    let n = s.unicode_len();
    if i >= n {
        return None;
    }
    let c = s.get_char(i);
    proof {
        assert(s@.skip(i as int)[0] == s@[i as int]);
        assert(s@.skip(i as int).drop_first() =~= s@.skip(i + 1));
    }
    if c == '+' {
        match parse_fixed_exec(s, i + 1, 19, 0) {
            None => None,
            Some((v, j)) => {
                if v <= 0x7FFF_FFFF_FFFF_FFFFu64 {
                    Some((v as i64, j))
                } else {
                    None
                }
            },
        }
    } else if c == '-' {
        match parse_fixed_exec(s, i + 1, 19, 0) {
            None => None,
            Some((v, j)) => {
                if v < 0x8000_0000_0000_0000u64 {
                    Some((-(v as i64), j))
                } else if v == 0x8000_0000_0000_0000u64 {
                    Some((i64::MIN, j))
                } else {
                    None
                }
            },
        }
    } else {
        None
    }
}

/// Read an escaped text at `i`, up to and over its closing quote.
fn parse_strbody_exec(s: &str, i: usize) -> (r: Option<(String, usize)>)
    requires
        i <= s@.len(),
    ensures
        match r {
            Some(v) => {
                &&& i <= v.1 <= s@.len()
                &&& parse_strbody(s@.skip(i as int)) == Some((v.0@, s@.skip(v.1 as int)))
            },
            None => parse_strbody(s@.skip(i as int)) is None,
        },
{
    let n = s.unicode_len();
    let mut out = String::new();
    let mut j = i;
    while j < n
        invariant
            i <= j <= n,
            n == s@.len(),
            match parse_strbody(s@.skip(j as int)) {
                Some(p) => parse_strbody(s@.skip(i as int)) == Some((out@ + p.0, p.1)),
                None => parse_strbody(s@.skip(i as int)) is None,
            },
        decreases n - j,
    {
        let c = s.get_char(j);
        proof {
            assert(s@.skip(j as int)[0] == s@[j as int]);
            assert(s@.skip(j as int).drop_first() =~= s@.skip(j + 1));
        }
        if c == '"' {
            proof {
                assert(out@ + Seq::<char>::empty() =~= out@);
            }
            return Some((out, j + 1));
        } else if c == '\\' {
            if j + 1 >= n {
                return None;
            }
            let c2 = s.get_char(j + 1);
            proof {
                assert(s@.skip(j as int)[1] == s@[j + 1]);
                assert(s@.skip(j as int).skip(2) =~= s@.skip(j + 2));
                if parse_strbody(s@.skip(j + 2)) is Some {
                    let p = parse_strbody(s@.skip(j + 2))->Some_0;
                    assert(out@ + (seq![s@[j + 1]] + p.0) =~= out@.push(s@[j + 1]) + p.0);
                }
            }
            push_char(&mut out, c2);
            j = j + 2;
        } else {
            proof {
                if parse_strbody(s@.skip(j + 1)) is Some {
                    let p = parse_strbody(s@.skip(j + 1))->Some_0;
                    assert(out@ + (seq![s@[j as int]] + p.0) =~= out@.push(s@[j as int]) + p.0);
                }
            }
            push_char(&mut out, c);
            j = j + 1;
        }
    }
    None
}

/// Consume an expected literal at `i`.
fn expect_lit(s: &str, i: usize, lit: &str) -> (r: Option<usize>)
    requires
        i <= s@.len(),
    ensures
        match r {
            Some(j) => {
                &&& i <= j <= s@.len()
                &&& expect(s@.skip(i as int), lit@) == Some(s@.skip(j as int))
            },
            None => expect(s@.skip(i as int), lit@) is None,
        },
{
    let ll = lit.unicode_len();
    let n = s.unicode_len();
    if n - i < ll {
        return None;
    }
    let mut j: usize = 0;
    while j < ll
        invariant
            j <= ll,
            i + ll <= n,
            n == s@.len(),
            ll == lit@.len(),
            forall|m: int| 0 <= m < j ==> s@[i + m] == lit@[m],
        decreases ll - j,
    {
        let cs = s.get_char(i + j);
        let cl = lit.get_char(j);
        if cs != cl {
            proof {
                if expect(s@.skip(i as int), lit@) is Some {
                    assert(s@.skip(i as int).subrange(0, ll as int) == lit@);
                    assert(s@.skip(i as int).subrange(0, ll as int)[j as int] == s@[i + j]);
                }
            }
            return None;
        }
        j = j + 1;
    }
    proof {
        assert(s@.skip(i as int).subrange(0, ll as int) =~= lit@);
        assert(s@.skip(i as int).skip(ll as int) =~= s@.skip(i + ll));
    }
    Some(i + ll)
}

/// Read a bracketed text list at `i`.
fn parse_tags_exec(s: &str, i: usize) -> (r: Option<(Vec<String>, usize)>)
    requires
        i <= s@.len(),
    ensures
        match r {
            Some(v) => {
                &&& i <= v.1 <= s@.len()
                &&& parse_tags(s@.skip(i as int)) == Some(
                    (v.0@.map_values(|t: String| t@), s@.skip(v.1 as int)),
                )
            },
            None => parse_tags(s@.skip(i as int)) is None,
        },
{
    let n = s.unicode_len();
    if i >= n {
        return None;
    }
    proof {
        assert(s@.skip(i as int)[0] == s@[i as int]);
        assert(s@.skip(i as int).drop_first() =~= s@.skip(i + 1));
    }
    if s.get_char(i) != '[' {
        return None;
    }
    let mut out: Vec<String> = Vec::new();
    let mut pos: usize = i + 1;
    proof {
        assert(out@.map_values(|t: String| t@) =~= Seq::<Seq<char>>::empty());
    }
    #[verifier::loop_isolation(false)]
    loop
        invariant
            i + 1 <= pos <= n,
            n == s@.len(),
            match parse_tags_items(s@.skip(pos as int)) {
                Some(p) => parse_tags_items(s@.skip(i + 1)) == Some(
                    (out@.map_values(|t: String| t@) + p.0, p.1),
                ),
                None => parse_tags_items(s@.skip(i + 1)) is None,
            },
        decreases n - pos,
    {
        if pos >= n {
            return None;
        }
        let c = s.get_char(pos);
        proof {
            assert(s@.skip(pos as int)[0] == s@[pos as int]);
            assert(s@.skip(pos as int).drop_first() =~= s@.skip(pos + 1));
        }
        if c == ']' {
            proof {
                let m = out@.map_values(|t: String| t@);
                assert(m + Seq::<Seq<char>>::empty() =~= m);
            }
            return Some((out, pos + 1));
        }
        if c != '"' {
            return None;
        }
        match parse_strbody_exec(s, pos + 1) {
            None => {
                return None;
            },
            Some((t, j)) => {
                if j >= n {
                    return None;
                }
                let c2 = s.get_char(j);
                proof {
                    assert(s@.skip(j as int)[0] == s@[j as int]);
                    assert(s@.skip(j as int).drop_first() =~= s@.skip(j + 1));
                }
                if c2 == ',' {
                    proof {
                        let m = out@.map_values(|t: String| t@);
                        assert(out@.push(t).map_values(|q: String| q@) =~= m.push(t@));
                        if parse_tags_items(s@.skip(j + 1)) is Some {
                            let p = parse_tags_items(s@.skip(j + 1))->Some_0;
                            assert(m + (seq![t@] + p.0) =~= m.push(t@) + p.0);
                        }
                    }
                    out.push(t);
                    pos = j + 1;
                } else if c2 == ']' {
                    proof {
                        let m = out@.map_values(|t: String| t@);
                        assert(out@.push(t).map_values(|q: String| q@) =~= m.push(t@));
                        assert(m + seq![t@] =~= m.push(t@));
                    }
                    out.push(t);
                    return Some((out, j + 1));
                } else {
                    return None;
                }
            },
        }
    }
}

/// Read one card at `i`.
#[verifier::rlimit(50)]
fn parse_card_exec(s: &str, i: usize) -> (r: Option<(Card, usize)>)
    requires
        i <= s@.len(),
    ensures
        match r {
            Some(v) => {
                &&& i <= v.1 <= s@.len()
                &&& parse_card(s@.skip(i as int)) == Some((v.0@, s@.skip(v.1 as int)))
            },
            None => parse_card(s@.skip(i as int)) is None,
        },
{
    let j1 = match expect_lit(s, i, "{\"id\":\"") {
        None => {
            return None;
        },
        Some(j) => j,
    };
    let (id, j2) = match parse_strbody_exec(s, j1) {
        None => {
            return None;
        },
        Some(v) => v,
    };
    let j3 = match expect_lit(s, j2, ",\"front_text\":\"") {
        None => {
            return None;
        },
        Some(j) => j,
    };
    let (front_text, j4) = match parse_strbody_exec(s, j3) {
        None => {
            return None;
        },
        Some(v) => v,
    };
    let j5 = match expect_lit(s, j4, ",\"back_text\":\"") {
        None => {
            return None;
        },
        Some(j) => j,
    };
    let (back_text, j6) = match parse_strbody_exec(s, j5) {
        None => {
            return None;
        },
        Some(v) => v,
    };
    let j7 = match expect_lit(s, j6, ",\"difficulty\":") {
        None => {
            return None;
        },
        Some(j) => j,
    };
    let (difficulty, j8) = match parse_u32_exec(s, j7) {
        None => {
            return None;
        },
        Some(v) => v,
    };
    let j9 = match expect_lit(s, j8, ",\"easiness_factor\":") {
        None => {
            return None;
        },
        Some(j) => j,
    };
    let (easiness_factor, j10) = match parse_u32_exec(s, j9) {
        None => {
            return None;
        },
        Some(v) => v,
    };
    let j11 = match expect_lit(s, j10, ",\"interval\":") {
        None => {
            return None;
        },
        Some(j) => j,
    };
    let (interval, j12) = match parse_u32_exec(s, j11) {
        None => {
            return None;
        },
        Some(v) => v,
    };
    let j13 = match expect_lit(s, j12, ",\"repetitions\":") {
        None => {
            return None;
        },
        Some(j) => j,
    };
    let (repetitions, j14) = match parse_u32_exec(s, j13) {
        None => {
            return None;
        },
        Some(v) => v,
    };
    let j15 = match expect_lit(s, j14, ",\"next_review\":") {
        None => {
            return None;
        },
        Some(j) => j,
    };
    let (next_review, j16) = match parse_i64_exec(s, j15) {
        None => {
            return None;
        },
        Some(v) => v,
    };
    let j17 = match expect_lit(s, j16, ",\"tags\":") {
        None => {
            return None;
        },
        Some(j) => j,
    };
    let (tags, j18) = match parse_tags_exec(s, j17) {
        None => {
            return None;
        },
        Some(v) => v,
    };
    let j19 = match expect_lit(s, j18, "}") {
        None => {
            return None;
        },
        Some(j) => j,
    };
    let card = Card {
        id,
        front_text,
        back_text,
        difficulty,
        easiness_factor,
        interval,
        repetitions,
        next_review,
        tags,
    };
    Some((card, j19))
}

/// Parse a whole deck text back into cards. Succeeds exactly on texts the
/// encoder produces, consuming the text entirely.
pub fn deserialize_cards(s: &str) -> (r: Option<Vec<Card>>)
    ensures
        match r {
            Some(v) => spec_deserialize(s@) == Some(v@.map_values(|c: Card| c@)),
            None => spec_deserialize(s@) is None,
        },
{
    let n = s.unicode_len();
    if n == 0 {
        return None;
    }
    proof {
        assert(s@.skip(0)[0] == s@[0]);
    }
    if s.get_char(0) != '[' {
        return None;
    }
    let mut out: Vec<Card> = Vec::new();
    let mut pos: usize = 1;
    proof {
        assert(s@.skip(0) =~= s@);
        assert(s@.drop_first() =~= s@.skip(1));
        assert(out@.map_values(|c: Card| c@) =~= Seq::<CardView>::empty());
    }
    loop
        invariant
            1 <= pos <= n,
            n == s@.len(),
            s@.len() > 0 && s@[0] == '[',
            match parse_deck_items(s@.skip(pos as int)) {
                Some(p) => parse_deck_items(s@.skip(1)) == Some(
                    (out@.map_values(|c: Card| c@) + p.0, p.1),
                ),
                None => parse_deck_items(s@.skip(1)) is None,
            },
        decreases n - pos,
    {
        if pos >= n {
            return None;
        }
        let c = s.get_char(pos);
        proof {
            assert(s@.skip(pos as int)[0] == s@[pos as int]);
            assert(s@.skip(pos as int).drop_first() =~= s@.skip(pos + 1));
        }
        if c == ']' {
            if pos + 1 == n {
                proof {
                    let m = out@.map_values(|c2: Card| c2@);
                    assert(m + Seq::<CardView>::empty() =~= m);
                    assert(s@.drop_first() =~= s@.skip(1));
                    assert(s@.skip(pos + 1).len() == 0);
                }
                return Some(out);
            } else {
                proof {
                    let m = out@.map_values(|c2: Card| c2@);
                    assert(m + Seq::<CardView>::empty() =~= m);
                    assert(s@.drop_first() =~= s@.skip(1));
                }
                return None;
            }
        }
        match parse_card_exec(s, pos) {
            None => {
                proof {
                    assert(s@.drop_first() =~= s@.skip(1));
                }
                return None;
            },
            Some((card, j)) => {
                if j >= n {
                    proof {
                        assert(s@.drop_first() =~= s@.skip(1));
                        assert(s@.skip(j as int).len() == 0);
                    }
                    return None;
                }
                let c2 = s.get_char(j);
                proof {
                    assert(s@.skip(j as int)[0] == s@[j as int]);
                    assert(s@.skip(j as int).drop_first() =~= s@.skip(j + 1));
                }
                if c2 == ',' {
                    proof {
                        let m = out@.map_values(|c3: Card| c3@);
                        assert(out@.push(card).map_values(|c3: Card| c3@) =~= m.push(card@));
                        if parse_deck_items(s@.skip(j + 1)) is Some {
                            let p = parse_deck_items(s@.skip(j + 1))->Some_0;
                            assert(m + (seq![card@] + p.0) =~= m.push(card@) + p.0);
                        }
                    }
                    out.push(card);
                    pos = j + 1;
                } else if c2 == ']' {
                    proof {
                        let m = out@.map_values(|c3: Card| c3@);
                        assert(out@.push(card).map_values(|c3: Card| c3@) =~= m.push(card@));
                        assert(m + seq![card@] =~= m.push(card@));
                        assert(s@.drop_first() =~= s@.skip(1));
                    }
                    out.push(card);
                    if j + 1 == n {
                        proof {
                            assert(s@.skip(j + 1).len() == 0);
                        }
                        return Some(out);
                    } else {
                        return None;
                    }
                } else {
                    proof {
                        assert(s@.drop_first() =~= s@.skip(1));
                    }
                    return None;
                }
            },
        }
    }
}

} // verus!
