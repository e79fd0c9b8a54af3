//! What compressed data stands for: literals and matches, written with Huffman codes in
//! blocks, are read back.

use vstd::arithmetic::div_mod::{
    lemma_fundamental_div_mod_converse, lemma_mod_sub_multiples_vanish,
};
use vstd::arithmetic::power2::{lemma2_to64, pow2};
use vstd::prelude::*;
use crate::bit_laws::{
    bytes_bits, has_bits, law_aligned, law_number_is_read, lemma_has_parts, number_bits,
};
use crate::bits::{aligned, bits_at};
use crate::error::ZlibError;
use crate::huffman::{decode, usable};
use crate::huffman_laws::{
    has_room, is_full, is_single, law_symbol_is_decoded, law_usable_codes, symbol_bits, taken,
};
use crate::inflate::{
    copied, distance_base, distance_extra, fixed_distance_lengths, fixed_literal_lengths,
    length_base, length_extra, parse_block, parse_blocks, parse_codes, parse_lengths, parse_match,
    parse_stored, parse_symbols, stored_lengths,
};

verus! {

/// A piece of the data.
pub ghost enum Token {
    /// A byte.
    Literal { byte: u8 },
    /// Bytes that occurred before.
    Match { length: nat, distance: nat },
    /// 258 bytes that occurred before, written as the largest number behind the symbol of
    /// the lengths from 227 on.
    Longest { distance: nat },
}

/// The symbol of a match length from 3 to 258, the number of bits behind it, and their
/// value.
pub open spec fn symbol_of_length(length: nat) -> (nat, nat, nat) {
    if length <= 10 {
        ((254 + length) as nat, 0, 0)
    } else if length <= 18 {
        ((265 + (length - 11) / 2) as nat, 1, ((length - 11) % 2) as nat)
    } else if length <= 34 {
        ((269 + (length - 19) / 4) as nat, 2, ((length - 19) % 4) as nat)
    } else if length <= 66 {
        ((273 + (length - 35) / 8) as nat, 3, ((length - 35) % 8) as nat)
    } else if length <= 130 {
        ((277 + (length - 67) / 16) as nat, 4, ((length - 67) % 16) as nat)
    } else if length <= 257 {
        ((281 + (length - 131) / 32) as nat, 5, ((length - 131) % 32) as nat)
    } else {
        (285, 0, 0)
    }
}

/// The symbol of a distance from 1 to 32768, the number of bits behind it, and their
/// value.
pub open spec fn symbol_of_distance(distance: nat) -> (nat, nat, nat) {
    let d = distance - 1;
    if d < 4 {
        (d as nat, 0, 0)
    } else if d < 8 {
        ((4 + (d - 4) / 2) as nat, 1, (d % 2) as nat)
    } else if d < 16 {
        ((6 + (d - 8) / 4) as nat, 2, (d % 4) as nat)
    } else if d < 32 {
        ((8 + (d - 16) / 8) as nat, 3, (d % 8) as nat)
    } else if d < 64 {
        ((10 + (d - 32) / 16) as nat, 4, (d % 16) as nat)
    } else if d < 128 {
        ((12 + (d - 64) / 32) as nat, 5, (d % 32) as nat)
    } else if d < 256 {
        ((14 + (d - 128) / 64) as nat, 6, (d % 64) as nat)
    } else if d < 512 {
        ((16 + (d - 256) / 128) as nat, 7, (d % 128) as nat)
    } else if d < 1024 {
        ((18 + (d - 512) / 256) as nat, 8, (d % 256) as nat)
    } else if d < 2048 {
        ((20 + (d - 1024) / 512) as nat, 9, (d % 512) as nat)
    } else if d < 4096 {
        ((22 + (d - 2048) / 1024) as nat, 10, (d % 1024) as nat)
    } else if d < 8192 {
        ((24 + (d - 4096) / 2048) as nat, 11, (d % 2048) as nat)
    } else if d < 16384 {
        ((26 + (d - 8192) / 4096) as nat, 12, (d % 4096) as nat)
    } else {
        ((28 + (d - 16384) / 8192) as nat, 13, (d % 8192) as nat)
    }
}

/// Whether the code has a word for `symbol`.
pub open spec fn has_word(lengths: Seq<u8>, symbol: int) -> bool {
    0 <= symbol < lengths.len() && 1 <= lengths[symbol] <= 15
}

/// The symbol of a match's length, the number of bits behind it, and their value.
pub open spec fn length_word(token: Token) -> (nat, nat, nat) {
    match token {
        Token::Match { length, .. } => symbol_of_length(length),
        _ => (284, 5, 31),
    }
}

/// The bytes of a match.
pub open spec fn size_of_match(token: Token) -> nat {
    match token {
        Token::Match { length, .. } => length,
        _ => 258,
    }
}

/// How far a match reaches back.
pub open spec fn distance_of(token: Token) -> nat {
    match token {
        Token::Literal { .. } => 0,
        Token::Match { distance, .. } => distance,
        Token::Longest { distance } => distance,
    }
}

/// The bits of a token.
pub open spec fn token_bits(lit: Seq<u8>, dist: Seq<u8>, token: Token) -> Seq<bool> {
    match token {
        Token::Literal { byte } => symbol_bits(lit, byte as int),
        _ => {
            let (s, n, v) = length_word(token);
            let (d, m, w) = symbol_of_distance(distance_of(token));
            symbol_bits(lit, s as int) + number_bits(v, n) + symbol_bits(dist, d as int)
                + number_bits(w, m)
        },
    }
}

/// Whether the codes have words for a token.
pub open spec fn has_words(lit: Seq<u8>, dist: Seq<u8>, token: Token) -> bool {
    match token {
        Token::Literal { byte } => has_word(lit, byte as int),
        _ => {
            &&& 3 <= size_of_match(token) <= 258
            &&& 1 <= distance_of(token) <= 32768
            &&& has_word(lit, length_word(token).0 as int)
            &&& has_word(dist, symbol_of_distance(distance_of(token)).0 as int)
        },
    }
}

/// Whether a token can follow `sofar` bytes.
pub open spec fn can_follow(token: Token, sofar: nat) -> bool {
    distance_of(token) <= sofar
}

/// The data with a token's bytes behind it. A match that is longer than its distance
/// goes round the bytes that it starts with.
pub open spec fn with_token(out: Seq<u8>, token: Token) -> Seq<u8> {
    match token {
        Token::Literal { byte } => out.push(byte),
        _ => out + Seq::new(
            size_of_match(token),
            |i: int| out[out.len() - distance_of(token) + i % distance_of(token) as int],
        ),
    }
}

/// The bits of tokens.
pub open spec fn tokens_bits(lit: Seq<u8>, dist: Seq<u8>, tokens: Seq<Token>) -> Seq<bool>
    decreases tokens.len(),
{
    if tokens.len() == 0 {
        Seq::empty()
    } else {
        token_bits(lit, dist, tokens[0]) + tokens_bits(lit, dist, tokens.drop_first())
    }
}

/// The data with the bytes of tokens behind it.
pub open spec fn with_tokens(out: Seq<u8>, tokens: Seq<Token>) -> Seq<u8>
    decreases tokens.len(),
{
    if tokens.len() == 0 {
        out
    } else {
        with_tokens(with_token(out, tokens[0]), tokens.drop_first())
    }
}

/// Whether the tokens can be written behind `out` with the codes.
pub open spec fn writable(lit: Seq<u8>, dist: Seq<u8>, tokens: Seq<Token>, out: Seq<u8>) -> bool
    decreases tokens.len(),
{
    tokens.len() > 0 ==> {
        &&& has_words(lit, dist, tokens[0])
        &&& can_follow(tokens[0], out.len())
        &&& writable(lit, dist, tokens.drop_first(), with_token(out, tokens[0]))
    }
}

/// Whether these are the code lengths of a literal code and of a distance code.
pub open spec fn are_codes(lit: Seq<u8>, dist: Seq<u8>) -> bool {
    &&& lit.len() <= 288
    &&& dist.len() <= 32
    &&& has_room(lit)
    &&& has_room(dist)
}

/// Products with powers of two, in linear form.
pub proof fn lemma_power_multiple(x: int, n: int)
    ensures
        n == 1 ==> x * n == x,
        n == 2 ==> x * n == 2 * x,
        n == 4 ==> x * n == 4 * x,
        n == 8 ==> x * n == 8 * x,
        n == 16 ==> x * n == 16 * x,
        n == 32 ==> x * n == 32 * x,
        n == 64 ==> x * n == 64 * x,
        n == 128 ==> x * n == 128 * x,
        n == 256 ==> x * n == 256 * x,
        n == 512 ==> x * n == 512 * x,
        n == 1024 ==> x * n == 1024 * x,
        n == 2048 ==> x * n == 2048 * x,
        n == 4096 ==> x * n == 4096 * x,
        n == 8192 ==> x * n == 8192 * x,
{
}

/// Every match length from 3 to 258 has a symbol that is read as that length.
pub proof fn law_every_length_has_a_symbol(length: nat)
    requires
        3 <= length <= 258,
    ensures
        ({
            let (s, n, v) = symbol_of_length(length);
            &&& 257 <= s <= 285
            &&& n == length_extra((s - 257) as nat)
            &&& v < pow2(n)
            &&& length_base((s - 257) as nat) + v == length
        }),
{
    lemma2_to64();
    let (s, n, v) = symbol_of_length(length);
    let t = s - 257;
    if 10 < length < 258 {
        assert(t / 4 - 1 == n);
        lemma_power_multiple(4 + t % 4, pow2(n) as int);
    }
}

/// The powers of two that occur here.
pub open spec fn power_of(n: nat) -> nat {
    seq![1nat, 2, 4, 8, 16, 32, 64, 128, 256, 512, 1024, 2048, 4096, 8192][n as int]
}

/// A number from `2 * w` on and below `4 * w` is two or three times `w` and a rest.
proof fn lemma_upper_bits(d: int, w: int)
    requires
        0 < w,
        2 * w <= d < 4 * w,
    ensures
        (d - 2 * w) / w == 0 || (d - 2 * w) / w == 1,
        (d - 2 * w) / w == 0 ==> 2 * w + d % w == d,
        (d - 2 * w) / w == 1 ==> 3 * w + d % w == d,
        0 <= d % w < w,
{
    let q: int = if d < 3 * w {
        0
    } else {
        1
    };
    assert(q * w + (d - 2 * w - q * w) == d - 2 * w && (q + 2) * w == 2 * w + q * w && q * w == (
    if q == 0 {
        0
    } else {
        w
    })) by (nonlinear_arith)
        requires
            q == 0 || q == 1,
    ;
    lemma_fundamental_div_mod_converse(d - 2 * w, w, q, d - 2 * w - q * w);
    lemma_fundamental_div_mod_converse(d, w, q + 2, d - (q + 2) * w);
}

/// What the symbol of a distance and the bits behind it add up to.
proof fn lemma_distance_parts(d: int, w: int, k: int)
    requires
        0 < w,
        2 * w <= d < 4 * w,
        1 <= k <= 13,
    ensures
        ({
            let q = (d - 2 * w) / w;
            let s = 2 * k + 2 + q;
            &&& 0 <= q <= 1
            &&& s / 2 - 1 == k
            &&& s % 2 == q
            &&& 4 <= s < 30
            &&& 0 <= d % w < w
            &&& (2 + s % 2) * w + d % w == d
        }),
{
    lemma_upper_bits(d, w);
    let q = (d - 2 * w) / w;
    assert((2 + q) * w == (if q == 0 {
        2 * w
    } else {
        3 * w
    })) by (nonlinear_arith)
        requires
            q == 0 || q == 1,
    ;
}

/// Every distance from 1 to 32768 has a symbol that is read as that distance.
pub proof fn law_every_distance_has_a_symbol(distance: nat)
    requires
        1 <= distance <= 32768,
    ensures
        ({
            let (s, n, v) = symbol_of_distance(distance);
            &&& s < 30
            &&& n == distance_extra(s)
            &&& v < pow2(n)
            &&& distance_base(s) + v == distance
        }),
{
    let (s, n, v) = symbol_of_distance(distance);
    let d = distance - 1;
    assert(pow2(n) == power_of(n)) by {
        lemma2_to64();
    }
    if d < 4 {
    } else if d < 8 {
        lemma_distance_parts(d, 2, 1);
    } else if d < 16 {
        lemma_distance_parts(d, 4, 2);
    } else if d < 32 {
        lemma_distance_parts(d, 8, 3);
    } else if d < 64 {
        lemma_distance_parts(d, 16, 4);
    } else if d < 128 {
        lemma_distance_parts(d, 32, 5);
    } else if d < 256 {
        lemma_distance_parts(d, 64, 6);
    } else if d < 512 {
        lemma_distance_parts(d, 128, 7);
    } else if d < 1024 {
        lemma_distance_parts(d, 256, 8);
    } else if d < 2048 {
        lemma_distance_parts(d, 512, 9);
    } else if d < 4096 {
        lemma_distance_parts(d, 1024, 10);
    } else if d < 8192 {
        lemma_distance_parts(d, 2048, 11);
    } else if d < 16384 {
        lemma_distance_parts(d, 4096, 12);
    } else {
        lemma_distance_parts(d, 8192, 13);
    }
}

/// Copying byte by byte goes round the bytes that the match starts with.
pub proof fn lemma_copied(out: Seq<u8>, distance: nat, length: nat)
    requires
        1 <= distance <= out.len(),
    ensures
        copied(out, distance as int, length) == out + Seq::new(
            length,
            |i: int| out[out.len() - distance + i % distance as int],
        ),
    decreases length,
{
    let d = distance as int;
    let whole = out + Seq::new(length, |i: int| out[out.len() - d + i % d]);
    if length > 0 {
        let m = (length - 1) as nat;
        let before = copied(out, d, m);
        lemma_copied(out, distance, m);
        let source = out.len() + m - d;
        assert(before.len() == out.len() + m);
        if m < d {
            assert(m as int % d == m) by (nonlinear_arith)
                requires
                    0 <= m < d,
            ;
        } else {
            lemma_mod_sub_multiples_vanish(m as int, d);
            assert((m - d) % d == m as int % d) by (nonlinear_arith)
                requires
                    (-d + m) % d == m as int % d,
            ;
            assert(0 <= (m - d) % d < d) by (nonlinear_arith)
                requires
                    d > 0,
            ;
        }
        assert(before[source] == out[out.len() - d + m as int % d]);
        assert(copied(out, d, length) =~= whole);
    } else {
        assert(copied(out, d, length) =~= whole);
    }
}

/// A match is read where it stands.
proof fn lemma_match(lit: Seq<u8>, dist: Seq<u8>, data: Seq<u8>, p: int, token: Token)
    requires
        are_codes(lit, dist),
        !(token is Literal),
        has_words(lit, dist, token),
        has_bits(data, p, token_bits(lit, dist, token)),
    ensures
        ({
            let s = length_word(token).0;
            let p1 = p + lit[s as int];
            &&& 257 <= s <= 285
            &&& decode(lit, data, p) == Ok::<(u16, int), ZlibError>((s as u16, p1))
            &&& parse_match(dist, data, p1, (s - 257) as nat) == Ok::<(nat, nat, int), ZlibError>(
                (
                    size_of_match(token),
                    distance_of(token),
                    p + token_bits(lit, dist, token).len(),
                ),
            )
        }),
{
    let (s, n, v) = length_word(token);
    let (d, m, w) = symbol_of_distance(distance_of(token));
    let a = symbol_bits(lit, s as int);
    let b = number_bits(v, n);
    let c = symbol_bits(dist, d as int);
    let e = number_bits(w, m);
    lemma_length_word(token);
    law_every_distance_has_a_symbol(distance_of(token));
    lemma_has_parts(data, p, a + b + c, e);
    lemma_has_parts(data, p, a + b, c);
    lemma_has_parts(data, p, a, b);
    let p1 = p + lit[s as int];
    let p2 = p1 + n;
    let p3 = p2 + dist[d as int];
    law_symbol_is_decoded(lit, data, p, s as int);
    law_number_is_read(data, p1, v, n);
    law_symbol_is_decoded(dist, data, p2, d as int);
    law_number_is_read(data, p3, w, m);
}

proof fn lemma_length_word(token: Token)
    requires
        !(token is Literal),
        3 <= size_of_match(token) <= 258,
    ensures
        ({
            let (s, n, v) = length_word(token);
            &&& 257 <= s <= 285
            &&& n == length_extra((s - 257) as nat)
            &&& v < pow2(n)
            &&& length_base((s - 257) as nat) + v == size_of_match(token)
        }),
{
    match token {
        Token::Match { length, .. } => law_every_length_has_a_symbol(length),
        _ => {
            lemma2_to64();
            assert(27nat / 4 - 1 == 5 && 27nat % 4 == 3);
            assert(length_base(27) == 3 + (4 + 27nat % 4) * pow2(5));
            lemma_power_multiple(7, pow2(5) as int);
        },
    }
}

/// A token is read where it stands, and reading goes on behind it.
proof fn lemma_token(
    lit: Seq<u8>,
    dist: Seq<u8>,
    data: Seq<u8>,
    p: int,
    out: Seq<u8>,
    token: Token,
)
    requires
        are_codes(lit, dist),
        has_words(lit, dist, token),
        can_follow(token, out.len()),
        has_bits(data, p, token_bits(lit, dist, token)),
    ensures
        parse_symbols(lit, dist, data, p, out) == parse_symbols(
            lit,
            dist,
            data,
            p + token_bits(lit, dist, token).len(),
            with_token(out, token),
        ),
{
    match token {
        Token::Literal { byte } => {
            law_symbol_is_decoded(lit, data, p, byte as int);
        },
        _ => {
            lemma_match(lit, dist, data, p, token);
            lemma_copied(out, distance_of(token), size_of_match(token));
        },
    }
}

proof fn lemma_tokens(
    lit: Seq<u8>,
    dist: Seq<u8>,
    data: Seq<u8>,
    p: int,
    out: Seq<u8>,
    tokens: Seq<Token>,
)
    requires
        are_codes(lit, dist),
        writable(lit, dist, tokens, out),
        has_bits(data, p, tokens_bits(lit, dist, tokens)),
    ensures
        parse_symbols(lit, dist, data, p, out) == parse_symbols(
            lit,
            dist,
            data,
            p + tokens_bits(lit, dist, tokens).len(),
            with_tokens(out, tokens),
        ),
    decreases tokens.len(),
{
    if tokens.len() > 0 {
        let first = token_bits(lit, dist, tokens[0]);
        let rest = tokens.drop_first();
        lemma_has_parts(data, p, first, tokens_bits(lit, dist, rest));
        lemma_token(lit, dist, data, p, out, tokens[0]);
        lemma_tokens(lit, dist, data, p + first.len(), with_token(out, tokens[0]), rest);
    }
}

/// Literals and matches that are written with a literal code and a distance code, with
/// the word that ends the block behind them, are read back.
pub proof fn law_tokens_are_read(
    lit: Seq<u8>,
    dist: Seq<u8>,
    data: Seq<u8>,
    p: int,
    out: Seq<u8>,
    tokens: Seq<Token>,
)
    requires
        are_codes(lit, dist),
        writable(lit, dist, tokens, out),
        has_word(lit, 256),
        has_bits(data, p, tokens_bits(lit, dist, tokens) + symbol_bits(lit, 256)),
    ensures
        parse_symbols(lit, dist, data, p, out) == Ok::<(int, Seq<u8>), ZlibError>(
            (
                p + (tokens_bits(lit, dist, tokens) + symbol_bits(lit, 256)).len(),
                with_tokens(out, tokens),
            ),
        ),
{
    let bits = tokens_bits(lit, dist, tokens);
    lemma_has_parts(data, p, bits, symbol_bits(lit, 256));
    lemma_tokens(lit, dist, data, p, out, tokens);
    law_symbol_is_decoded(lit, data, p + bits.len(), 256);
}

/// A match that reaches back before the start of the data is turned down, whatever
/// stands before it and behind it.
pub proof fn law_match_before_the_start(
    lit: Seq<u8>,
    dist: Seq<u8>,
    data: Seq<u8>,
    p: int,
    out: Seq<u8>,
    tokens: Seq<Token>,
    token: Token,
)
    requires
        are_codes(lit, dist),
        writable(lit, dist, tokens, out),
        !(token is Literal),
        has_words(lit, dist, token),
        distance_of(token) > with_tokens(out, tokens).len(),
        has_bits(data, p, tokens_bits(lit, dist, tokens) + token_bits(lit, dist, token)),
    ensures
        parse_symbols(lit, dist, data, p, out) == Err::<(int, Seq<u8>), ZlibError>(
            ZlibError::InvalidDistance,
        ),
{
    let bits = tokens_bits(lit, dist, tokens);
    lemma_has_parts(data, p, bits, token_bits(lit, dist, token));
    lemma_tokens(lit, dist, data, p, out, tokens);
    lemma_match(lit, dist, data, p + bits.len(), token);
}

/// A piece of a list of code lengths.
pub ghost enum Run {
    Length { value: u8 },
    Previous { times: nat },
    Zeros { times: nat },
}

/// The bits of a run, written with the code `code`.
pub open spec fn run_bits(code: Seq<u8>, run: Run) -> Seq<bool> {
    match run {
        Run::Length { value } => symbol_bits(code, value as int),
        Run::Previous { times } => symbol_bits(code, 16) + number_bits((times - 3) as nat, 2),
        Run::Zeros { times } => if times <= 10 {
            symbol_bits(code, 17) + number_bits((times - 3) as nat, 3)
        } else {
            symbol_bits(code, 18) + number_bits((times - 11) as nat, 7)
        },
    }
}

/// Whether a run can be written behind `lengths`.
pub open spec fn run_fits(code: Seq<u8>, run: Run, lengths: Seq<u8>) -> bool {
    match run {
        Run::Length { value } => value <= 15 && has_word(code, value as int),
        Run::Previous { times } => 3 <= times <= 6 && has_word(code, 16) && lengths.len() > 0,
        Run::Zeros { times } => 3 <= times <= 138 && (if times <= 10 {
            has_word(code, 17)
        } else {
            has_word(code, 18)
        }),
    }
}

/// The code lengths with those of a run behind them.
pub open spec fn with_run(lengths: Seq<u8>, run: Run) -> Seq<u8> {
    match run {
        Run::Length { value } => lengths.push(value),
        Run::Previous { times } => lengths + Seq::new(times, |i: int| lengths.last()),
        Run::Zeros { times } => lengths + Seq::new(times, |i: int| 0u8),
    }
}

/// The bits of runs.
pub open spec fn runs_bits(code: Seq<u8>, runs: Seq<Run>) -> Seq<bool>
    decreases runs.len(),
{
    if runs.len() == 0 {
        Seq::empty()
    } else {
        run_bits(code, runs[0]) + runs_bits(code, runs.drop_first())
    }
}

/// The code lengths with those of runs behind them.
pub open spec fn with_runs(lengths: Seq<u8>, runs: Seq<Run>) -> Seq<u8>
    decreases runs.len(),
{
    if runs.len() == 0 {
        lengths
    } else {
        with_runs(with_run(lengths, runs[0]), runs.drop_first())
    }
}

/// Whether runs can be written behind `lengths`.
pub open spec fn runs_fit(code: Seq<u8>, runs: Seq<Run>, lengths: Seq<u8>) -> bool
    decreases runs.len(),
{
    runs.len() > 0 ==> {
        &&& run_fits(code, runs[0], lengths)
        &&& runs_fit(code, runs.drop_first(), with_run(lengths, runs[0]))
    }
}

proof fn lemma_runs_grow(code: Seq<u8>, runs: Seq<Run>, lengths: Seq<u8>)
    requires
        runs_fit(code, runs, lengths),
    ensures
        with_runs(lengths, runs).len() >= lengths.len() + runs.len(),
    decreases runs.len(),
{
    if runs.len() > 0 {
        lemma_runs_grow(code, runs.drop_first(), with_run(lengths, runs[0]));
    }
}

/// A run is read where it stands.
proof fn lemma_run(code: Seq<u8>, data: Seq<u8>, p: int, total: nat, lengths: Seq<u8>, run: Run)
    requires
        code.len() == 19,
        has_room(code),
        run_fits(code, run, lengths),
        has_bits(data, p, run_bits(code, run)),
        with_run(lengths, run).len() <= total,
    ensures
        parse_lengths(code, data, p, total, lengths) == parse_lengths(
            code,
            data,
            p + run_bits(code, run).len(),
            total,
            with_run(lengths, run),
        ),
{
    lemma2_to64();
    match run {
        Run::Length { value } => {
            law_symbol_is_decoded(code, data, p, value as int);
            let p1 = p + code[value as int];
            assert(bits_at(data, p1, 0) == 0);
            assert(crate::inflate::repeated(lengths, value, 1) =~= with_run(lengths, run));
        },
        Run::Previous { times } => {
            let v = (times - 3) as nat;
            lemma_has_parts(data, p, symbol_bits(code, 16), number_bits(v, 2));
            law_symbol_is_decoded(code, data, p, 16);
            law_number_is_read(data, p + code[16], v, 2);
            assert(crate::inflate::repeated(lengths, lengths.last(), times) =~= with_run(
                lengths,
                run,
            ));
        },
        Run::Zeros { times } => {
            if times <= 10 {
                let v = (times - 3) as nat;
                lemma_has_parts(data, p, symbol_bits(code, 17), number_bits(v, 3));
                law_symbol_is_decoded(code, data, p, 17);
                law_number_is_read(data, p + code[17], v, 3);
            } else {
                let v = (times - 11) as nat;
                lemma_has_parts(data, p, symbol_bits(code, 18), number_bits(v, 7));
                law_symbol_is_decoded(code, data, p, 18);
                law_number_is_read(data, p + code[18], v, 7);
            }
            assert(crate::inflate::repeated(lengths, 0, times) =~= with_run(lengths, run));
        },
    }
}

proof fn lemma_runs(
    code: Seq<u8>,
    data: Seq<u8>,
    p: int,
    total: nat,
    lengths: Seq<u8>,
    runs: Seq<Run>,
)
    requires
        code.len() == 19,
        has_room(code),
        runs_fit(code, runs, lengths),
        has_bits(data, p, runs_bits(code, runs)),
        with_runs(lengths, runs).len() == total,
    ensures
        parse_lengths(code, data, p, total, lengths) == Ok::<(int, Seq<u8>), ZlibError>(
            (p + runs_bits(code, runs).len(), with_runs(lengths, runs)),
        ),
    decreases runs.len(),
{
    if runs.len() > 0 {
        let first = run_bits(code, runs[0]);
        let rest = runs.drop_first();
        let more = with_run(lengths, runs[0]);
        lemma_has_parts(data, p, first, runs_bits(code, rest));
        lemma_runs_grow(code, rest, more);
        lemma_run(code, data, p, total, lengths, runs[0]);
        lemma_runs(code, data, p + first.len(), total, more, rest);
    }
}

/// The order in which the lengths of the code for code lengths stand.
pub open spec fn length_order() -> Seq<int> {
    seq![16, 17, 18, 0, 8, 7, 9, 6, 10, 5, 11, 4, 12, 3, 13, 2, 14, 1, 15]
}

/// Where a length of the code for code lengths stands.
pub open spec fn place_of(k: int) -> int {
    seq![3int, 17, 15, 13, 11, 9, 7, 5, 4, 6, 8, 10, 12, 14, 16, 18, 0, 1, 2][k]
}

/// The bits of the first `n` lengths of the code for code lengths.
pub open spec fn code_bits(code: Seq<u8>, n: nat) -> Seq<bool>
    decreases n,
{
    if n == 0 {
        Seq::empty()
    } else {
        code_bits(code, (n - 1) as nat) + number_bits(code[length_order()[n - 1]] as nat, 3)
    }
}

pub proof fn lemma_code_bits_len(code: Seq<u8>, n: nat)
    ensures
        code_bits(code, n).len() == 3 * n,
    decreases n,
{
    if n > 0 {
        lemma_code_bits_len(code, (n - 1) as nat);
    }
}

proof fn lemma_stored_lengths(code: Seq<u8>, data: Seq<u8>, p: int, n: nat)
    requires
        code.len() == 19,
        n <= 19,
        forall|i: int| 0 <= i < 19 ==> #[trigger] code[i] <= 7,
        has_bits(data, p, code_bits(code, n)),
    ensures
        stored_lengths(data, p, n).len() == 19,
        forall|k: int|
            0 <= k < 19 ==> #[trigger] stored_lengths(data, p, n)[k] == (if place_of(k) < n {
                code[k]
            } else {
                0
            }),
    decreases n,
{
    if n > 0 {
        let m = (n - 1) as nat;
        let v = code[length_order()[n - 1]];
        lemma_has_parts(data, p, code_bits(code, m), number_bits(v as nat, 3));
        lemma_code_bits_len(code, m);
        lemma_stored_lengths(code, data, p, m);
        lemma2_to64();
        law_number_is_read(data, p + 3 * m, v as nat, 3);
        let k = length_order()[n - 1];
        assert(crate::inflate::CODE_LENGTH_ORDER@[n - 1] == k);
        assert forall|j: int| 0 <= j < 19 implies (place_of(j) == m <==> j == k) by {
            assert(length_order()[place_of(j)] == j);
            assert(place_of(k) == m);
        }
    }
}

/// A block of compressed data.
pub ghost enum Block {
    /// Without compression: bits up to the next byte, and bytes.
    Stored { padding: Seq<bool>, bytes: Seq<u8> },
    /// With the fixed codes.
    Fixed { tokens: Seq<Token> },
    /// With codes of its own: their lengths, the code that these are written with, of
    /// which the first `stored` lengths are written, and the runs in which they are.
    Dynamic {
        lit: Seq<u8>,
        dist: Seq<u8>,
        code: Seq<u8>,
        stored: nat,
        runs: Seq<Run>,
        tokens: Seq<Token>,
    },
}

/// The code lengths of the fixed literal code.
pub open spec fn fixed_lit() -> Seq<u8> {
    Seq::new(144, |i: int| 8u8) + Seq::new(112, |i: int| 9u8) + Seq::new(24, |i: int| 7u8)
        + Seq::new(8, |i: int| 8u8)
}

/// The code lengths of the fixed distance code.
pub open spec fn fixed_dist() -> Seq<u8> {
    Seq::new(32, |i: int| 5u8)
}

/// The bytes of a block without compression: its length and the complement of it, the
/// less significant byte first, and its contents.
pub open spec fn stored_bytes(bytes: Seq<u8>) -> Seq<u8> {
    let n = bytes.len();
    seq![
        (n % 256) as u8,
        (n / 256) as u8,
        (255 - n % 256) as u8,
        (255 - n / 256) as u8,
    ] + bytes
}

/// The number that tells the types of blocks apart.
pub open spec fn kind_of(block: Block) -> nat {
    match block {
        Block::Stored { .. } => 0,
        Block::Fixed { .. } => 1,
        Block::Dynamic { .. } => 2,
    }
}

/// The bits that tell the codes of a block.
pub open spec fn codes_bits(
    lit: Seq<u8>,
    dist: Seq<u8>,
    code: Seq<u8>,
    stored: nat,
    runs: Seq<Run>,
) -> Seq<bool> {
    number_bits((lit.len() - 257) as nat, 5) + number_bits((dist.len() - 1) as nat, 5)
        + number_bits((stored - 4) as nat, 4) + code_bits(code, stored) + runs_bits(code, runs)
}

/// Whether these are codes that a block can have.
pub open spec fn codes_fit(
    lit: Seq<u8>,
    dist: Seq<u8>,
    code: Seq<u8>,
    stored: nat,
    runs: Seq<Run>,
) -> bool {
    &&& 257 <= lit.len() <= 286
    &&& 1 <= dist.len() <= 30
    &&& forall|i: int| 0 <= i < lit.len() ==> #[trigger] lit[i] <= 15
    &&& forall|i: int| 0 <= i < dist.len() ==> #[trigger] dist[i] <= 15
    &&& lit[256] > 0
    &&& is_full(lit) || is_single(lit)
    &&& is_full(dist) || is_single(dist)
    &&& code.len() == 19
    &&& forall|i: int| 0 <= i < 19 ==> #[trigger] code[i] <= 7
    &&& is_full(code)
    &&& 4 <= stored <= 19
    &&& forall|i: int| stored <= i < 19 ==> code[#[trigger] length_order()[i]] == 0
    &&& runs_fit(code, runs, Seq::empty())
    &&& with_runs(Seq::empty(), runs) == lit + dist
}

/// The bits of a block behind the three that it starts with.
pub open spec fn block_bits(block: Block) -> Seq<bool> {
    match block {
        Block::Stored { padding, bytes } => padding + bytes_bits(stored_bytes(bytes)),
        Block::Fixed { tokens } => tokens_bits(fixed_lit(), fixed_dist(), tokens) + symbol_bits(
            fixed_lit(),
            256,
        ),
        Block::Dynamic { lit, dist, code, stored, runs, tokens } => codes_bits(
            lit,
            dist,
            code,
            stored,
            runs,
        ) + (tokens_bits(lit, dist, tokens) + symbol_bits(lit, 256)),
    }
}

/// Whether a block can stand behind the data `out`, with its three first bits before
/// bit `p`.
pub open spec fn block_fits(block: Block, p: int, out: Seq<u8>) -> bool {
    match block {
        Block::Stored { padding, bytes } => {
            &&& padding.len() < 8
            &&& (p + padding.len()) % 8 == 0
            &&& bytes.len() <= 0xffff
        },
        Block::Fixed { tokens } => writable(fixed_lit(), fixed_dist(), tokens, out),
        Block::Dynamic { lit, dist, code, stored, runs, tokens } => {
            &&& codes_fit(lit, dist, code, stored, runs)
            &&& writable(lit, dist, tokens, out)
        },
    }
}

/// The data with that of a block behind it.
pub open spec fn with_block(out: Seq<u8>, block: Block) -> Seq<u8> {
    match block {
        Block::Stored { padding, bytes } => out + bytes,
        Block::Fixed { tokens } => with_tokens(out, tokens),
        Block::Dynamic { tokens, .. } => with_tokens(out, tokens),
    }
}

proof fn lemma_same_byte(x: u8, y: u8)
    requires
        forall|j: u8| j < 8 ==> ((#[trigger] (x >> j)) & 1 == 1) == ((y >> j) & 1 == 1),
    ensures
        x == y,
{
    assert(((x >> 0u8) & 1 == 1) == ((y >> 0u8) & 1 == 1));
    assert(((x >> 1u8) & 1 == 1) == ((y >> 1u8) & 1 == 1));
    assert(((x >> 2u8) & 1 == 1) == ((y >> 2u8) & 1 == 1));
    assert(((x >> 3u8) & 1 == 1) == ((y >> 3u8) & 1 == 1));
    assert(((x >> 4u8) & 1 == 1) == ((y >> 4u8) & 1 == 1));
    assert(((x >> 5u8) & 1 == 1) == ((y >> 5u8) & 1 == 1));
    assert(((x >> 6u8) & 1 == 1) == ((y >> 6u8) & 1 == 1));
    assert(((x >> 7u8) & 1 == 1) == ((y >> 7u8) & 1 == 1));
    assert(x == y) by (bit_vector)
        requires
            ((x >> 0u8) & 1 == 1) == ((y >> 0u8) & 1 == 1),
            ((x >> 1u8) & 1 == 1) == ((y >> 1u8) & 1 == 1),
            ((x >> 2u8) & 1 == 1) == ((y >> 2u8) & 1 == 1),
            ((x >> 3u8) & 1 == 1) == ((y >> 3u8) & 1 == 1),
            ((x >> 4u8) & 1 == 1) == ((y >> 4u8) & 1 == 1),
            ((x >> 5u8) & 1 == 1) == ((y >> 5u8) & 1 == 1),
            ((x >> 6u8) & 1 == 1) == ((y >> 6u8) & 1 == 1),
            ((x >> 7u8) & 1 == 1) == ((y >> 7u8) & 1 == 1),
    ;
}

/// Where the bits of bytes stand at the start of a byte, the bytes stand.
proof fn lemma_bytes(data: Seq<u8>, i: int, bytes: Seq<u8>)
    requires
        0 <= i,
        has_bits(data, 8 * i, bytes_bits(bytes)),
    ensures
        i + bytes.len() <= data.len(),
        data.subrange(i, i + bytes.len()) == bytes,
{
    let s = data.subrange(i, i + bytes.len());
    assert forall|k: int| 0 <= k < bytes.len() implies #[trigger] s[k] == bytes[k] by {
        let x = data[i + k];
        let y = bytes[k];
        assert forall|j: u8| j < 8 implies ((#[trigger] (x >> j)) & 1 == 1) == ((y >> j) & 1
            == 1) by {
            let m = 8 * k + j;
            assert(m / 8 == k && m % 8 == j);
            assert((8 * i + m) / 8 == i + k && (8 * i + m) % 8 == j);
            assert(bytes_bits(bytes)[m] == ((y >> j) & 1 == 1));
        }
        lemma_same_byte(x, y);
    }
    assert(s =~= bytes);
}

proof fn lemma_stored(data: Seq<u8>, p: int, padding: Seq<bool>, bytes: Seq<u8>, out: Seq<u8>)
    requires
        0 <= p,
        padding.len() < 8,
        (p + padding.len()) % 8 == 0,
        bytes.len() <= 0xffff,
        has_bits(data, p, padding + bytes_bits(stored_bytes(bytes))),
    ensures
        parse_stored(data, p, out) == Ok::<(int, Seq<u8>), ZlibError>(
            (p + (padding + bytes_bits(stored_bytes(bytes))).len(), out + bytes),
        ),
{
    let all = stored_bytes(bytes);
    lemma_has_parts(data, p, padding, bytes_bits(all));
    law_aligned(p);
    let i = aligned(p) / 8;
    assert(aligned(p) == p + padding.len());
    assert(8 * i == p + padding.len());
    lemma_bytes(data, i, all);
    let s = data.subrange(i, i + all.len());
    assert(data[i] == s[0] && data[i + 1] == s[1] && data[i + 2] == s[2] && data[i + 3] == s[3]);
    assert(data.subrange(i + 4, i + 4 + bytes.len()) =~= s.subrange(4, 4 + bytes.len() as int));
    assert(s.subrange(4, 4 + bytes.len() as int) =~= bytes);
}

proof fn lemma_fixed_taken(n: nat)
    requires
        n <= 288,
    ensures
        taken(fixed_lit(), n) == (if n <= 144 {
            128 * n as int
        } else if n <= 256 {
            18432 + 64 * (n - 144)
        } else if n <= 280 {
            25600 + 256 * (n - 256)
        } else {
            31744 + 128 * (n - 280)
        }),
    decreases n,
{
    lemma2_to64();
    if n > 0 {
        lemma_fixed_taken((n - 1) as nat);
        let l = fixed_lit()[n - 1];
        assert(l == (if n <= 144 {
            8u8
        } else if n <= 256 {
            9u8
        } else if n <= 280 {
            7u8
        } else {
            8u8
        }));
    }
}

proof fn lemma_fixed_dist_taken(n: nat)
    requires
        n <= 32,
    ensures
        taken(fixed_dist(), n) == 1024 * n,
    decreases n,
{
    lemma2_to64();
    if n > 0 {
        lemma_fixed_dist_taken((n - 1) as nat);
    }
}

/// The fixed codes are the ones that are read.
pub proof fn lemma_fixed_codes()
    ensures
        fixed_lit() == fixed_literal_lengths(),
        fixed_dist() == fixed_distance_lengths(),
        are_codes(fixed_lit(), fixed_dist()),
        has_word(fixed_lit(), 256),
{
    assert(fixed_lit() =~= fixed_literal_lengths());
    assert(fixed_dist() =~= fixed_distance_lengths());
    lemma_fixed_taken(288);
    lemma_fixed_dist_taken(32);
}

proof fn lemma_codes(
    data: Seq<u8>,
    p: int,
    lit: Seq<u8>,
    dist: Seq<u8>,
    code: Seq<u8>,
    stored: nat,
    runs: Seq<Run>,
)
    requires
        codes_fit(lit, dist, code, stored, runs),
        has_bits(data, p, codes_bits(lit, dist, code, stored, runs)),
    ensures
        parse_codes(data, p) == Ok::<(Seq<u8>, Seq<u8>, int), ZlibError>(
            (lit, dist, p + codes_bits(lit, dist, code, stored, runs).len()),
        ),
{
    lemma2_to64();
    let a = number_bits((lit.len() - 257) as nat, 5);
    let b = number_bits((dist.len() - 1) as nat, 5);
    let c = number_bits((stored - 4) as nat, 4);
    let d = code_bits(code, stored);
    let e = runs_bits(code, runs);
    lemma_has_parts(data, p, a + b + c + d, e);
    lemma_has_parts(data, p, a + b + c, d);
    lemma_has_parts(data, p, a + b, c);
    lemma_has_parts(data, p, a, b);
    lemma_code_bits_len(code, stored);
    law_number_is_read(data, p, (lit.len() - 257) as nat, 5);
    law_number_is_read(data, p + 5, (dist.len() - 1) as nat, 5);
    law_number_is_read(data, p + 10, (stored - 4) as nat, 4);
    lemma_stored_lengths(code, data, p + 14, stored);
    assert forall|k: int| 0 <= k < 19 implies stored_lengths(data, p + 14, stored)[k]
        == code[k] by {
        assert(length_order()[place_of(k)] == k);
        assert(0 <= place_of(k) < 19);
    }
    assert(stored_lengths(data, p + 14, stored) =~= code);
    assert(forall|i: int| 0 <= i < code.len() ==> #[trigger] code[i] <= 15);
    law_usable_codes(code);
    law_usable_codes(lit);
    law_usable_codes(dist);
    lemma_runs(code, data, p + 14 + 3 * stored, lit.len() + dist.len(), Seq::empty(), runs);
    assert((lit + dist).take(lit.len() as int) =~= lit);
    assert((lit + dist).skip(lit.len() as int) =~= dist);
}

/// A block is read where it stands.
proof fn lemma_block(data: Seq<u8>, p: int, block: Block, out: Seq<u8>)
    requires
        block_fits(block, p, out),
        has_bits(data, p, block_bits(block)),
    ensures
        parse_block(data, p, kind_of(block), out) == Ok::<(int, Seq<u8>), ZlibError>(
            (p + block_bits(block).len(), with_block(out, block)),
        ),
{
    match block {
        Block::Stored { padding, bytes } => {
            lemma_stored(data, p, padding, bytes, out);
        },
        Block::Fixed { tokens } => {
            lemma_fixed_codes();
            law_tokens_are_read(fixed_lit(), fixed_dist(), data, p, out, tokens);
        },
        Block::Dynamic { lit, dist, code, stored, runs, tokens } => {
            let head = codes_bits(lit, dist, code, stored, runs);
            let tail = tokens_bits(lit, dist, tokens) + symbol_bits(lit, 256);
            lemma_has_parts(data, p, head, tail);
            lemma_codes(data, p, lit, dist, code, stored, runs);
            law_usable_codes(lit);
            law_usable_codes(dist);
            assert(usable(lit) && usable(dist));
            law_tokens_are_read(lit, dist, data, p + head.len(), out, tokens);
        },
    }
}

/// The bits of blocks: each starts with a bit that marks the last one, and its type.
pub open spec fn blocks_bits(blocks: Seq<Block>) -> Seq<bool>
    decreases blocks.len(),
{
    if blocks.len() == 0 {
        Seq::empty()
    } else {
        seq![blocks.len() == 1] + number_bits(kind_of(blocks[0]), 2) + block_bits(blocks[0])
            + blocks_bits(blocks.drop_first())
    }
}

/// Whether blocks can stand from bit `p` on, behind the data `out`.
pub open spec fn blocks_fit(blocks: Seq<Block>, p: int, out: Seq<u8>) -> bool
    decreases blocks.len(),
{
    blocks.len() > 0 ==> {
        &&& block_fits(blocks[0], p + 3, out)
        &&& blocks_fit(
            blocks.drop_first(),
            p + 3 + block_bits(blocks[0]).len(),
            with_block(out, blocks[0]),
        )
    }
}

/// The data with that of blocks behind it.
pub open spec fn with_blocks(out: Seq<u8>, blocks: Seq<Block>) -> Seq<u8>
    decreases blocks.len(),
{
    if blocks.len() == 0 {
        out
    } else {
        with_blocks(with_block(out, blocks[0]), blocks.drop_first())
    }
}

/// Blocks of all types are read back, up to the last one and no further.
pub proof fn law_blocks_are_read(data: Seq<u8>, p: int, blocks: Seq<Block>, out: Seq<u8>)
    requires
        blocks.len() > 0,
        blocks_fit(blocks, p, out),
        has_bits(data, p, blocks_bits(blocks)),
    ensures
        parse_blocks(data, p, out) == Ok::<(int, Seq<u8>), ZlibError>(
            (p + blocks_bits(blocks).len(), with_blocks(out, blocks)),
        ),
    decreases blocks.len(),
{
    let last = blocks.len() == 1;
    let kind = kind_of(blocks[0]);
    let mark = seq![last] + number_bits(kind, 2);
    let body = block_bits(blocks[0]);
    let rest = blocks.drop_first();
    let tail = blocks_bits(rest);
    lemma_has_parts(data, p, mark + body, tail);
    lemma_has_parts(data, p, mark, body);
    lemma_mark_is_read(data, p, last, kind);
    lemma_block(data, p + 3, blocks[0], out);
    if blocks.len() > 1 {
        law_blocks_are_read(data, p + 3 + body.len(), rest, with_block(out, blocks[0]));
    } else {
        assert(tail.len() == 0);
    }
}

/// The three bits that a block starts with.
proof fn lemma_mark_is_read(data: Seq<u8>, p: int, last: bool, kind: nat)
    requires
        kind < 4,
        has_bits(data, p, seq![last] + number_bits(kind, 2)),
    ensures
        bits_at(data, p, 1) == 1 <==> last,
        bits_at(data, p + 1, 2) == kind,
        p + 3 <= 8 * data.len(),
{
    lemma2_to64();
    lemma_has_parts(data, p, seq![last], number_bits(kind, 2));
    let v: nat = if last {
        1
    } else {
        0
    };
    assert(seq![last] =~= number_bits(v, 1)) by {
        assert(v / pow2(0) == v);
    }
    law_number_is_read(data, p, v, 1);
    law_number_is_read(data, p + 1, kind, 2);
}

} // verus!
