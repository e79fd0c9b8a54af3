//! Only compressed data is accepted: what decompresses is a stream of blocks.

use vstd::arithmetic::div_mod::lemma_fundamental_div_mod_converse;
use vstd::arithmetic::power2::{lemma2_to64, pow2};
use vstd::prelude::*;
use crate::bit_laws::{
    bytes_bits, has_bits, law_aligned, lemma_bytes_stand, lemma_has_both, lemma_number_stands,
    lemma_word_stands, number_bits,
};
use crate::bits::{aligned, bits_at, lemma_bits_bound};
use crate::checksum_laws::{law_adler_in_closed_form, law_big_endian_digits};
use crate::huffman::decode;
use crate::huffman_laws::{
    is_full, law_decoded_symbol_is_spelled, law_usable_codes, symbol_bits,
};
use crate::inflate::{
    distance_base, distance_extra, length_base, length_extra, parse_block, parse_blocks, parse_codes,
    parse_lengths, parse_match, parse_stored, parse_symbols, repeated, stored_lengths,
};
use crate::inflate_laws::{
    are_codes, block_bits, block_fits, blocks_bits, blocks_fit, code_bits, codes_bits,
    codes_fit, distance_of, fixed_dist, fixed_lit, has_word, has_words, kind_of, length_order,
    length_word, lemma_code_bits_len, lemma_copied, lemma_fixed_codes, lemma_power_multiple,
    place_of, run_bits, run_fits, runs_bits, runs_fit, size_of_match, stored_bytes,
    symbol_of_distance, symbol_of_length, token_bits, tokens_bits, with_block, with_blocks, with_run,
    with_runs, with_token, with_tokens, writable, Block, Run, Token,
};
use crate::zlib::parse_zlib;
use crate::zlib_laws::{is_stream, law_accepted_stream};

verus! {

/// A quotient and a remainder, from their combination.
proof fn lemma_parts(w: int, q: int, v: int)
    requires
        0 < w,
        0 <= q,
        0 <= v < w,
    ensures
        (q * w + v) / w == q,
        (q * w + v) % w == v,
        q == 0 ==> q * w == 0,
        q == 1 ==> q * w == w,
        q == 2 ==> q * w == 2 * w,
        q == 3 ==> q * w == 3 * w,
{
    lemma_fundamental_div_mod_converse(q * w + v, w, q, v);
    assert(q == 0 ==> q * w == 0) by (nonlinear_arith);
    assert(q == 1 ==> q * w == w) by (nonlinear_arith);
    assert(q == 2 ==> q * w == 2 * w) by (nonlinear_arith);
    assert(q == 3 ==> q * w == 3 * w) by (nonlinear_arith);
}

/// The lengths that a length symbol stands for have that symbol, but for the last of
/// symbol 284.
proof fn lemma_length_back(s: nat, v: nat)
    requires
        s < 29,
        v < pow2(length_extra(s)),
    ensures
        3 <= length_base(s) + v <= 258,
        !(s == 27 && v == 31) ==> symbol_of_length(length_base(s) + v) == (
            s + 257,
            length_extra(s),
            v,
        ),
        s == 27 && v == 31 ==> length_base(s) + v == 258 && length_extra(s) == 5,
{
    lemma2_to64();
    if 8 <= s < 28 {
        let n = (s / 4 - 1) as nat;
        let q = s as int % 4;
        lemma_power_multiple(4 + q, pow2(n) as int);
        if n == 1 {
            lemma_parts(2, q, v as int);
        } else if n == 2 {
            lemma_parts(4, q, v as int);
        } else if n == 3 {
            lemma_parts(8, q, v as int);
        } else if n == 4 {
            lemma_parts(16, q, v as int);
        } else {
            lemma_parts(32, q, v as int);
        }
    }
}

/// Two or three times `w` and a rest, from which both come back.
proof fn lemma_upper_back(w: int, q: int, v: int)
    requires
        0 < w,
        q == 0 || q == 1,
        0 <= v < w,
    ensures
        ({
            let d = (2 + q) * w + v;
            &&& 2 * w <= d < 4 * w
            &&& (d - 2 * w) / w == q
            &&& d % w == v
        }),
{
    lemma_parts(w, q, v);
    assert((2 + q) * w == 2 * w + q * w) by (nonlinear_arith);
    lemma_fundamental_div_mod_converse((2 + q) * w + v, w, 2 + q, v);
}

/// The distances that a distance symbol stands for have that symbol.
proof fn lemma_distance_back(d: nat, v: nat)
    requires
        d < 30,
        v < pow2(distance_extra(d)),
    ensures
        1 <= distance_base(d) + v <= 32768,
        symbol_of_distance(distance_base(d) + v) == (d, distance_extra(d), v),
{
    let k = distance_extra(d);
    assert(pow2(k) == crate::inflate_laws::power_of(k)) by {
        lemma2_to64();
    }
    if d >= 4 {
        let q = d as int % 2;
        assert(k == d / 2 - 1);
        assert(d == 2 * k + 2 + q);
        lemma_upper_back(pow2(k) as int, q, v as int);
        if k == 1 {
            lemma_distance_branch(d, v, 2, 1);
        } else if k == 2 {
            lemma_distance_branch(d, v, 4, 2);
        } else if k == 3 {
            lemma_distance_branch(d, v, 8, 3);
        } else if k == 4 {
            lemma_distance_branch(d, v, 16, 4);
        } else if k == 5 {
            lemma_distance_branch(d, v, 32, 5);
        } else if k == 6 {
            lemma_distance_branch(d, v, 64, 6);
        } else if k == 7 {
            lemma_distance_branch(d, v, 128, 7);
        } else if k == 8 {
            lemma_distance_branch(d, v, 256, 8);
        } else if k == 9 {
            lemma_distance_branch(d, v, 512, 9);
        } else if k == 10 {
            lemma_distance_branch(d, v, 1024, 10);
        } else if k == 11 {
            lemma_distance_branch(d, v, 2048, 11);
        } else if k == 12 {
            lemma_distance_branch(d, v, 4096, 12);
        } else {
            lemma_distance_branch(d, v, 8192, 13);
        }
    }
}

/// Where the distances of a symbol lie.
proof fn lemma_distance_branch(d: nat, v: nat, w: int, k: int)
    requires
        1 <= k <= 13,
        d == 2 * k + 2 || d == 2 * k + 3,
        k == 1 ==> w == 2,
        k == 2 ==> w == 4,
        k == 3 ==> w == 8,
        k == 4 ==> w == 16,
        k == 5 ==> w == 32,
        k == 6 ==> w == 64,
        k == 7 ==> w == 128,
        k == 8 ==> w == 256,
        k == 9 ==> w == 512,
        k == 10 ==> w == 1024,
        k == 11 ==> w == 2048,
        k == 12 ==> w == 4096,
        k == 13 ==> w == 8192,
        0 <= v < w,
        pow2(k as nat) == w,
    ensures
        1 <= distance_base(d) + v <= 32768,
        symbol_of_distance(distance_base(d) + v) == (d, k as nat, v),
{
    let q = d as int % 2;
    lemma_upper_back(w, q, v as int);
    assert(distance_base(d) == 1 + (2 + d % 2) * pow2(k as nat));
    let x = (2 + q) * w + v;
    assert(distance_base(d) + v == x + 1);
}

/// A symbol that is decoded stands where it is decoded.
proof fn lemma_symbol_stands(lengths: Seq<u8>, data: Seq<u8>, p: int)
    requires
        lengths.len() <= 320,
        0 <= p,
    ensures
        decode(lengths, data, p) matches Ok((s, q)) ==> {
            &&& has_word(lengths, s as int)
            &&& has_bits(data, p, symbol_bits(lengths, s as int))
            &&& q == p + symbol_bits(lengths, s as int).len()
            &&& p < q <= 8 * data.len()
        },
{
    law_decoded_symbol_is_spelled(lengths, data, p);
    if let Ok((s, q)) = decode(lengths, data, p) {
        lemma_word_stands(data, p, lengths[s as int] as nat);
    }
}

/// A match that is read is one that stands where it is read.
proof fn lemma_match_back(lit: Seq<u8>, dist: Seq<u8>, data: Seq<u8>, p: int) -> (token: Token)
    requires
        are_codes(lit, dist),
        0 <= p,
        decode(lit, data, p) is Ok,
        decode(lit, data, p)->Ok_0.0 >= 257,
        ({
            let (symbol, p1) = decode(lit, data, p)->Ok_0;
            parse_match(dist, data, p1, (symbol - 257) as nat) is Ok
        }),
    ensures
        ({
            let (symbol, p1) = decode(lit, data, p)->Ok_0;
            &&& !(token is Literal)
            &&& has_words(lit, dist, token)
            &&& has_bits(data, p, token_bits(lit, dist, token))
            &&& parse_match(dist, data, p1, (symbol - 257) as nat)->Ok_0 == (
                size_of_match(token),
                distance_of(token),
                p + token_bits(lit, dist, token).len(),
            )
            &&& token_bits(lit, dist, token).len() > 0
        }),
{
    let (symbol, p1) = decode(lit, data, p)->Ok_0;
    let s = (symbol - 257) as nat;
    let n = length_extra(s);
    let v = bits_at(data, p1, n);
    lemma_symbol_stands(lit, data, p);
    lemma_number_stands(data, p1, n);
    lemma_bits_bound(data, p1, n);
    lemma_length_back(s, v);
    let p2 = p1 + n;
    let (d, p3) = decode(dist, data, p2)->Ok_0;
    let m = distance_extra(d as nat);
    let w = bits_at(data, p3, m);
    lemma_symbol_stands(dist, data, p2);
    lemma_number_stands(data, p3, m);
    lemma_bits_bound(data, p3, m);
    lemma_distance_back(d as nat, w);
    let distance = distance_base(d as nat) + w;
    let token = if s == 27 && v == 31 {
        Token::Longest { distance }
    } else {
        Token::Match { length: length_base(s) + v, distance }
    };
    assert(length_word(token) == (symbol as nat, n, v));
    let a = symbol_bits(lit, symbol as int);
    let b = number_bits(v, n);
    let c = symbol_bits(dist, d as int);
    let e = number_bits(w, m);
    lemma_has_both(data, p, a, b);
    lemma_has_both(data, p, a + b, c);
    lemma_has_both(data, p, a + b + c, e);
    token
}

/// The symbols of a block that is read are tokens that stand where they are read.
proof fn lemma_tokens_back(
    lit: Seq<u8>,
    dist: Seq<u8>,
    data: Seq<u8>,
    p: int,
    out: Seq<u8>,
) -> (tokens: Seq<Token>)
    requires
        are_codes(lit, dist),
        0 <= p,
        parse_symbols(lit, dist, data, p, out) is Ok,
    ensures
        ({
            let (q, more) = parse_symbols(lit, dist, data, p, out)->Ok_0;
            let bits = tokens_bits(lit, dist, tokens) + symbol_bits(lit, 256);
            &&& writable(lit, dist, tokens, out)
            &&& has_word(lit, 256)
            &&& has_bits(data, p, bits)
            &&& q == p + bits.len()
            &&& more == with_tokens(out, tokens)
        }),
    decreases 8 * data.len() - p,
{
    lemma_symbol_stands(lit, data, p);
    let (symbol, p1) = decode(lit, data, p)->Ok_0;
    let end = symbol_bits(lit, 256);
    if symbol == 256 {
        let none = Seq::<Token>::empty();
        assert(tokens_bits(lit, dist, none) + end =~= end);
        none
    } else {
        let token = if symbol < 256 {
            Token::Literal { byte: symbol as u8 }
        } else {
            lemma_match_back(lit, dist, data, p)
        };
        if symbol > 256 {
            lemma_copied(out, distance_of(token), size_of_match(token));
        }
        let first = token_bits(lit, dist, token);
        let next = with_token(out, token);
        let rest = lemma_tokens_back(lit, dist, data, p + first.len(), next);
        let tokens = seq![token] + rest;
        assert(tokens.drop_first() =~= rest);
        assert(tokens[0] == token);
        lemma_has_both(data, p, first, tokens_bits(lit, dist, rest) + end);
        assert(tokens_bits(lit, dist, tokens) + end =~= first + (tokens_bits(lit, dist, rest)
            + end));
        tokens
    }
}

/// One run of code lengths that is read.
proof fn lemma_run_back(code: Seq<u8>, data: Seq<u8>, p: int, lengths: Seq<u8>) -> (run: Run)
    requires
        code.len() == 19,
        0 <= p,
        decode(code, data, p) is Ok,
        ({
            let (symbol, p1) = decode(code, data, p)->Ok_0;
            let (value, extra, least) = crate::inflate::repetition(symbol, lengths);
            &&& !(symbol == 16 && lengths.len() == 0)
            &&& p1 + extra <= 8 * data.len()
        }),
    ensures
        ({
            let (symbol, p1) = decode(code, data, p)->Ok_0;
            let (value, extra, least) = crate::inflate::repetition(symbol, lengths);
            let n = least + bits_at(data, p1, extra);
            &&& run_fits(code, run, lengths)
            &&& has_bits(data, p, run_bits(code, run))
            &&& p1 + extra == p + run_bits(code, run).len()
            &&& p < p1
            &&& with_run(lengths, run) == repeated(lengths, value, n)
            &&& n >= 1
        }),
{
    lemma2_to64();
    lemma_symbol_stands(code, data, p);
    let (symbol, p1) = decode(code, data, p)->Ok_0;
    let (value, extra, least) = crate::inflate::repetition(symbol, lengths);
    let v = bits_at(data, p1, extra);
    lemma_number_stands(data, p1, extra);
    lemma_bits_bound(data, p1, extra);
    let run = if symbol < 16 {
        Run::Length { value: symbol as u8 }
    } else if symbol == 16 {
        Run::Previous { times: 3 + v }
    } else if symbol == 17 {
        Run::Zeros { times: 3 + v }
    } else {
        Run::Zeros { times: 11 + v }
    };
    if symbol < 16 {
        assert(v == 0);
    } else {
        lemma_has_both(data, p, symbol_bits(code, symbol as int), number_bits(v, extra));
    }
    assert(with_run(lengths, run) =~= repeated(lengths, value, least + v));
    run
}

/// The code lengths that are read are runs that stand where they are read.
proof fn lemma_runs_back(
    code: Seq<u8>,
    data: Seq<u8>,
    p: int,
    total: nat,
    lengths: Seq<u8>,
) -> (runs: Seq<Run>)
    requires
        code.len() == 19,
        0 <= p <= 8 * data.len(),
        lengths.len() <= total,
        forall|i: int| 0 <= i < lengths.len() ==> #[trigger] lengths[i] <= 15,
        parse_lengths(code, data, p, total, lengths) is Ok,
    ensures
        ({
            let (q, all) = parse_lengths(code, data, p, total, lengths)->Ok_0;
            &&& runs_fit(code, runs, lengths)
            &&& has_bits(data, p, runs_bits(code, runs))
            &&& q == p + runs_bits(code, runs).len()
            &&& all == with_runs(lengths, runs)
            &&& all.len() == total
            &&& forall|i: int| 0 <= i < all.len() ==> #[trigger] all[i] <= 15
        }),
    decreases 8 * data.len() - p,
{
    if lengths.len() >= total {
        Seq::empty()
    } else {
        let run = lemma_run_back(code, data, p, lengths);
        let first = run_bits(code, run);
        let more = with_run(lengths, run);
        let rest = lemma_runs_back(code, data, p + first.len(), total, more);
        let runs = seq![run] + rest;
        assert(runs.drop_first() =~= rest);
        assert(runs[0] == run);
        lemma_has_both(data, p, first, runs_bits(code, rest));
        runs
    }
}

proof fn lemma_stored_lengths_back(data: Seq<u8>, p: int, n: nat)
    requires
        n <= 19,
    ensures
        stored_lengths(data, p, n).len() == 19,
        forall|k: int|
            0 <= k < 19 ==> #[trigger] stored_lengths(data, p, n)[k] == (if place_of(k) < n {
                bits_at(data, p + 3 * place_of(k), 3)
            } else {
                0
            }),
    decreases n,
{
    lemma2_to64();
    if n > 0 {
        let m = (n - 1) as nat;
        lemma_stored_lengths_back(data, p, m);
        lemma_bits_bound(data, p + 3 * m, 3);
        let k = length_order()[n - 1];
        assert(crate::inflate::CODE_LENGTH_ORDER@[n - 1] == k);
        assert forall|j: int| 0 <= j < 19 implies (place_of(j) == m <==> j == k) by {
            assert(length_order()[place_of(j)] == j);
            assert(place_of(k) == m);
        }
    }
}

proof fn lemma_code_bits_stand(code: Seq<u8>, data: Seq<u8>, p: int, n: nat)
    requires
        n <= 19,
        0 <= p,
        p + 3 * n <= 8 * data.len(),
        forall|i: int|
            0 <= i < n ==> code[#[trigger] length_order()[i]] == bits_at(data, p + 3 * i, 3),
    ensures
        has_bits(data, p, code_bits(code, n)),
    decreases n,
{
    if n > 0 {
        let m = (n - 1) as nat;
        lemma_code_bits_stand(code, data, p, m);
        lemma_code_bits_len(code, m);
        lemma_number_stands(data, p + 3 * m, 3);
        let v = code[length_order()[n - 1]] as nat;
        assert(v == bits_at(data, p + 3 * m, 3));
        lemma_has_both(data, p, code_bits(code, m), number_bits(v, 3));
    }
}

/// The codes of a block that are read stand where they are read.
proof fn lemma_codes_back(data: Seq<u8>, p: int) -> (parts: (Seq<u8>, nat, Seq<Run>))
    requires
        0 <= p,
        parse_codes(data, p) is Ok,
    ensures
        ({
            let (lit, dist, q) = parse_codes(data, p)->Ok_0;
            let (code, stored, runs) = parts;
            let bits = codes_bits(lit, dist, code, stored, runs);
            &&& codes_fit(lit, dist, code, stored, runs)
            &&& has_bits(data, p, bits)
            &&& q == p + bits.len()
        }),
{
    lemma2_to64();
    let x = bits_at(data, p, 5);
    let y = bits_at(data, p + 5, 5);
    let z = bits_at(data, p + 10, 4);
    let stored = 4 + z;
    let total = 258 + x + y;
    let code = stored_lengths(data, p + 14, stored);
    lemma_bits_bound(data, p + 10, 4);
    lemma_number_stands(data, p, 5);
    lemma_number_stands(data, p + 5, 5);
    lemma_number_stands(data, p + 10, 4);
    lemma_stored_lengths_back(data, p + 14, stored);
    assert forall|i: int| 0 <= i < 19 implies place_of(#[trigger] length_order()[i]) == i && 0
        <= length_order()[i] < 19 by {}
    assert forall|i: int| 0 <= i < 19 implies #[trigger] code[i] <= 7 by {
        lemma_bits_bound(data, p + 14 + 3 * place_of(i), 3);
    }
    lemma_code_bits_stand(code, data, p + 14, stored);
    lemma_code_bits_len(code, stored);
    let p1 = p + 14 + 3 * stored;
    let runs = lemma_runs_back(code, data, p1, total, Seq::empty());
    lemma_code_is_full(code, data, p1, total);
    let all = with_runs(Seq::empty(), runs);
    let (lit, dist, q) = parse_codes(data, p)->Ok_0;
    assert(lit + dist =~= all);
    assert(forall|i: int| 0 <= i < lit.len() ==> #[trigger] lit[i] == all[i]);
    assert(forall|i: int|
        0 <= i < dist.len() ==> #[trigger] dist[i] == all[lit.len() + i]);
    law_usable_codes(lit);
    law_usable_codes(dist);
    let a = number_bits(x, 5);
    let b = number_bits(y, 5);
    let c = number_bits(z, 4);
    let d = code_bits(code, stored);
    lemma_has_both(data, p, a, b);
    lemma_has_both(data, p, a + b, c);
    lemma_has_both(data, p, a + b + c, d);
    lemma_has_both(data, p, a + b + c + d, runs_bits(code, runs));
    (code, stored, runs)
}

/// A code by which something was read has code words.
proof fn lemma_code_is_full(code: Seq<u8>, data: Seq<u8>, p: int, total: nat)
    requires
        code.len() == 19,
        forall|i: int| 0 <= i < 19 ==> #[trigger] code[i] <= 7,
        crate::huffman::complete(code),
        0 <= p,
        total > 0,
        parse_lengths(code, data, p, total, Seq::empty()) is Ok,
    ensures
        is_full(code),
{
    assert(forall|i: int| 0 <= i < code.len() ==> #[trigger] code[i] <= 15);
    law_usable_codes(code);
    lemma_symbol_stands(code, data, p);
    let s = decode(code, data, p)->Ok_0.0 as int;
    assert(code[s] != 0);
}

/// A block without compression that is read stands where it is read.
proof fn lemma_stored_back(data: Seq<u8>, p: int, out: Seq<u8>) -> (block: Block)
    requires
        0 <= p,
        parse_stored(data, p, out) is Ok,
    ensures
        ({
            let (q, more) = parse_stored(data, p, out)->Ok_0;
            &&& block is Stored
            &&& block_fits(block, p, out)
            &&& has_bits(data, p, block_bits(block))
            &&& q == p + block_bits(block).len()
            &&& more == with_block(out, block)
        }),
{
    law_aligned(p);
    let i = aligned(p) / 8;
    let gap = (aligned(p) - p) as nat;
    let len = crate::inflate::le_u16(data, i);
    let padding = number_bits(bits_at(data, p, gap), gap);
    let bytes = data.subrange(i + 4, i + 4 + len);
    lemma_number_stands(data, p, gap);
    lemma_bytes_stand(data, i, i + 4 + len);
    let all = stored_bytes(bytes);
    assert(len % 256 == data[i] && len / 256 == data[i + 1]);
    assert(255 - len % 256 == data[i + 2] && 255 - len / 256 == data[i + 3]);
    assert(all =~= data.subrange(i, i + 4 + len));
    lemma_has_both(data, p, padding, bytes_bits(all));
    Block::Stored { padding, bytes }
}

/// A block that is read stands where it is read.
proof fn lemma_block_back(data: Seq<u8>, p: int, kind: nat, out: Seq<u8>) -> (block: Block)
    requires
        0 <= p,
        parse_block(data, p, kind, out) is Ok,
    ensures
        ({
            let (q, more) = parse_block(data, p, kind, out)->Ok_0;
            &&& kind == kind_of(block)
            &&& block_fits(block, p, out)
            &&& has_bits(data, p, block_bits(block))
            &&& q == p + block_bits(block).len()
            &&& more == with_block(out, block)
        }),
{
    if kind == 0 {
        lemma_stored_back(data, p, out)
    } else if kind == 1 {
        lemma_fixed_codes();
        let tokens = lemma_tokens_back(fixed_lit(), fixed_dist(), data, p, out);
        Block::Fixed { tokens }
    } else {
        let (lit, dist, p1) = parse_codes(data, p)->Ok_0;
        let (code, stored, runs) = lemma_codes_back(data, p);
        law_usable_codes(lit);
        law_usable_codes(dist);
        let tokens = lemma_tokens_back(lit, dist, data, p1, out);
        lemma_has_both(
            data,
            p,
            codes_bits(lit, dist, code, stored, runs),
            tokens_bits(lit, dist, tokens) + symbol_bits(lit, 256),
        );
        Block::Dynamic { lit, dist, code, stored, runs, tokens }
    }
}

/// The blocks that are read stand where they are read.
proof fn lemma_blocks_back(data: Seq<u8>, p: int, out: Seq<u8>) -> (blocks: Seq<Block>)
    requires
        0 <= p,
        parse_blocks(data, p, out) is Ok,
    ensures
        ({
            let (q, more) = parse_blocks(data, p, out)->Ok_0;
            &&& blocks.len() > 0
            &&& blocks_fit(blocks, p, out)
            &&& has_bits(data, p, blocks_bits(blocks))
            &&& q == p + blocks_bits(blocks).len()
            &&& more == with_blocks(out, blocks)
        }),
    decreases 8 * data.len() - p,
{
    let kind = bits_at(data, p + 1, 2);
    let last = bits_at(data, p, 1) == 1;
    let block = lemma_block_back(data, p + 3, kind, out);
    lemma_head_stands(data, p, block);
    let head = seq![last] + number_bits(kind, 2) + block_bits(block);
    let rest = if last {
        Seq::<Block>::empty()
    } else {
        lemma_blocks_back(data, p + head.len(), with_block(out, block))
    };
    lemma_one_block_more(block, rest, p, out);
    if last {
        assert(head + blocks_bits(rest) =~= head);
    } else {
        lemma_has_both(data, p, head, blocks_bits(rest));
    }
    seq![block] + rest
}

/// One block in front of others.
proof fn lemma_one_block_more(block: Block, rest: Seq<Block>, p: int, out: Seq<u8>)
    ensures
        ({
            let blocks = seq![block] + rest;
            let head = seq![rest.len() == 0] + number_bits(kind_of(block), 2) + block_bits(block);
            &&& blocks.len() > 0
            &&& blocks_bits(blocks) == head + blocks_bits(rest)
            &&& head.len() == 3 + block_bits(block).len()
            &&& blocks_fit(blocks, p, out) == (block_fits(block, p + 3, out) && blocks_fit(
                rest,
                p + 3 + block_bits(block).len(),
                with_block(out, block),
            ))
            &&& with_blocks(out, blocks) == with_blocks(with_block(out, block), rest)
        }),
{
    let blocks = seq![block] + rest;
    assert(blocks.drop_first() =~= rest);
    assert(blocks[0] == block);
}

/// The three bits in front of a block, and its own.
proof fn lemma_head_stands(data: Seq<u8>, p: int, block: Block)
    requires
        0 <= p,
        p + 3 <= 8 * data.len(),
        bits_at(data, p + 1, 2) == kind_of(block),
        has_bits(data, p + 3, block_bits(block)),
    ensures
        has_bits(
            data,
            p,
            seq![bits_at(data, p, 1) == 1] + number_bits(kind_of(block), 2) + block_bits(block),
        ),
{
    let v = bits_at(data, p, 1);
    let mark = seq![v == 1];
    let kind = number_bits(kind_of(block), 2);
    lemma2_to64();
    lemma_bits_bound(data, p, 1);
    lemma_number_stands(data, p, 1);
    lemma_number_stands(data, p + 1, 2);
    assert(mark =~= number_bits(v, 1)) by {
        assert(v / pow2(0) == v);
    }
    lemma_has_both(data, p, mark, kind);
    lemma_has_both(data, p, mark + kind, block_bits(block));
}

/// What is accepted is a compressed stream: blocks of literals, matches and bytes stand in
/// it, with their checksum behind them, and the data that comes out is the one that they
/// stand for.
pub proof fn law_only_streams_are_accepted(data: Seq<u8>)
    ensures
        parse_zlib(data) matches Ok((out, _)) ==> exists|blocks: Seq<Block>|
            #[trigger] is_stream(data, blocks) && out == with_blocks(Seq::empty(), blocks),
{
    if let Ok((out, checksum)) = parse_zlib(data) {
        law_accepted_stream(data);
        let blocks = lemma_blocks_back(data, 16, Seq::empty());
        let p = 16 + blocks_bits(blocks).len() as int;
        law_aligned(p);
        let i = aligned(p) / 8;
        law_adler_in_closed_form(out);
        law_big_endian_digits(data.skip(i), 0);
        assert(is_stream(data, blocks));
    }
}

} // verus!
