use crate::bits::{
    byte_align, into_bytes, new_sink, pad_bits, sink_bits, write_bit, write_bytes, BitSink,
    byte_bits, bytes_bits, bits_u8, lemma_bits_u8, lemma_bytes_bits_concat, lemma_bytes_bits_one, new_source, read_bit, read_bytes, source_bits,
    BitSource,
};
use crate::error::invalid_data;
use crate::grammar::{
    acyclic, canonical_rules, is_nt, lemma_canonical_rules, refs_ordered, target, Grammar,
    MAX_RULES, RULE_OFFSET,
};
use vstd::prelude::*;

verus! {

/// The 32-bit integer whose big-endian bytes are `b0`, `b1`, `b2`, `b3`.
pub open spec fn join4(b0: u8, b1: u8, b2: u8, b3: u8) -> u32 {
    ((b0 as u32) << 24u32) | ((b1 as u32) << 16u32) | ((b2 as u32) << 8u32) | (b3 as u32)
}

/// The 32-bit integer held big-endian in the first 32 bits of `b`.
pub open spec fn u32_at(b: Seq<bool>) -> u32 {
    join4(
        bits_u8(b.subrange(0, 8)),
        bits_u8(b.subrange(8, 16)),
        bits_u8(b.subrange(16, 24)),
        bits_u8(b.subrange(24, 32)),
    )
}

/// One symbol: a flag bit, then a byte for a terminal or a 32-bit rule index for a
/// nonterminal. Returns the symbol and the bits after it.
pub open spec fn parse_symbol(b: Seq<bool>) -> Option<(usize, Seq<bool>)> {
    if b.len() == 0 {
        None
    } else if b[0] {
        if b.len() >= 33 && u32_at(b.drop_first()) + 256 <= usize::MAX {
            Some(((u32_at(b.drop_first()) + 256) as usize, b.skip(33)))
        } else {
            None
        }
    } else if b.len() >= 9 {
        Some((bits_u8(b.subrange(1, 9)) as usize, b.skip(9)))
    } else {
        None
    }
}

/// The first `n` symbols of `b`, and the bits after them.
pub open spec fn parse_symbols(b: Seq<bool>, n: nat) -> Option<(Seq<usize>, Seq<bool>)>
    decreases n,
{
    if n == 0 {
        Some((Seq::empty(), b))
    } else {
        match parse_symbols(b, (n - 1) as nat) {
            Some((s, rest)) => match parse_symbol(rest) {
                Some((x, rest2)) => Some((s.push(x), rest2)),
                None => None,
            },
            None => None,
        }
    }
}

/// The first `n` rules of `b`: each a 32-bit length above `min`, then that many symbols.
pub open spec fn parse_rules(b: Seq<bool>, n: nat, min: nat) -> Option<(Seq<Seq<usize>>, Seq<bool>)>
    decreases n,
{
    if n == 0 {
        Some((Seq::empty(), b))
    } else {
        match parse_rules(b, (n - 1) as nat, min) {
            Some((rs, rest)) => if rest.len() >= 32 {
                match parse_symbols(rest.skip(32), (u32_at(rest) + min) as nat) {
                    Some((body, rest2)) => Some((rs.push(body), rest2)),
                    None => None,
                }
            } else {
                None
            },
            None => None,
        }
    }
}

/// The rules that a stream holds: a header of rule count, minimum and maximum rule length,
/// then the rules. Bits after the last rule are ignored.
pub open spec fn parse_grammar(b: Seq<bool>) -> Option<Seq<Seq<usize>>> {
    if b.len() >= 96 {
        match parse_rules(b.skip(96), u32_at(b) as nat, u32_at(b.skip(32)) as nat) {
            Some((rs, _)) => Some(rs),
            None => None,
        }
    } else {
        None
    }
}

proof fn lemma_symbols_fail(b: Seq<bool>, k: nat, n: nat)
    requires
        k <= n,
        parse_symbols(b, k) is None,
    ensures
        parse_symbols(b, n) is None,
    decreases n - k,
{
    if k < n {
        lemma_symbols_fail(b, k, (n - 1) as nat);
    }
}

proof fn lemma_rules_fail(b: Seq<bool>, k: nat, n: nat, min: nat)
    requires
        k <= n,
        parse_rules(b, k, min) is None,
    ensures
        parse_rules(b, n, min) is None,
    decreases n - k,
{
    if k < n {
        lemma_rules_fail(b, k, (n - 1) as nat, min);
    }
}

/// The four bytes of `x`, most significant first.
pub open spec fn be4(x: u32) -> Seq<u8> {
    seq![(x >> 24u32) as u8, (x >> 16u32) as u8, (x >> 8u32) as u8, x as u8]
}

pub open spec fn u32_bits(x: u32) -> Seq<bool> {
    bytes_bits(be4(x))
}

/// A terminal is a 0 bit and its byte; a nonterminal is a 1 bit and its 32-bit rule index.
pub open spec fn symbol_bits(s: usize) -> Seq<bool> {
    if is_nt(s) {
        seq![true] + u32_bits((s - 256) as u32)
    } else {
        seq![false] + bytes_bits(seq![s as u8])
    }
}

pub open spec fn symbols_bits(body: Seq<usize>) -> Seq<bool>
    decreases body.len(),
{
    if body.len() == 0 {
        Seq::empty()
    } else {
        symbols_bits(body.drop_last()) + symbol_bits(body.last())
    }
}

/// Each rule as its length above `min`, then its symbols.
pub open spec fn rules_bits(rules: Seq<Seq<usize>>, min: u32) -> Seq<bool>
    decreases rules.len(),
{
    if rules.len() == 0 {
        Seq::empty()
    } else {
        rules_bits(rules.drop_last(), min) + u32_bits((rules.last().len() as u32 - min) as u32)
            + symbols_bits(rules.last())
    }
}

/// The shortest rule length (`u32::MAX` for no rules).
pub open spec fn min_len(rules: Seq<Seq<usize>>) -> u32
    decreases rules.len(),
{
    if rules.len() == 0 {
        u32::MAX
    } else {
        let m = min_len(rules.drop_last());
        if (rules.last().len() as u32) < m { rules.last().len() as u32 } else { m }
    }
}

/// The longest rule length (0 for no rules).
pub open spec fn max_len(rules: Seq<Seq<usize>>) -> u32
    decreases rules.len(),
{
    if rules.len() == 0 {
        0
    } else {
        let m = max_len(rules.drop_last());
        if (rules.last().len() as u32) > m { rules.last().len() as u32 } else { m }
    }
}

/// The header and the rules, before padding.
pub open spec fn stream_bits(rules: Seq<Seq<usize>>) -> Seq<bool> {
    u32_bits(rules.len() as u32) + u32_bits(min_len(rules)) + u32_bits(max_len(rules)) + rules_bits(
        rules,
        min_len(rules),
    )
}

/// The full encoding of rules already in canonical form, padded to a byte boundary.
pub open spec fn encoded_bits(rules: Seq<Seq<usize>>) -> Seq<bool> {
    stream_bits(rules) + pad_bits(stream_bits(rules).len())
}

/// The rules of the canonical form of a grammar.
pub open spec fn canonical_of(rules: Seq<Seq<usize>>, start: int) -> Seq<Seq<usize>> {
    if rules.len() == 0 {
        rules
    } else {
        canonical_rules(rules, start)
    }
}

proof fn lemma_min_len(rules: Seq<Seq<usize>>, i: int)
    requires
        0 <= i < rules.len(),
    ensures
        min_len(rules) <= rules[i].len() as u32,
    decreases rules.len(),
{
    if i < rules.len() - 1 {
        lemma_min_len(rules.drop_last(), i);
    }
}

fn write_u32(w: &mut BitSink, x: u32) -> (r: Result<(), std::io::Error>)
    ensures
        r is Ok,
        sink_bits(*final(w)) == sink_bits(*old(w)) + u32_bits(x),
{
    let v: Vec<u8> = vec![(x >> 24u32) as u8, (x >> 16u32) as u8, (x >> 8u32) as u8, x as u8];
    assert(v@ == be4(x));
    write_bytes(w, v.as_slice())
}

fn write_symbol(w: &mut BitSink, s: usize) -> (r: Result<(), std::io::Error>)
    ensures
        r is Ok,
        sink_bits(*final(w)) == sink_bits(*old(w)) + symbol_bits(s),
{
    let ghost b = sink_bits(*w);
    if s < RULE_OFFSET {
        write_bit(w, false)?;
        let v: Vec<u8> = vec![s as u8];
        assert(v@ =~= seq![s as u8]);
        write_bytes(w, v.as_slice())?;
        assert(sink_bits(*w) =~= b + symbol_bits(s));
    } else {
        write_bit(w, true)?;
        write_u32(w, (s - RULE_OFFSET) as u32)?;
        assert(sink_bits(*w) =~= b + symbol_bits(s));
    }
    Ok(())
}

proof fn lemma_join4(x: u32)
    ensures
        join4((x >> 24u32) as u8, (x >> 16u32) as u8, (x >> 8u32) as u8, x as u8) == x,
{
    assert(((((x >> 24u32) as u8) as u32) << 24u32) | ((((x >> 16u32) as u8) as u32) << 16u32)
        | ((((x >> 8u32) as u8) as u32) << 8u32) | ((x as u8) as u32) == x) by (bit_vector);
}

proof fn lemma_u32_bits(x: u32, rest: Seq<bool>)
    ensures
        u32_bits(x).len() == 32,
        u32_at(u32_bits(x) + rest) == x,
        (u32_bits(x) + rest).skip(32) == rest,
{
    let s = be4(x);
    assert(s =~= seq![s[0]] + seq![s[1]] + seq![s[2]] + seq![s[3]]);
    lemma_bytes_bits_concat(seq![s[0]] + seq![s[1]] + seq![s[2]], seq![s[3]]);
    lemma_bytes_bits_concat(seq![s[0]] + seq![s[1]], seq![s[2]]);
    lemma_bytes_bits_concat(seq![s[0]], seq![s[1]]);
    lemma_bytes_bits_one(s[0]);
    lemma_bytes_bits_one(s[1]);
    lemma_bytes_bits_one(s[2]);
    lemma_bytes_bits_one(s[3]);
    let (bits0, bits1, bits2, bits3) = (byte_bits(s[0]), byte_bits(s[1]), byte_bits(s[2]), byte_bits(s[3]));
    let b = u32_bits(x) + rest;
    assert(u32_bits(x) == bits0 + bits1 + bits2 + bits3);
    assert(b.subrange(0, 8) =~= bits0);
    assert(b.subrange(8, 16) =~= bits1);
    assert(b.subrange(16, 24) =~= bits2);
    assert(b.subrange(24, 32) =~= bits3);
    lemma_bits_u8(s[0]);
    lemma_bits_u8(s[1]);
    lemma_bits_u8(s[2]);
    lemma_bits_u8(s[3]);
    lemma_join4(x);
    assert(b.skip(32) =~= rest);
}

/// Symbols that the format can hold: rule indices fit in 32 bits.
pub open spec fn symbol_fits(s: usize) -> bool {
    is_nt(s) ==> s - 256 <= u32::MAX
}

proof fn lemma_parse_symbol(s: usize, rest: Seq<bool>)
    requires
        symbol_fits(s),
    ensures
        parse_symbol(symbol_bits(s) + rest) == Some((s, rest)),
{
    let b = symbol_bits(s) + rest;
    if is_nt(s) {
        let x = (s - 256) as u32;
        lemma_u32_bits(x, rest);
        assert(b.drop_first() =~= u32_bits(x) + rest);
        assert(b.skip(33) =~= rest);
    } else {
        lemma_bytes_bits_one(s as u8);
        lemma_bits_u8(s as u8);
        assert(b.subrange(1, 9) =~= byte_bits(s as u8));
        assert(b.skip(9) =~= rest);
    }
}

proof fn lemma_parse_symbols(body: Seq<usize>, rest: Seq<bool>)
    requires
        forall|k: int| 0 <= k < body.len() ==> symbol_fits(#[trigger] body[k]),
    ensures
        parse_symbols(symbols_bits(body) + rest, body.len()) == Some((body, rest)),
    decreases body.len(),
{
    if body.len() == 0 {
        assert(symbols_bits(body) + rest =~= rest);
    } else {
        let init = body.drop_last();
        let last = body.last();
        let tail = symbol_bits(last) + rest;
        lemma_parse_symbols(init, tail);
        assert(symbols_bits(body) + rest =~= symbols_bits(init) + tail);
        lemma_parse_symbol(last, rest);
        assert(init.push(last) =~= body);
    }
}

/// Rule sets that the format can hold: counts, lengths and indices fit in 32 bits.
pub open spec fn fits_format(rules: Seq<Seq<usize>>) -> bool {
    &&& rules.len() <= u32::MAX
    &&& forall|i: int| 0 <= i < rules.len() ==> (#[trigger] rules[i]).len() <= u32::MAX
    &&& forall|i: int, k: int|
        0 <= i < rules.len() && 0 <= k < rules[i].len() ==> symbol_fits(#[trigger] rules[i][k])
}

proof fn lemma_parse_rules(rules: Seq<Seq<usize>>, min: u32, rest: Seq<bool>)
    requires
        fits_format(rules),
        forall|i: int| 0 <= i < rules.len() ==> min <= (#[trigger] rules[i]).len(),
    ensures
        parse_rules(rules_bits(rules, min) + rest, rules.len(), min as nat) == Some((rules, rest)),
    decreases rules.len(),
{
    if rules.len() == 0 {
        assert(rules_bits(rules, min) + rest =~= rest);
        assert(rules =~= Seq::<Seq<usize>>::empty());
    } else {
        let init = rules.drop_last();
        let last = rules.last();
        let x = (last.len() as u32 - min) as u32;
        let tail = u32_bits(x) + symbols_bits(last) + rest;
        assert forall|i: int, k: int|
            0 <= i < init.len() && 0 <= k < init[i].len() implies symbol_fits(#[trigger] init[i][k]) by {
            assert(init[i] == rules[i]);
        }
        assert(fits_format(init));
        lemma_parse_rules(init, min, tail);
        assert(rules_bits(rules, min) + rest =~= rules_bits(init, min) + tail);
        lemma_u32_bits(x, symbols_bits(last) + rest);
        assert(tail =~= u32_bits(x) + (symbols_bits(last) + rest));
        assert(forall|k: int| 0 <= k < last.len() ==> symbol_fits(#[trigger] last[k])) by {
            assert(last == rules[rules.len() - 1]);
        }
        lemma_parse_symbols(last, rest);
        assert(x + min == last.len());
        assert(init.push(last) =~= rules);
    }
}

/// Parsing the encoding of a rule set gives the rule set back, wherever the format can hold
/// it.
pub proof fn lemma_parse_encoded(rules: Seq<Seq<usize>>)
    requires
        fits_format(rules),
    ensures
        parse_grammar(encoded_bits(rules)) == Some(rules),
{
    lemma_encoded_layout(rules);
}

/// Round trip: for an acyclic grammar whose rule count and rule lengths fit in 32 bits, the
/// rules that `decode` reads back from the bytes `encode` writes are exactly the rules of the
/// grammar's canonical form.
pub proof fn lemma_round_trip(g: Grammar)
    requires
        g.wf(),
        acyclic(g.rules_view()),
        g.rules_view().len() <= MAX_RULES,
        g.rules_view().len() <= u32::MAX,
        forall|i: int| 0 <= i < g.rules_view().len() ==> (#[trigger] g.rules_view()[i]).len() <= u32::MAX,
    ensures
        parse_grammar(encoded_bits(canonical_of(g.rules_view(), g.start() as int))) == Some(
            canonical_of(g.rules_view(), g.start() as int),
        ),
{
    let rules = g.rules_view();
    let c = canonical_of(rules, g.start() as int);
    if rules.len() > 0 {
        lemma_canonical_rules(rules, g.start() as int, u32::MAX as nat);
        assert(refs_ordered(c));
        assert forall|i: int, k: int|
            0 <= i < c.len() && 0 <= k < c[i].len() implies symbol_fits(#[trigger] c[i][k]) by {
            if is_nt(c[i][k]) {
                assert(target(c[i][k]) < i);
            }
        }
    }
    lemma_parse_encoded(c);
}

proof fn lemma_u32_at_prefix(b: Seq<bool>, e: Seq<bool>)
    requires
        b.len() >= 32,
    ensures
        u32_at(b + e) == u32_at(b),
{
    assert((b + e).subrange(0, 8) =~= b.subrange(0, 8));
    assert((b + e).subrange(8, 16) =~= b.subrange(8, 16));
    assert((b + e).subrange(16, 24) =~= b.subrange(16, 24));
    assert((b + e).subrange(24, 32) =~= b.subrange(24, 32));
}

proof fn lemma_symbol_prefix(b: Seq<bool>, e: Seq<bool>)
    requires
        parse_symbol(b) is Some,
    ensures
        parse_symbol(b + e) == Some((parse_symbol(b).unwrap().0, parse_symbol(b).unwrap().1 + e)),
{
    let be = b + e;
    if b[0] {
        assert(be.drop_first() =~= b.drop_first() + e);
        lemma_u32_at_prefix(b.drop_first(), e);
        assert(be.skip(33) =~= b.skip(33) + e);
    } else {
        assert(be.subrange(1, 9) =~= b.subrange(1, 9));
        assert(be.skip(9) =~= b.skip(9) + e);
    }
}

proof fn lemma_symbols_prefix(b: Seq<bool>, n: nat, e: Seq<bool>)
    requires
        parse_symbols(b, n) is Some,
    ensures
        parse_symbols(b + e, n) == Some((parse_symbols(b, n).unwrap().0, parse_symbols(b, n).unwrap().1 + e)),
    decreases n,
{
    if n == 0 {
    } else {
        lemma_symbols_prefix(b, (n - 1) as nat, e);
        let rest = parse_symbols(b, (n - 1) as nat).unwrap().1;
        lemma_symbol_prefix(rest, e);
    }
}

proof fn lemma_rules_prefix(b: Seq<bool>, n: nat, min: nat, e: Seq<bool>)
    requires
        parse_rules(b, n, min) is Some,
    ensures
        parse_rules(b + e, n, min) == Some((parse_rules(b, n, min).unwrap().0, parse_rules(b, n, min).unwrap().1 + e)),
    decreases n,
{
    if n == 0 {
    } else {
        lemma_rules_prefix(b, (n - 1) as nat, min, e);
        let rest = parse_rules(b, (n - 1) as nat, min).unwrap().1;
        lemma_u32_at_prefix(rest, e);
        assert((rest + e).skip(32) =~= rest.skip(32) + e);
        lemma_symbols_prefix(rest.skip(32), (u32_at(rest) + min) as nat, e);
    }
}

proof fn lemma_encoded_layout(rules: Seq<Seq<usize>>)
    requires
        fits_format(rules),
    ensures
        ({
            let enc = encoded_bits(rules);
            let pad = pad_bits(stream_bits(rules).len());
            &&& enc.len() == stream_bits(rules).len() + pad.len()
            &&& pad.len() < 8
            &&& enc.len() >= 96
            &&& u32_at(enc) as nat == rules.len()
            &&& u32_at(enc.skip(32)) == min_len(rules)
            &&& parse_rules(enc.skip(96), rules.len(), min_len(rules) as nat) == Some((rules, pad))
        }),
{
    let min = min_len(rules);
    let n = rules.len() as u32;
    let pad = pad_bits(stream_bits(rules).len());
    assert forall|i: int| 0 <= i < rules.len() implies min <= (#[trigger] rules[i]).len() by {
        lemma_min_len(rules, i);
    }
    lemma_parse_rules(rules, min, pad);
    let body = rules_bits(rules, min) + pad;
    let h3 = u32_bits(max_len(rules)) + body;
    let h2 = u32_bits(min) + h3;
    let b = u32_bits(n) + h2;
    lemma_u32_bits(max_len(rules), body);
    lemma_u32_bits(min, h3);
    lemma_u32_bits(n, h2);
    assert(encoded_bits(rules) =~= b);
    assert(b.skip(32) == h2);
    assert(h2.skip(32) == h3);
    assert(b.skip(96) =~= h3.skip(32));
}

/// Truncation: cutting the encoding of a rule set anywhere before the end of its last rule
/// leaves a stream that does not parse, so `decode` fails on it rather than returning a
/// shorter grammar.
#[verifier::rlimit(50)]
pub proof fn lemma_truncated_fails(rules: Seq<Seq<usize>>, p: int)
    requires
        fits_format(rules),
        0 <= p < stream_bits(rules).len(),
    ensures
        parse_grammar(encoded_bits(rules).take(p)) is None,
{
    let enc = encoded_bits(rules);
    let t = enc.take(p);
    let e = enc.skip(p);
    lemma_encoded_layout(rules);
    assert(t + e =~= enc);
    if t.len() >= 96 {
        let n = u32_at(t) as nat;
        let min = u32_at(t.skip(32)) as nat;
        lemma_u32_at_prefix(t, e);
        assert(t.skip(32) + e =~= enc.skip(32));
        lemma_u32_at_prefix(t.skip(32), e);
        let body = t.skip(96);
        assert(body + e =~= enc.skip(96));
        if parse_rules(body, n, min) is Some {
            lemma_rules_prefix(body, n, min, e);
            assert(e.len() == enc.len() - p);
        }
    }
}

fn read_u32(src: &mut BitSource) -> (r: Result<u32, std::io::Error>)
    ensures
        r is Ok <==> source_bits(*old(src)).len() >= 32,
        r matches Ok(x) ==> x == u32_at(source_bits(*old(src))) && source_bits(*final(src))
            == source_bits(*old(src)).skip(32),
{
    let ghost b = source_bits(*src);
    let v = read_bytes(src, 4)?;
    proof {
        let s = v@;
        assert(s =~= seq![s[0]] + seq![s[1]] + seq![s[2]] + seq![s[3]]);
        lemma_bytes_bits_concat(seq![s[0]] + seq![s[1]] + seq![s[2]], seq![s[3]]);
        lemma_bytes_bits_concat(seq![s[0]] + seq![s[1]], seq![s[2]]);
        lemma_bytes_bits_concat(seq![s[0]], seq![s[1]]);
        lemma_bytes_bits_one(s[0]);
        lemma_bytes_bits_one(s[1]);
        lemma_bytes_bits_one(s[2]);
        lemma_bytes_bits_one(s[3]);
        let t = b.take(32);
        let (bits0, bits1, bits2, bits3) = (byte_bits(s[0]), byte_bits(s[1]), byte_bits(s[2]), byte_bits(s[3]));
        assert(t == bits0 + bits1 + bits2 + bits3);
        assert(b.subrange(0, 8) =~= t.subrange(0, 8));
        assert(b.subrange(8, 16) =~= t.subrange(8, 16));
        assert(b.subrange(16, 24) =~= t.subrange(16, 24));
        assert(b.subrange(24, 32) =~= t.subrange(24, 32));
        assert((bits0 + bits1 + bits2 + bits3).subrange(0, 8) =~= bits0);
        assert((bits0 + bits1 + bits2 + bits3).subrange(8, 16) =~= bits1);
        assert((bits0 + bits1 + bits2 + bits3).subrange(16, 24) =~= bits2);
        assert((bits0 + bits1 + bits2 + bits3).subrange(24, 32) =~= bits3);
        lemma_bits_u8(s[0]);
        lemma_bits_u8(s[1]);
        lemma_bits_u8(s[2]);
        lemma_bits_u8(s[3]);
    }
    Ok(((v[0] as u32) << 24u32) | ((v[1] as u32) << 16u32) | ((v[2] as u32) << 8u32) | (v[3] as u32))
}

fn read_symbol(src: &mut BitSource) -> (r: Result<usize, std::io::Error>)
    ensures
        r is Ok <==> parse_symbol(source_bits(*old(src))) is Some,
        r matches Ok(x) ==> parse_symbol(source_bits(*old(src))) == Some(
            (x, source_bits(*final(src))),
        ),
{
    let ghost b = source_bits(*src);
    let is_nonterminal = read_bit(src)?;
    if is_nonterminal {
        let x = read_u32(src)?;
        assert(b.drop_first().skip(32) =~= b.skip(33));
        if x as usize > usize::MAX - RULE_OFFSET {
            return Err(invalid_data());
        }
        Ok(x as usize + RULE_OFFSET)
    } else {
        let v = read_bytes(src, 1)?;
        proof {
            assert(v@ =~= seq![v@[0]]);
            lemma_bytes_bits_one(v@[0]);
            lemma_bits_u8(v@[0]);
            assert(b.subrange(1, 9) =~= b.drop_first().take(8));
            assert(b.drop_first().skip(8) =~= b.skip(9));
        }
        Ok(v[0] as usize)
    }
}

proof fn lemma_rules_len(b: Seq<bool>, n: nat, min: nat)
    ensures
        parse_rules(b, n, min) matches Some((rs, _)) ==> rs.len() == n,
    decreases n,
{
    if n > 0 {
        lemma_rules_len(b, (n - 1) as nat, min);
    }
}

fn read_symbols(src: &mut BitSource, n: u64) -> (r: Result<Vec<usize>, std::io::Error>)
    ensures
        r is Ok <==> parse_symbols(source_bits(*old(src)), n as nat) is Some,
        r matches Ok(v) ==> parse_symbols(source_bits(*old(src)), n as nat) == Some(
            (v@, source_bits(*final(src))),
        ),
{
    let ghost b = source_bits(*src);
    let mut rule: Vec<usize> = Vec::new();
    let mut k: u64 = 0;
    while k < n
        invariant
            0 <= k <= n,
            b == source_bits(*old(src)),
            parse_symbols(b, k as nat) == Some((rule@, source_bits(*src))),
        decreases n - k,
    {
        match read_symbol(src) {
            Ok(sym) => {
                rule.push(sym);
            },
            Err(e) => {
                proof {
                    assert(parse_symbols(b, (k + 1) as nat) is None);
                    lemma_symbols_fail(b, (k + 1) as nat, n as nat);
                }
                return Err(e);
            },
        }
        k += 1;
    }
    Ok(rule)
}

/// One rule: its encoded length, then that many symbols.
fn read_rule(src: &mut BitSource, min_len: u32) -> (r: Result<Vec<usize>, std::io::Error>)
    ensures
        r is Ok <==> source_bits(*old(src)).len() >= 32 && parse_symbols(
            source_bits(*old(src)).skip(32),
            (u32_at(source_bits(*old(src))) + min_len) as nat,
        ) is Some,
        r matches Ok(v) ==> parse_symbols(
            source_bits(*old(src)).skip(32),
            (u32_at(source_bits(*old(src))) + min_len) as nat,
        ) == Some((v@, source_bits(*final(src)))),
{
    let size_enc = read_u32(src)?;
    let size: u64 = size_enc as u64 + min_len as u64;
    read_symbols(src, size)
}

/// Bit-packed binary form of grammars.
#[derive(Debug, Clone, Copy)]
pub struct GrammarTupleCoder;

impl GrammarTupleCoder {
    /// Encodes a grammar in canonical form: a header of rule count, minimum and maximum rule
    /// length, then each rule as its length above the minimum and its flagged symbols, padded
    /// with zero bits to a whole byte.
    pub fn encode(grammar: Grammar) -> (r: Result<Vec<u8>, std::io::Error>)
        requires
            grammar.wf(),
            acyclic(grammar.rules_view()),
            grammar.rules_view().len() <= MAX_RULES,
        ensures
            r is Ok,
            r matches Ok(bytes) ==> bytes_bits(bytes@) == encoded_bits(
                canonical_of(grammar.rules_view(), grammar.start() as int),
            ),
    {
        let mut g = grammar;
        g.renumber();
        let (rules, _) = g.consume();
        let ghost cr = rules@.map_values(|v: Vec<usize>| v@);
        assert(cr == canonical_of(grammar.rules_view(), grammar.start() as int));
        let n = rules.len();
        let mut min: u32 = u32::MAX;
        let mut max: u32 = 0;
        let mut i: usize = 0;
        while i < n
            invariant
                cr == rules@.map_values(|v: Vec<usize>| v@),
                n == cr.len(),
                0 <= i <= n,
                min == min_len(cr.take(i as int)),
                max == max_len(cr.take(i as int)),
            decreases n - i,
        {
            let len = rules[i].len() as u32;
            assert(cr.take(i + 1).drop_last() =~= cr.take(i as int));
            if len < min {
                min = len;
            }
            if len > max {
                max = len;
            }
            i += 1;
        }
        assert(cr.take(n as int) =~= cr);
        let mut w = new_sink();
        write_u32(&mut w, n as u32)?;
        write_u32(&mut w, min)?;
        write_u32(&mut w, max)?;
        let ghost header = u32_bits(n as u32) + u32_bits(min) + u32_bits(max);
        assert(sink_bits(w) =~= header + rules_bits(cr.take(0), min));
        let mut i: usize = 0;
        while i < n
            invariant
                cr == rules@.map_values(|v: Vec<usize>| v@),
                n == cr.len(),
                0 <= i <= n,
                min == min_len(cr),
                sink_bits(w) == header + rules_bits(cr.take(i as int), min),
            decreases n - i,
        {
            let rule = &rules[i];
            assert(rule@ == cr[i as int]);
            proof {
                lemma_min_len(cr, i as int);
            }
            write_u32(&mut w, rule.len() as u32 - min)?;
            let ghost mid = sink_bits(w);
            let mut k: usize = 0;
            while k < rule.len()
                invariant
                    0 <= k <= rule@.len(),
                    sink_bits(w) == mid + symbols_bits(rule@.take(k as int)),
                decreases rule@.len() - k,
            {
                assert(rule@.take(k + 1).drop_last() =~= rule@.take(k as int));
                write_symbol(&mut w, rule[k])?;
                assert(sink_bits(w) =~= mid + symbols_bits(rule@.take(k + 1)));
                k += 1;
            }
            assert(rule@.take(k as int) =~= rule@);
            assert(cr.take(i + 1).drop_last() =~= cr.take(i as int));
            assert(sink_bits(w) =~= header + rules_bits(cr.take(i + 1), min));
            i += 1;
        }
        assert(cr.take(n as int) =~= cr);
        let ghost sb = sink_bits(w);
        assert(sb == stream_bits(cr));
        byte_align(&mut w)?;
        assert(sink_bits(w).len() % 8 == 0);
        Ok(into_bytes(w))
    }

    /// Decodes a grammar from its binary form. The last rule becomes the start rule (rule 0 for
    /// an empty grammar). Fails on a stream that ends before the rules it announces.
    pub fn decode(input: Vec<u8>) -> (r: Result<Grammar, std::io::Error>)
        ensures
            r is Ok <==> parse_grammar(bytes_bits(input@)) is Some,
            r matches Ok(g) ==> parse_grammar(bytes_bits(input@)) == Some(g.rules_view()) && g.start()
                == (if g.rules_view().len() == 0 { 0 } else { g.rules_view().len() - 1 }),
    {
        let ghost b = bytes_bits(input@);
        let mut src = new_source(input);
        let rule_count = read_u32(&mut src)?;
        let min_len = read_u32(&mut src)?;
        let _max_len = read_u32(&mut src)?;
        assert(b.skip(32).skip(32).skip(32) =~= b.skip(96));
        let ghost body = b.skip(96);
        let ghost min = min_len as nat;
        let mut rules: Vec<Vec<usize>> = Vec::new();
        let mut i: u32 = 0;
        while i < rule_count
            invariant
                0 <= i <= rule_count,
                rule_count == u32_at(b),
                b == bytes_bits(input@),
                min_len == u32_at(b.skip(32)),
                min == min_len as nat,
                b.len() >= 96,
                body == b.skip(96),
                parse_rules(body, i as nat, min) == Some(
                    (rules@.map_values(|v: Vec<usize>| v@), source_bits(src)),
                ),
            decreases rule_count - i,
        {
            let ghost before = rules@.map_values(|v: Vec<usize>| v@);
            match read_rule(&mut src, min_len) {
                Ok(rule) => {
                    rules.push(rule);
                    assert(rules@.map_values(|v: Vec<usize>| v@) =~= before.push(rule@));
                },
                Err(e) => {
                    proof {
                        assert(parse_rules(body, (i + 1) as nat, min) is None);
                        lemma_rules_fail(body, (i + 1) as nat, rule_count as nat, min);
                    }
                    return Err(e);
                },
            }
            i += 1;
        }
        proof {
            lemma_rules_len(body, rule_count as nat, min);
        }
        let n = rules.len();
        let start = if n == 0 { 0 } else { n - 1 };
        Ok(Grammar::from_parts(rules, start))
    }
}

} // verus!
