use crate::error::{invalid_data, InputField, RReaderError};
use crate::grammar::{Grammar, RULE_OFFSET};
use vstd::prelude::*;

verus! {

/// The 32-bit little-endian integer at byte `p` of `b`.
pub open spec fn le_u32(b: Seq<u8>, p: int) -> u32 {
    (b[p] as u32) | ((b[p + 1] as u32) << 8u32) | ((b[p + 2] as u32) << 16u32) | ((b[p + 3] as u32)
        << 24u32)
}

/// Alphabet size of a rules buffer.
pub open spec fn alph_size(r: Seq<u8>) -> int {
    le_u32(r, 0) as int
}

/// Where the pairs of a rules buffer begin.
pub open spec fn pairs_start(r: Seq<u8>) -> int {
    4 + alph_size(r)
}

pub open spec fn pair_count(r: Seq<u8>) -> int {
    (r.len() - pairs_start(r)) / 8
}

/// The symbol that an index of the builder's output stands for: an alphabet byte below the
/// alphabet size, a rule reference above it.
pub open spec fn map_symbol(x: u32, alph: Seq<u8>) -> int {
    if x < alph.len() {
        alph[x as int] as int
    } else {
        x - alph.len() + 256
    }
}

pub open spec fn alphabet_of(r: Seq<u8>) -> Seq<u8> {
    r.subrange(4, pairs_start(r))
}

/// The indices of both buffers, in the order they are read.
pub open spec fn all_indices(r: Seq<u8>, c: Seq<u8>) -> Seq<u32> {
    Seq::new(2 * pair_count(r) as nat, |i: int| le_u32(r, pairs_start(r) + 4 * i)) + Seq::new(
        (c.len() / 4) as nat,
        |j: int| le_u32(c, 4 * j),
    )
}

/// Every symbol of the decoded grammar fits in a `usize`.
pub open spec fn symbols_fit(r: Seq<u8>, c: Seq<u8>) -> bool {
    forall|i: int|
        0 <= i < all_indices(r, c).len() ==> map_symbol(#[trigger] all_indices(r, c)[i], alphabet_of(r))
            <= usize::MAX
}

/// The buffers are complete: a whole header, alphabet, pairs and sequence.
pub open spec fn buffers_complete(r: Seq<u8>, c: Seq<u8>) -> bool {
    &&& r.len() >= 4
    &&& r.len() >= pairs_start(r)
    &&& (r.len() - pairs_start(r)) % 8 == 0
    &&& c.len() % 4 == 0
}

/// The grammar of complete buffers: one two-symbol rule per pair, then the sequence rule.
pub open spec fn repair_rules(r: Seq<u8>, c: Seq<u8>) -> Seq<Seq<usize>> {
    let a = alphabet_of(r);
    Seq::new(
        pair_count(r) as nat,
        |i: int|
            seq![
                map_symbol(le_u32(r, pairs_start(r) + 8 * i), a) as usize,
                map_symbol(le_u32(r, pairs_start(r) + 8 * i + 4), a) as usize,
            ],
    ).push(Seq::new((c.len() / 4) as nat, |j: int| map_symbol(le_u32(c, 4 * j), a) as usize))
}

/// The decoding failed because the named field was cut short.
pub open spec fn missing(out: Result<Grammar, RReaderError>, f: InputField) -> bool {
    match out {
        Err(RReaderError::MissingInput(g)) => g == f,
        _ => false,
    }
}

/// The two buffers that the pair-grammar builder produces.
pub struct RePairResult {
    pub file_c: Vec<u8>,
    pub file_r: Vec<u8>,
}

/// Decodes the rules and sequence buffers of a pair-grammar builder into a grammar.
#[derive(Debug, Default, Clone, Copy)]
pub struct NavarroRepairDecoder;

fn read_le(b: &Vec<u8>, p: usize) -> (r: u32)
    requires
        p + 4 <= b.len(),
    ensures
        r == le_u32(b@, p as int),
{
    (b[p] as u32) | ((b[p + 1] as u32) << 8u32) | ((b[p + 2] as u32) << 16u32) | ((b[p + 3] as u32)
        << 24u32)
}

fn map_index(x: u32, alph: &Vec<u8>) -> (r: Option<usize>)
    ensures
        r is Some <==> map_symbol(x, alph@) <= usize::MAX,
        r matches Some(v) ==> v == map_symbol(x, alph@),
{
    if (x as usize) < alph.len() {
        Some(alph[x as usize] as usize)
    } else {
        let d = x as usize - alph.len();
        if d > usize::MAX - RULE_OFFSET {
            None
        } else {
            Some(d + RULE_OFFSET)
        }
    }
}

impl NavarroRepairDecoder {
    pub fn decode(res: RePairResult) -> (out: Result<Grammar, RReaderError>)
        ensures
            res.file_r@.len() < 4 ==> missing(out, InputField::AlphabetSize),
            res.file_r@.len() >= 4 && res.file_r@.len() < pairs_start(res.file_r@) ==> missing(out, InputField::AlphabetCharacter),
            res.file_r@.len() >= 4 && res.file_r@.len() >= pairs_start(res.file_r@) && 1 <= (
            res.file_r@.len() - pairs_start(res.file_r@)) % 8 < 4 ==> missing(out, InputField::PairLeft),
            res.file_r@.len() >= 4 && res.file_r@.len() >= pairs_start(res.file_r@) && 4 <= (
            res.file_r@.len() - pairs_start(res.file_r@)) % 8 ==> missing(out, InputField::PairRight),
            res.file_r@.len() >= 4 && res.file_r@.len() >= pairs_start(res.file_r@) && (
            res.file_r@.len() - pairs_start(res.file_r@)) % 8 == 0 && res.file_c@.len() % 4 != 0
                ==> missing(out, InputField::SequenceSymbol),
            buffers_complete(res.file_r@, res.file_c@) && !symbols_fit(res.file_r@, res.file_c@)
                ==> out matches Err(RReaderError::IO(_)),
            buffers_complete(res.file_r@, res.file_c@) && symbols_fit(res.file_r@, res.file_c@)
                ==> (out matches Ok(g) && g.rules_view() == repair_rules(res.file_r@, res.file_c@)
                && g.start() == pair_count(res.file_r@)),
    {
        let r = res.file_r;
        let c = res.file_c;
        if r.len() < 4 {
            return Err(RReaderError::MissingInput(InputField::AlphabetSize));
        }
        let alph_n = read_le(&r, 0) as usize;
        if r.len() - 4 < alph_n {
            return Err(RReaderError::MissingInput(InputField::AlphabetCharacter));
        }
        let base = 4 + alph_n;
        let rem = (r.len() - base) % 8;
        if rem != 0 && rem < 4 {
            return Err(RReaderError::MissingInput(InputField::PairLeft));
        }
        if rem >= 4 {
            return Err(RReaderError::MissingInput(InputField::PairRight));
        }
        if c.len() % 4 != 0 {
            return Err(RReaderError::MissingInput(InputField::SequenceSymbol));
        }
        let alph = alphabet(&r, alph_n);
        let ghost a = alphabet_of(r@);
        let ghost idx = all_indices(r@, c@);
        let npairs = (r.len() - base) / 8;
        let mut rules: Vec<Vec<usize>> = Vec::new();
        let mut i: usize = 0;
        while i < npairs
            invariant
                r@ == res.file_r@,
                c@ == res.file_c@,
                alph@ == a,
                a == alphabet_of(r@),
                buffers_complete(r@, c@),
                base == pairs_start(r@),
                base <= r.len(),
                npairs == pair_count(r@),
                idx == all_indices(r@, c@),
                0 <= i <= npairs,
                forall|q: int| 0 <= q < 2 * i ==> map_symbol(#[trigger] idx[q], a) <= usize::MAX,
                rules@.map_values(|v: Vec<usize>| v@) == repair_rules(r@, c@).take(i as int),
            decreases npairs - i,
        {
            assert(base + 8 * i + 8 <= r.len()) by (nonlinear_arith)
                requires
                    i < npairs,
                    npairs == (r.len() - base) / 8,
                    base <= r.len(),
            ;
            let p = base + 8 * i;
            let lx = read_le(&r, p);
            let rx = read_le(&r, p + 4);
            assert(idx[2 * i] == lx && idx[2 * i + 1] == rx);
            let l = match map_index(lx, &alph) {
                Some(v) => v,
                None => {
                    return Err(RReaderError::IO(invalid_data()));
                },
            };
            let rr = match map_index(rx, &alph) {
                Some(v) => v,
                None => {
                    return Err(RReaderError::IO(invalid_data()));
                },
            };
            let pair: Vec<usize> = vec![l, rr];
            assert(pair@ =~= seq![l, rr]);
            assert(repair_rules(r@, c@)[i as int] =~= seq![l, rr]);
            assert(repair_rules(r@, c@).take(i + 1) =~= repair_rules(r@, c@).take(i as int).push(seq![l, rr]));
            rules.push(pair);
            assert(rules@.map_values(|v: Vec<usize>| v@) =~= repair_rules(r@, c@).take(i + 1));
            i += 1;
        }
        let nsym = c.len() / 4;
        assert(rules@.map_values(|v: Vec<usize>| v@) == repair_rules(r@, c@).take(npairs as int));
        let mut seq_rule: Vec<usize> = Vec::new();
        let mut j: usize = 0;
        while j < nsym
            invariant
                r@ == res.file_r@,
                c@ == res.file_c@,
                alph@ == a,
                a == alphabet_of(r@),
                buffers_complete(r@, c@),
                npairs == pair_count(r@),
                nsym == c@.len() / 4,
                nsym * 4 <= c.len(),
                rules@.map_values(|v: Vec<usize>| v@) == repair_rules(r@, c@).take(npairs as int),
                idx == all_indices(r@, c@),
                0 <= j <= nsym,
                forall|q: int| 0 <= q < 2 * npairs + j ==> map_symbol(#[trigger] idx[q], a) <= usize::MAX,
                seq_rule@ == Seq::new(j as nat, |q: int| map_symbol(le_u32(c@, 4 * q), a) as usize),
            decreases nsym - j,
        {
            assert(4 * j + 4 <= c.len()) by (nonlinear_arith)
                requires
                    j < nsym,
                    nsym * 4 <= c.len(),
            ;
            let x = read_le(&c, 4 * j);
            assert(idx[2 * npairs + j] == x);
            match map_index(x, &alph) {
                Some(v) => {
                    seq_rule.push(v);
                },
                None => {
                    return Err(RReaderError::IO(invalid_data()));
                },
            }
            j += 1;
            assert(seq_rule@ =~= Seq::new(j as nat, |q: int| map_symbol(le_u32(c@, 4 * q), a) as usize));
        }
        let ghost pairs_view = rules@.map_values(|v: Vec<usize>| v@);
        assert(repair_rules(r@, c@) =~= pairs_view.push(seq_rule@));
        rules.push(seq_rule);
        assert(rules@.map_values(|v: Vec<usize>| v@) =~= repair_rules(r@, c@));
        let n_rules = rules.len();
        Ok(Grammar::from_parts(rules, n_rules - 1))
    }
}

/// The `alph_n` bytes after the alphabet size.
fn alphabet(r: &Vec<u8>, alph_n: usize) -> (v: Vec<u8>)
    requires
        4 + alph_n <= r.len(),
    ensures
        v@ == r@.subrange(4, 4 + alph_n as int),
{
    let mut v: Vec<u8> = Vec::new();
    let mut k: usize = 0;
    while k < alph_n
        invariant
            4 + alph_n <= r.len(),
            0 <= k <= alph_n,
            v@ == r@.subrange(4, 4 + k as int),
        decreases alph_n - k,
    {
        v.push(r[4 + k]);
        k += 1;
        assert(v@ =~= r@.subrange(4, 4 + k as int));
    }
    v
}

} // verus!
