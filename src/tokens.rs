//! Row codes as sequences of tokens: literals and runs.
use vstd::prelude::*;
use crate::format::{max_repeat, min_repeat, repeat_seq, run_base};

verus! {

/// One token of a row code. A literal has `unit == 0`, `repeat == 1` and one
/// byte; a run repeats its `unit` bytes `repeat` times.
pub struct Token {
    pub unit: nat,
    pub repeat: nat,
    pub bytes: Seq<u8>,
}

/// The token is one the opcode table can write.
pub open spec fn token_legal(t: Token) -> bool {
    if t.unit == 0 {
        t.repeat == 1 && t.bytes.len() == 1
    } else {
        &&& 1 <= t.unit <= 4
        &&& min_repeat(t.unit) <= t.repeat <= max_repeat(t.unit)
        &&& t.bytes.len() == t.unit
    }
}

/// The bytes that write a token.
pub open spec fn token_code(t: Token) -> Seq<u8> {
    if t.unit == 0 {
        t.bytes
    } else {
        seq![(run_base(t.unit) + t.repeat) as u8] + t.bytes
    }
}

/// The raw bytes a token stands for.
pub open spec fn token_cells(t: Token) -> Seq<u8> {
    repeat_seq(t.bytes, t.repeat)
}

pub open spec fn tokens_legal(ts: Seq<Token>) -> bool {
    forall|i: int| 0 <= i < ts.len() ==> token_legal(#[trigger] ts[i])
}

/// Every literal of the tokens is a byte that decodes as a literal.
pub open spec fn literals_below_runs(ts: Seq<Token>) -> bool {
    forall|i: int| 0 <= i < ts.len() && (#[trigger] ts[i]).unit == 0 ==> ts[i].bytes[0] < 0xDC
}

/// The tokens decode as a row's own code: their literals decode as
/// literals, and the first token is no literal marker byte.
pub open spec fn literals_decodable(ts: Seq<Token>) -> bool {
    &&& literals_below_runs(ts)
    &&& ts.len() > 0 && ts[0].unit == 0 ==> ts[0].bytes[0] != 0xDB
}

pub open spec fn tokens_code(ts: Seq<Token>) -> Seq<u8>
    decreases ts.len(),
{
    if ts.len() == 0 {
        Seq::empty()
    } else {
        tokens_code(ts.drop_last()) + token_code(ts.last())
    }
}

pub open spec fn tokens_cells(ts: Seq<Token>) -> Seq<u8>
    decreases ts.len(),
{
    if ts.len() == 0 {
        Seq::empty()
    } else {
        tokens_cells(ts.drop_last()) + token_cells(ts.last())
    }
}

/// `code` writes legal tokens that stand for `row`.
pub open spec fn encodes_row(code: Seq<u8>, row: Seq<u8>) -> bool {
    exists|ts: Seq<Token>| #[trigger] tokens_code(ts) == code && tokens_legal(ts) && tokens_cells(ts) == row
}

/// `code` writes `row` and no legal tokens for `row` are shorter.
pub open spec fn is_minimal_code(code: Seq<u8>, row: Seq<u8>) -> bool {
    &&& encodes_row(code, row)
    &&& forall|ts: Seq<Token>|
        tokens_legal(ts) && #[trigger] tokens_cells(ts) == row ==> code.len() <= tokens_code(ts).len()
}

pub proof fn lemma_repeat_len(s: Seq<u8>, n: nat)
    ensures
        repeat_seq(s, n).len() == n * s.len(),
    decreases n,
{
    if n > 0 {
        lemma_repeat_len(s, (n - 1) as nat);
        assert(n * s.len() == (n - 1) * s.len() + s.len()) by (nonlinear_arith);
    } else {
        assert(n * s.len() == 0) by (nonlinear_arith)
            requires
                n == 0,
        ;
    }
}

/// A repetition starts with one copy.
pub proof fn lemma_repeat_head(s: Seq<u8>, n: nat)
    requires
        n >= 1,
    ensures
        repeat_seq(s, n).subrange(0, s.len() as int) == s,
    decreases n,
{
    lemma_repeat_len(s, n);
    if n == 1 {
        assert(repeat_seq(s, 0) =~= Seq::<u8>::empty());
        assert(repeat_seq(s, 1) =~= s);
    } else {
        lemma_repeat_head(s, (n - 1) as nat);
        lemma_repeat_len(s, (n - 1) as nat);
        assert((n - 1) * s.len() >= s.len()) by (nonlinear_arith)
            requires
                n >= 2,
        ;
        assert(repeat_seq(s, n).subrange(0, s.len() as int) =~= repeat_seq(s, (n - 1) as nat).subrange(
            0,
            s.len() as int,
        ));
    }
}

pub proof fn lemma_tokens_concat(a: Seq<Token>, b: Seq<Token>)
    ensures
        tokens_code(a + b) == tokens_code(a) + tokens_code(b),
        tokens_cells(a + b) == tokens_cells(a) + tokens_cells(b),
    decreases b.len(),
{
    if b.len() == 0 {
        assert(a + b =~= a);
        assert(tokens_code(a) + Seq::<u8>::empty() =~= tokens_code(a));
        assert(tokens_cells(a) + Seq::<u8>::empty() =~= tokens_cells(a));
    } else {
        lemma_tokens_concat(a, b.drop_last());
        assert((a + b).drop_last() =~= a + b.drop_last());
        assert((a + b).last() == b.last());
        assert(tokens_code(a + b) =~= tokens_code(a) + tokens_code(b));
        assert(tokens_cells(a + b) =~= tokens_cells(a) + tokens_cells(b));
    }
}

pub proof fn lemma_token_sizes(t: Token)
    requires
        token_legal(t),
    ensures
        token_cells(t).len() == t.repeat * t.bytes.len(),
        token_cells(t).len() >= 1,
        t.unit == 0 ==> token_cells(t) == t.bytes,
        token_code(t).len() == if t.unit == 0 { 1 } else { 1 + t.unit },
{
    lemma_repeat_len(t.bytes, t.repeat);
    if t.unit == 0 {
        assert(repeat_seq(t.bytes, 0) =~= Seq::<u8>::empty());
        assert(repeat_seq(t.bytes, 1) =~= t.bytes);
    }
    assert(t.repeat * t.bytes.len() >= 1) by (nonlinear_arith)
        requires
            t.repeat >= 1,
            t.bytes.len() >= 1,
    ;
}

} // verus!
