//! What holds between the encoder and the decoder.
use vstd::prelude::*;
use crate::encode::{
    backref, encode_rows, encodes_stream, first_occurrence, lemma_first_occurrence, lemma_minimal_len,
    minimal_codes, row_address, row_at,
};
use crate::format::{
    decode_cells, decode_from, max_repeat, min_repeat, opcode_cells, opcode_repeat, opcode_unit,
    run_base, stored_addr, CodecError,
};
use crate::tokens::{
    is_minimal_code, lemma_token_sizes, lemma_tokens_concat, literals_below_runs, literals_decodable, token_cells, token_code,
    token_legal, tokens_cells, tokens_code, tokens_legal, Token,
};

verus! {

/// Legal tokens for `row` that no legal tokens for it beat in length.
pub open spec fn is_shortest(ts: Seq<Token>, row: Seq<u8>) -> bool {
    &&& tokens_legal(ts)
    &&& tokens_cells(ts) == row
    &&& forall|us: Seq<Token>|
        tokens_legal(us) && #[trigger] tokens_cells(us) == row ==> tokens_code(ts).len() <= tokens_code(us).len()
}

/// Every shortest way to write the row has only literals that decode as
/// literals, and none of them starts with a literal marker byte.
pub open spec fn row_representable(row: Seq<u8>) -> bool {
    forall|ts: Seq<Token>| #[trigger] is_shortest(ts, row) ==> literals_decodable(ts)
}

pub open spec fn rows_representable(buf: Seq<u8>) -> bool {
    forall|n: int| 0 <= n < buf.len() / 20 ==> row_representable(#[trigger] row_at(buf, n))
}

/// The byte of a literal token stands in the cells, after the cells of the
/// tokens before it.
proof fn lemma_literal_in_cells(ts: Seq<Token>, i: int)
    requires
        tokens_legal(ts),
        0 <= i < ts.len(),
        ts[i].unit == 0,
    ensures
        tokens_cells(ts.subrange(0, i)).len() < tokens_cells(ts).len(),
        tokens_cells(ts)[tokens_cells(ts.subrange(0, i)).len() as int] == ts[i].bytes[0],
{
    let pre = ts.subrange(0, i + 1);
    let post = ts.subrange(i + 1, ts.len() as int);
    assert(pre + post =~= ts);
    lemma_tokens_concat(pre, post);
    assert(pre.drop_last() =~= ts.subrange(0, i));
    assert(pre.last() == ts[i]);
    assert(token_legal(ts[i]));
    lemma_token_sizes(ts[i]);
}

/// A row whose bytes all lie below the first run opcode, and which does not
/// start with the marker byte, can be written back as it was.
pub proof fn lemma_plain_row_representable(row: Seq<u8>)
    requires
        row.len() == 20,
        forall|i: int| 0 <= i < 20 ==> #[trigger] row[i] < 0xDC,
        row[0] != 0xDB,
    ensures
        row_representable(row),
{
    assert forall|ts: Seq<Token>| #[trigger] is_shortest(ts, row) implies literals_decodable(ts) by {
        assert forall|i: int| 0 <= i < ts.len() && (#[trigger] ts[i]).unit == 0 implies ts[i].bytes[0] < 0xDC by {
            lemma_literal_in_cells(ts, i);
        }
        if ts.len() > 0 && ts[0].unit == 0 {
            lemma_literal_in_cells(ts, 0);
            assert(ts.subrange(0, 0) =~= Seq::<Token>::empty());
            assert(tokens_cells(Seq::<Token>::empty()) == Seq::<u8>::empty());
        }
    }
}

proof fn lemma_opcode(u: nat, m: nat)
    requires
        1 <= u <= 4,
        min_repeat(u) <= m <= max_repeat(u),
    ensures
        ({
            let b = (run_base(u) + m) as u8;
            &&& b as int == run_base(u) + m
            &&& b >= 0xDC
            &&& opcode_unit(b) == u
            &&& opcode_repeat(b) == m
            &&& opcode_cells(b) == m * u
        }),
{
    if u == 1 {
        assert(m * u == m) by (nonlinear_arith) requires u == 1;
    } else if u == 2 {
        assert(m * u == 2 * m) by (nonlinear_arith) requires u == 2;
    } else if u == 3 {
        assert(m * u == 3 * m) by (nonlinear_arith) requires u == 3;
    } else {
        assert(m * u == 4 * m) by (nonlinear_arith) requires u == 4;
    }
}

/// Legal tokens whose cells all decode as literals decode back to their cells.
proof fn lemma_decode_tokens(buf: Seq<u8>, off: int, count: nat, ts: Seq<Token>)
    requires
        tokens_legal(ts),
        literals_below_runs(ts),
        count + tokens_cells(ts).len() == 20,
        0 <= off,
        off + tokens_code(ts).len() <= buf.len(),
        buf.subrange(off, off + tokens_code(ts).len()) == tokens_code(ts),
    ensures
        decode_cells(buf, off, count) == Ok::<(Seq<u8>, int), CodecError>(
            (tokens_cells(ts), off + tokens_code(ts).len()),
        ),
    decreases ts.len(),
{
    if ts.len() == 0 {
        assert(tokens_cells(ts) =~= Seq::<u8>::empty());
    } else {
        let t = ts[0];
        let rest = ts.drop_first();
        assert(seq![t] + rest =~= ts);
        lemma_tokens_concat(seq![t], rest);
        assert(seq![t].drop_last() =~= Seq::<Token>::empty());
        assert(tokens_code(Seq::<Token>::empty()) == Seq::<u8>::empty());
        assert(tokens_cells(Seq::<Token>::empty()) == Seq::<u8>::empty());
        assert(tokens_code(seq![t]) =~= token_code(t));
        assert(tokens_cells(seq![t]) =~= token_cells(t));
        assert(token_legal(ts[0]));
        lemma_token_sizes(t);
        assert(tokens_legal(rest)) by {
            assert forall|i: int| 0 <= i < rest.len() implies token_legal(#[trigger] rest[i]) by {
                assert(rest[i] == ts[i + 1]);
            }
        }
        assert forall|i: int| 0 <= i < rest.len() && (#[trigger] rest[i]).unit == 0 implies rest[i].bytes[0] < 0xDC by {
            assert(rest[i] == ts[i + 1]);
        }
        let cells = tokens_cells(ts);
        let ct = token_cells(t);
        let code = tokens_code(ts);
        let tc = token_code(t);
        assert(code.subrange(tc.len() as int, code.len() as int) =~= tokens_code(rest));
        assert(buf.subrange(off + tc.len(), off + tc.len() + tokens_code(rest).len()) =~= code.subrange(
            tc.len() as int,
            code.len() as int,
        ));
        if t.unit == 0 {
            assert(buf[off] == code[0]);
            assert(code[0] == ct[0]);
            lemma_decode_tokens(buf, off + 1, count + 1, rest);
            assert(seq![buf[off]] =~= ct);
        } else {
            lemma_opcode(t.unit, t.repeat);
            let b = buf[off];
            assert(b == code[0]);
            assert(b == tc[0]);
            assert(buf.subrange(off + 1, off + 1 + t.unit) =~= t.bytes) by {
                assert(t.bytes =~= tc.subrange(1, tc.len() as int));
                assert(tc =~= code.subrange(0, tc.len() as int));
            }
            assert(opcode_cells(b) == ct.len());
            lemma_decode_tokens(buf, off + 1 + t.unit, count + opcode_cells(b), rest);
        }
    }
}

/// A shortest code of a representable row decodes back to the row, and
/// does not start with the back-reference marker.
proof fn lemma_code_decodes(out: Seq<u8>, off: int, code: Seq<u8>, row: Seq<u8>)
    requires
        is_minimal_code(code, row),
        row.len() == 20,
        row_representable(row),
        0 <= off,
        off + code.len() <= out.len(),
        out.subrange(off, off + code.len()) == code,
    ensures
        out[off] != 0xDB,
        decode_cells(out, off, 0) == Ok::<(Seq<u8>, int), CodecError>((row, off + code.len())),
{
    let ts = choose|ts: Seq<Token>| #[trigger] tokens_code(ts) == code && tokens_legal(ts) && tokens_cells(ts) == row;
    assert(is_shortest(ts, row));
    lemma_decode_tokens(out, off, 0, ts);
    let t = ts[0];
    let rest = ts.drop_first();
    assert(seq![t] + rest =~= ts);
    lemma_tokens_concat(seq![t], rest);
    assert(seq![t].drop_last() =~= Seq::<Token>::empty());
    assert(tokens_code(Seq::<Token>::empty()) == Seq::<u8>::empty());
    assert(tokens_cells(Seq::<Token>::empty()) == Seq::<u8>::empty());
    assert(tokens_code(seq![t]) =~= token_code(t));
    assert(tokens_cells(seq![t]) =~= token_cells(t));
    assert(token_legal(ts[0]));
    lemma_token_sizes(t);
    assert(out[off] == code[0]);
    if t.unit != 0 {
        lemma_opcode(t.unit, t.repeat);
    }
}

/// Each prefix of the codes gives a prefix of the stream.
pub proof fn lemma_rows_prefix(buf: Seq<u8>, origin: int, codes: Seq<Seq<u8>>, k: int)
    requires
        encode_rows(buf, origin, codes) is Ok,
        0 <= k <= codes.len(),
    ensures
        encode_rows(buf, origin, codes.subrange(0, k)) is Ok,
        encode_rows(buf, origin, codes.subrange(0, k))->Ok_0.len() <= encode_rows(buf, origin, codes)->Ok_0.len(),
        encode_rows(buf, origin, codes)->Ok_0.subrange(0, encode_rows(buf, origin, codes.subrange(0, k))->Ok_0.len() as int)
            == encode_rows(buf, origin, codes.subrange(0, k))->Ok_0,
    decreases codes.len() - k,
{
    let out = encode_rows(buf, origin, codes)->Ok_0;
    if k == codes.len() {
        assert(codes.subrange(0, k) =~= codes);
        assert(out.subrange(0, out.len() as int) =~= out);
    } else {
        lemma_rows_prefix(buf, origin, codes, k + 1);
        let c1 = codes.subrange(0, k + 1);
        assert(c1.drop_last() =~= codes.subrange(0, k));
        let upto_next = encode_rows(buf, origin, c1)->Ok_0;
        let upto_k = encode_rows(buf, origin, codes.subrange(0, k))->Ok_0;
        assert(upto_k =~= upto_next.subrange(0, upto_k.len() as int));
        assert(out.subrange(0, upto_k.len() as int) =~= out.subrange(0, upto_next.len() as int).subrange(0, upto_k.len() as int));
    }
}

/// The facts about the whole stream that every row's step relies on.
spec fn stream_ok(buf: Seq<u8>, origin: int, codes: Seq<Seq<u8>>) -> bool {
    &&& 0 <= origin
    &&& buf.len() % 20 == 0
    &&& codes.len() == buf.len() / 20
    &&& minimal_codes(buf, codes)
    &&& rows_representable(buf)
    &&& encode_rows(buf, origin, codes) is Ok
}

/// Offset in the stream at which row `k` is written.
pub open spec fn row_offset(buf: Seq<u8>, origin: int, codes: Seq<Seq<u8>>, k: int) -> int {
    encode_rows(buf, origin, codes.subrange(0, k))->Ok_0.len() as int
}

/// Row `k` of `buf`, as the facts about its bytes give it.
proof fn lemma_row_bytes(buf: Seq<u8>, codes: Seq<Seq<u8>>, k: int)
    requires
        buf.len() % 20 == 0,
        codes.len() == buf.len() / 20,
        rows_representable(buf),
        0 <= k < codes.len(),
    ensures
        row_at(buf, k).len() == 20,
        row_representable(row_at(buf, k)),
        buf.subrange(20 * k, buf.len() as int) =~= row_at(buf, k) + buf.subrange(20 * (k + 1), buf.len() as int),
{
    vstd::arithmetic::div_mod::lemma_fundamental_div_mod(buf.len() as int, 20);
}

/// Row `k` written as a back-reference decodes to the row.
proof fn lemma_backref_decodes(buf: Seq<u8>, origin: int, codes: Seq<Seq<u8>>, k: int, m: int)
    requires
        stream_ok(buf, origin, codes),
        0 <= m < k < codes.len(),
        codes[k].len() > 3,
        first_occurrence(buf, row_at(buf, k), k as nat) == Some(m as nat),
    ensures
        ({
            let out = encode_rows(buf, origin, codes)->Ok_0;
            let off = row_offset(buf, origin, codes, k);
            &&& row_offset(buf, origin, codes, k + 1) == off + 3
            &&& out[off] == 0xDB
            &&& stored_addr(out, off) >= origin
            &&& stored_addr(out, off) - origin == row_offset(buf, origin, codes, m)
            &&& out[row_offset(buf, origin, codes, m)] != 0xDB
            &&& decode_cells(out, row_offset(buf, origin, codes, m), 0) is Ok
            &&& decode_cells(out, row_offset(buf, origin, codes, m), 0)->Ok_0.0 == row_at(buf, k)
        }),
{
    let out = encode_rows(buf, origin, codes)->Ok_0;
    let row = row_at(buf, k);
    lemma_rows_prefix(buf, origin, codes, k);
    lemma_rows_prefix(buf, origin, codes, k + 1);
    lemma_rows_prefix(buf, origin, codes, m);
    lemma_rows_prefix(buf, origin, codes, m + 1);
    lemma_first_occurrence(buf, row, k as nat);
    lemma_first_occurrence(buf, row_at(buf, m), m as nat);
    lemma_row_bytes(buf, codes, m);
    let off = row_offset(buf, origin, codes, k);
    let c1 = codes.subrange(0, k + 1);
    assert(c1.drop_last() =~= codes.subrange(0, k));
    assert(c1.last() == codes[k]);
    let upto_next = encode_rows(buf, origin, c1)->Ok_0;
    let om = row_offset(buf, origin, codes, m);
    assert(c1.subrange(0, m) =~= codes.subrange(0, m));
    let addr = row_address(origin, om);
    assert(addr <= 0xFFFF);
    assert(upto_next =~= encode_rows(buf, origin, codes.subrange(0, k))->Ok_0 + backref(addr));
    assert(out[off] == upto_next[off]);
    assert(out[off + 1] == upto_next[off + 1]);
    assert(out[off + 2] == upto_next[off + 2]);
    assert(stored_addr(out, off) == addr);
    let cm = codes.subrange(0, m + 1);
    assert(cm.drop_last() =~= codes.subrange(0, m));
    assert(cm.last() == codes[m]);
    assert(is_minimal_code(codes[m], row_at(buf, m)));
    assert(is_minimal_code(codes[k], row_at(buf, k)));
    lemma_minimal_len(codes[m], codes[k], row);
    let upto_ref = encode_rows(buf, origin, cm)->Ok_0;
    assert(upto_ref =~= encode_rows(buf, origin, codes.subrange(0, m))->Ok_0 + codes[m]);
    assert(upto_ref.len() == om + codes[m].len());
    assert(upto_ref.subrange(om, om + codes[m].len()) =~= codes[m]);
    assert(out.subrange(0, upto_ref.len() as int) == upto_ref);
    assert(out.subrange(om, om + codes[m].len()) =~= upto_ref.subrange(om, om + codes[m].len()));
    lemma_code_decodes(out, om, codes[m], row);
}

/// Row `k` written as its own code decodes to the row.
proof fn lemma_self_decodes(buf: Seq<u8>, origin: int, codes: Seq<Seq<u8>>, k: int)
    requires
        stream_ok(buf, origin, codes),
        0 <= k < codes.len(),
        codes[k].len() <= 3 || first_occurrence(buf, row_at(buf, k), k as nat) is None,
    ensures
        ({
            let out = encode_rows(buf, origin, codes)->Ok_0;
            let off = row_offset(buf, origin, codes, k);
            &&& out[off] != 0xDB
            &&& decode_cells(out, off, 0) == Ok::<(Seq<u8>, int), CodecError>(
                (row_at(buf, k), row_offset(buf, origin, codes, k + 1)),
            )
        }),
{
    let out = encode_rows(buf, origin, codes)->Ok_0;
    lemma_rows_prefix(buf, origin, codes, k);
    lemma_rows_prefix(buf, origin, codes, k + 1);
    lemma_row_bytes(buf, codes, k);
    let off = row_offset(buf, origin, codes, k);
    let off1 = row_offset(buf, origin, codes, k + 1);
    let c1 = codes.subrange(0, k + 1);
    assert(c1.drop_last() =~= codes.subrange(0, k));
    assert(c1.last() == codes[k]);
    let upto_next = encode_rows(buf, origin, c1)->Ok_0;
    assert(upto_next =~= encode_rows(buf, origin, codes.subrange(0, k))->Ok_0 + codes[k]);
    assert(off1 == off + codes[k].len());
    assert(upto_next.subrange(off, off1) =~= codes[k]);
    assert(out.subrange(0, off1) == upto_next);
    assert(out.subrange(off, off1) =~= upto_next.subrange(off, off1));
    assert(is_minimal_code(codes[k], row_at(buf, k)));
    lemma_code_decodes(out, off, codes[k], row_at(buf, k));
}

/// Decoding the stream from where row `k` was written gives the rows from `k` on.
proof fn lemma_decode_suffix(buf: Seq<u8>, origin: int, codes: Seq<Seq<u8>>, k: int)
    requires
        stream_ok(buf, origin, codes),
        0 <= k <= codes.len(),
    ensures
        decode_from(encode_rows(buf, origin, codes)->Ok_0, origin, row_offset(buf, origin, codes, k))
            == Ok::<Seq<u8>, CodecError>(buf.subrange(20 * k, buf.len() as int)),
    decreases codes.len() - k,
{
    let out = encode_rows(buf, origin, codes)->Ok_0;
    vstd::arithmetic::div_mod::lemma_fundamental_div_mod(buf.len() as int, 20);
    lemma_rows_prefix(buf, origin, codes, k);
    let off = row_offset(buf, origin, codes, k);
    if k == codes.len() {
        assert(codes.subrange(0, k) =~= codes);
        assert(buf.subrange(20 * k, buf.len() as int) =~= Seq::<u8>::empty());
    } else {
        lemma_rows_prefix(buf, origin, codes, k + 1);
        lemma_decode_suffix(buf, origin, codes, k + 1);
        lemma_row_bytes(buf, codes, k);
        let row = row_at(buf, k);
        let c1 = codes.subrange(0, k + 1);
        assert(c1.drop_last() =~= codes.subrange(0, k));
        assert(c1.last() == codes[k]);
        assert(row_offset(buf, origin, codes, k + 1) > off) by {
            assert(is_minimal_code(codes[k], row));
            if codes[k].len() <= 3 || first_occurrence(buf, row, k as nat) is None {
                lemma_self_decodes(buf, origin, codes, k);
                crate::format::lemma_decode_cells_advances(out, off, 0);
            } else {
                lemma_first_occurrence(buf, row, k as nat);
                let m = first_occurrence(buf, row, k as nat)->Some_0 as int;
                lemma_backref_decodes(buf, origin, codes, k, m);
            }
        }
        if codes[k].len() <= 3 || first_occurrence(buf, row, k as nat) is None {
            lemma_self_decodes(buf, origin, codes, k);
        } else {
            lemma_first_occurrence(buf, row, k as nat);
            let m = first_occurrence(buf, row, k as nat)->Some_0 as int;
            lemma_backref_decodes(buf, origin, codes, k, m);
        }
    }
}

/// Decoding what the encoder wrote for representable rows gives the rows
/// back, whatever the origin.
pub proof fn lemma_round_trip(buf: Seq<u8>, origin: int, out: Seq<u8>)
    requires
        0 <= origin,
        rows_representable(buf),
        encodes_stream(buf, origin, Ok(out)),
    ensures
        decode_from(out, origin, 0) == Ok::<Seq<u8>, CodecError>(buf),
{
    let codes = choose|codes: Seq<Seq<u8>>|
        #[trigger] minimal_codes(buf, codes) && encode_rows(buf, origin, codes) == Ok::<Seq<u8>, CodecError>(out)
            && codes.len() == buf.len() / 20;
    assert(codes.subrange(0, 0) =~= Seq::<Seq<u8>>::empty());
    lemma_decode_suffix(buf, origin, codes, 0);
    assert(buf.subrange(0, buf.len() as int) =~= buf);
}

/// A later copy of a row whose first occurrence has a code longer than three
/// bytes is written as a back-reference to that first code.
pub proof fn lemma_dedup(buf: Seq<u8>, origin: int, codes: Seq<Seq<u8>>, i: int, k: int)
    requires
        minimal_codes(buf, codes),
        0 <= i < k < codes.len(),
        row_at(buf, i) == row_at(buf, k),
        first_occurrence(buf, row_at(buf, i), i as nat) is None,
        codes[i].len() > 3,
        encode_rows(buf, origin, codes.subrange(0, k + 1)) is Ok,
    ensures
        encode_rows(buf, origin, codes.subrange(0, k + 1))->Ok_0 == encode_rows(buf, origin, codes.subrange(0, k))->Ok_0
            + backref(origin + encode_rows(buf, origin, codes.subrange(0, i))->Ok_0.len()),
{
    let c1 = codes.subrange(0, k + 1);
    assert(c1.drop_last() =~= codes.subrange(0, k));
    assert(c1.last() == codes[k]);
    assert(c1.subrange(0, i) =~= codes.subrange(0, i));
    lemma_minimal_len(codes[i], codes[k], row_at(buf, i));
    lemma_first_occurrence(buf, row_at(buf, k), k as nat);
    lemma_first_occurrence(buf, row_at(buf, i), i as nat);
    assert(first_occurrence(buf, row_at(buf, k), k as nat) == Some(i as nat));
}

/// In the whole stream, a later copy of a row whose first occurrence has a
/// code longer than three bytes is the three-byte back-reference to the
/// address at which that first code starts, and the first code stands there.
pub proof fn lemma_dedup_in_output(buf: Seq<u8>, origin: int, codes: Seq<Seq<u8>>, i: int, k: int)
    requires
        minimal_codes(buf, codes),
        encode_rows(buf, origin, codes) is Ok,
        0 <= i < k < codes.len(),
        row_at(buf, i) == row_at(buf, k),
        first_occurrence(buf, row_at(buf, i), i as nat) is None,
        codes[i].len() > 3,
    ensures
        ({
            let out = encode_rows(buf, origin, codes)->Ok_0;
            let at_i = row_offset(buf, origin, codes, i);
            let at_k = row_offset(buf, origin, codes, k);
            &&& origin + at_i <= 0xFFFF
            &&& row_offset(buf, origin, codes, i + 1) == at_i + codes[i].len()
            &&& out.subrange(at_i, at_i + codes[i].len()) == codes[i]
            &&& row_offset(buf, origin, codes, k + 1) == at_k + 3
            &&& out.subrange(at_k, at_k + 3) == backref(origin + at_i)
        }),
{
    let out = encode_rows(buf, origin, codes)->Ok_0;
    lemma_rows_prefix(buf, origin, codes, i);
    lemma_rows_prefix(buf, origin, codes, i + 1);
    lemma_rows_prefix(buf, origin, codes, k);
    lemma_rows_prefix(buf, origin, codes, k + 1);
    lemma_dedup(buf, origin, codes, i, k);
    let at_i = row_offset(buf, origin, codes, i);
    let at_k = row_offset(buf, origin, codes, k);
    let ci = codes.subrange(0, i + 1);
    assert(ci.drop_last() =~= codes.subrange(0, i));
    assert(ci.last() == codes[i]);
    let upto_i = encode_rows(buf, origin, ci)->Ok_0;
    assert(upto_i =~= encode_rows(buf, origin, codes.subrange(0, i))->Ok_0 + codes[i]);
    assert(out.subrange(0, upto_i.len() as int) == upto_i);
    assert(out.subrange(at_i, at_i + codes[i].len()) =~= upto_i.subrange(at_i, at_i + codes[i].len()));
    let ck = codes.subrange(0, k + 1);
    assert(ck.drop_last() =~= codes.subrange(0, k));
    assert(ck.last() == codes[k]);
    assert(ck.subrange(0, i) =~= codes.subrange(0, i));
    lemma_minimal_len(codes[i], codes[k], row_at(buf, i));
    lemma_first_occurrence(buf, row_at(buf, k), k as nat);
    lemma_first_occurrence(buf, row_at(buf, i), i as nat);
    assert(first_occurrence(buf, row_at(buf, k), k as nat) == Some(i as nat));
    assert(origin + at_i <= 0xFFFF);
    let upto_k = encode_rows(buf, origin, ck)->Ok_0;
    assert(out.subrange(0, upto_k.len() as int) == upto_k);
    assert(out.subrange(at_k, at_k + 3) =~= upto_k.subrange(at_k, at_k + 3));
}

/// With the same row codes, every row is written at the same offset
/// whatever the origin.
pub proof fn lemma_offsets_ignore_origin(buf: Seq<u8>, o1: int, o2: int, codes: Seq<Seq<u8>>, k: int)
    requires
        encode_rows(buf, o1, codes) is Ok,
        encode_rows(buf, o2, codes) is Ok,
        0 <= k <= codes.len(),
    ensures
        row_offset(buf, o1, codes, k) == row_offset(buf, o2, codes, k),
    decreases k,
{
    lemma_rows_prefix(buf, o1, codes, k);
    lemma_rows_prefix(buf, o2, codes, k);
    if k > 0 {
        lemma_offsets_ignore_origin(buf, o1, o2, codes, k - 1);
        let ck = codes.subrange(0, k);
        assert(ck.drop_last() =~= codes.subrange(0, k - 1));
        assert(ck.last() == codes[k - 1]);
    }
}

/// With the same row codes, a row is written the same way from any origin,
/// except that a back-reference's address moves with the origin.
pub proof fn lemma_origin_shift(buf: Seq<u8>, o1: int, o2: int, codes: Seq<Seq<u8>>, k: int)
    requires
        encode_rows(buf, o1, codes) is Ok,
        encode_rows(buf, o2, codes) is Ok,
        0 <= k < codes.len(),
    ensures
        ({
            let out1 = encode_rows(buf, o1, codes)->Ok_0;
            let out2 = encode_rows(buf, o2, codes)->Ok_0;
            let at = row_offset(buf, o1, codes, k);
            let next = row_offset(buf, o1, codes, k + 1);
            &&& at == row_offset(buf, o2, codes, k)
            &&& next == row_offset(buf, o2, codes, k + 1)
            &&& out1.len() == out2.len()
            &&& (out1.subrange(at, next) == out2.subrange(at, next) || exists|a: int|
                #![trigger backref(o1 + a)]
                out1.subrange(at, next) == backref(o1 + a) && out2.subrange(at, next) == backref(o2 + a))
        }),
{
    let n = codes.len() as int;
    lemma_offsets_ignore_origin(buf, o1, o2, codes, k);
    lemma_offsets_ignore_origin(buf, o1, o2, codes, k + 1);
    lemma_offsets_ignore_origin(buf, o1, o2, codes, n);
    assert(codes.subrange(0, n) =~= codes);
    lemma_rows_prefix(buf, o1, codes, k);
    lemma_rows_prefix(buf, o2, codes, k);
    lemma_rows_prefix(buf, o1, codes, k + 1);
    lemma_rows_prefix(buf, o2, codes, k + 1);
    let out1 = encode_rows(buf, o1, codes)->Ok_0;
    let out2 = encode_rows(buf, o2, codes)->Ok_0;
    let at = row_offset(buf, o1, codes, k);
    let next = row_offset(buf, o1, codes, k + 1);
    let ck = codes.subrange(0, k + 1);
    assert(ck.drop_last() =~= codes.subrange(0, k));
    assert(ck.last() == codes[k]);
    let upto1 = encode_rows(buf, o1, ck)->Ok_0;
    let upto2 = encode_rows(buf, o2, ck)->Ok_0;
    assert(out1.subrange(0, upto1.len() as int) == upto1);
    assert(out2.subrange(0, upto2.len() as int) == upto2);
    assert(out1.subrange(at, next) =~= upto1.subrange(at, next));
    assert(out2.subrange(at, next) =~= upto2.subrange(at, next));
    let row = row_at(buf, k);
    if codes[k].len() <= 3 || first_occurrence(buf, row, k as nat) is None {
        assert(upto1.subrange(at, next) =~= codes[k]);
        assert(upto2.subrange(at, next) =~= codes[k]);
    } else {
        lemma_first_occurrence(buf, row, k as nat);
        let m = first_occurrence(buf, row, k as nat)->Some_0 as int;
        lemma_offsets_ignore_origin(buf, o1, o2, codes, m);
        assert(ck.subrange(0, m) =~= codes.subrange(0, m));
        let a = row_offset(buf, o1, codes, m);
        assert(upto1.subrange(at, next) =~= backref(o1 + a));
        assert(upto2.subrange(at, next) =~= backref(o2 + a));
    }
}

} // verus!
