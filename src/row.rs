//! The row encoder: the shortest code of one row, by dynamic programming.
use vstd::prelude::*;
use crate::format::{max_repeat, min_repeat, repeat_seq, ROW_WIDTH};
use crate::tokens::{
    encodes_row, is_minimal_code, lemma_repeat_head, lemma_repeat_len, lemma_token_sizes,
    lemma_tokens_concat, token_cells, token_code, token_legal, tokens_cells, tokens_code,
    tokens_legal, Token,
};

verus! {

/// Cost the table starts from: not reached yet.
pub const UNREACHED: usize = 0xFFFF_FFFF;

/// The `m` blocks of `j` bytes from `i` are all equal to the first one.
pub open spec fn is_run(row: Seq<u8>, i: int, j: int, m: int) -> bool {
    row.subrange(i, i + m * j) == repeat_seq(row.subrange(i, i + j), m as nat)
}

/// A run of `m` copies of the `j` bytes at `i` can be written as one token.
pub open spec fn run_step(row: Seq<u8>, i: int, j: int, m: int) -> bool {
    &&& 0 <= i
    &&& 1 <= j <= 4
    &&& m >= min_repeat(j as nat)
    &&& i + m * j <= 20
    &&& is_run(row, i, j, m)
}

/// Every step out of the positions before `n` has been relaxed in `dp`.
pub open spec fn relaxed_upto(row: Seq<u8>, dp: Seq<usize>, n: int) -> bool {
    &&& forall|k: int| 0 <= k < n ==> #[trigger] dp[k + 1] <= dp[k] + 1
    &&& forall|k: int, j: int, m: int|
        0 <= k < n && #[trigger] run_step(row, k, j, m) ==> dp[k + m * j] <= dp[k] + 1 + j
}

/// The step `e` (start, unit, repeat) ends at `k` and gives `dp[k]`.
pub open spec fn step_ok(row: Seq<u8>, dp: Seq<usize>, e: (usize, usize, usize), k: int) -> bool {
    if e.1 == 0 {
        e.0 + 1 == k && dp[k] == dp[e.0 as int] + 1
    } else {
        &&& run_step(row, e.0 as int, e.1 as int, e.2 as int)
        &&& e.0 + e.2 * e.1 == k
        &&& dp[k] == dp[e.0 as int] + 1 + e.1
    }
}

/// The token that the step `e` writes.
pub open spec fn step_token(row: Seq<u8>, e: (usize, usize, usize)) -> Token {
    if e.1 == 0 {
        Token { unit: 0, repeat: 1, bytes: row.subrange(e.0 as int, e.0 + 1) }
    } else {
        Token { unit: e.1 as nat, repeat: e.2 as nat, bytes: row.subrange(e.0 as int, e.0 + e.1) }
    }
}

/// `m` blocks are a run exactly when `m - 1` are and the last block equals the first.
pub proof fn lemma_run_extend(row: Seq<u8>, i: int, j: int, m: int)
    requires
        0 <= i,
        j >= 1,
        m >= 1,
        i + m * j <= row.len(),
    ensures
        is_run(row, i, j, m) <==> (is_run(row, i, j, m - 1) && row.subrange(i + (m - 1) * j, i + m * j)
            == row.subrange(i, i + j)),
{
    let s = row.subrange(i, i + j);
    assert((m - 1) * j + j == m * j) by (nonlinear_arith);
    assert((m - 1) * j >= 0) by (nonlinear_arith)
        requires
            m >= 1,
            j >= 1,
    ;
    lemma_repeat_len(s, (m - 1) as nat);
    assert(repeat_seq(s, m as nat) == repeat_seq(s, (m - 1) as nat) + s);
    let a = row.subrange(i, i + (m - 1) * j);
    let b = row.subrange(i + (m - 1) * j, i + m * j);
    assert(row.subrange(i, i + m * j) =~= a + b);
    if is_run(row, i, j, m) {
        assert(a =~= (a + b).subrange(0, (m - 1) * j));
        assert(b =~= (a + b).subrange((m - 1) * j, m * j));
        assert((repeat_seq(s, (m - 1) as nat) + s).subrange(0, (m - 1) * j) =~= repeat_seq(s, (m - 1) as nat));
        assert((repeat_seq(s, (m - 1) as nat) + s).subrange((m - 1) * j, m * j) =~= s);
    }
}

/// A run of `m2` blocks holds a run of each smaller number of blocks.
pub proof fn lemma_run_prefix(row: Seq<u8>, i: int, j: int, m: int, m2: int)
    requires
        0 <= i,
        j >= 1,
        1 <= m <= m2,
        i + m2 * j <= row.len(),
        is_run(row, i, j, m2),
    ensures
        is_run(row, i, j, m),
    decreases m2 - m,
{
    if m < m2 {
        lemma_run_extend(row, i, j, m2);
        assert(i + (m2 - 1) * j <= i + m2 * j) by (nonlinear_arith)
            requires
                j >= 1,
        ;
        lemma_run_prefix(row, i, j, m, m2 - 1);
    }
}

/// No legal tokens for a prefix of the row cost less than the table says.
pub proof fn lemma_dp_lower_bound(row: Seq<u8>, dp: Seq<usize>, ts: Seq<Token>)
    requires
        row.len() == 20,
        dp.len() == 21,
        dp[0] == 0,
        relaxed_upto(row, dp, 20),
        tokens_legal(ts),
        tokens_cells(ts).len() <= 20,
        tokens_cells(ts) == row.subrange(0, tokens_cells(ts).len() as int),
    ensures
        dp[tokens_cells(ts).len() as int] <= tokens_code(ts).len(),
    decreases ts.len(),
{
    if ts.len() > 0 {
        let init = ts.drop_last();
        let t = ts.last();
        assert(tokens_legal(init)) by {
            assert forall|i: int| 0 <= i < init.len() implies token_legal(#[trigger] init[i]) by {
                assert(init[i] == ts[i]);
            }
        }
        assert(token_legal(ts[ts.len() - 1]));
        let k0 = tokens_cells(init).len() as int;
        let k = tokens_cells(ts).len() as int;
        lemma_token_sizes(t);
        assert(tokens_cells(ts) == tokens_cells(init) + token_cells(t));
        assert(tokens_code(ts) == tokens_code(init) + token_code(t));
        assert(tokens_cells(init) =~= row.subrange(0, k0)) by {
            assert(tokens_cells(init) =~= tokens_cells(ts).subrange(0, k0));
        }
        lemma_dp_lower_bound(row, dp, init);
        let cells = token_cells(t);
        assert(cells =~= row.subrange(k0, k)) by {
            assert(cells =~= tokens_cells(ts).subrange(k0, k));
        }
        assert(dp[k0] <= tokens_code(init).len());
        if t.unit == 0 {
            assert(k == k0 + 1);
            assert(dp[k0 + 1] <= dp[k0] + 1);
        } else {
            let j = t.unit as int;
            let m = t.repeat as int;
            lemma_repeat_head(t.bytes, t.repeat);
            assert(t.bytes =~= row.subrange(k0, k0 + j)) by {
                assert(cells.subrange(0, j) =~= row.subrange(k0, k0 + j));
            }
            assert(k == k0 + m * j);
            assert(is_run(row, k0, j, m));
            assert(run_step(row, k0, j, m));
            assert(dp[k0 + m * j] <= dp[k0] + 1 + j);
        }
    }
}

/// The shortest code of a row of twenty bytes.
pub fn encode_row(row: &[u8]) -> (r: Vec<u8>)
    requires
        row@.len() == 20,
    ensures
        is_minimal_code(r@, row@),
        r@.len() <= 20,
{
    let mut dp: Vec<usize> = Vec::new();
    let mut from: Vec<(usize, usize, usize)> = Vec::new();
    let mut k: usize = 0;
    while k <= ROW_WIDTH
        invariant
            k <= 21,
            dp@.len() == k,
            from@.len() == k,
            forall|q: int| 0 <= q < k ==> dp@[q] == (if q == 0 { 0 } else { UNREACHED }),
        decreases 21 - k,
    {
        dp.push(if k == 0 { 0 } else { UNREACHED });
        from.push((0, 0, 0));
        k = k + 1;
    }
    let mut i: usize = 0;
    while i < ROW_WIDTH
        invariant
            row@.len() == 20,
            i <= 20,
            dp@.len() == 21,
            from@.len() == 21,
            dp@[0] == 0,
            forall|q: int| 0 <= q <= i ==> dp@[q] <= q,
            forall|q: int| i < q <= 20 ==> dp@[q] <= UNREACHED,
            forall|q: int|
                1 <= q <= 20 && dp@[q] != UNREACHED ==> (#[trigger] from@[q]).0 < i && step_ok(
                    row@,
                    dp@,
                    from@[q],
                    q,
                ),
            relaxed_upto(row@, dp@, i as int),
        decreases 20 - i,
    {
        let ghost dp_i = dp@;
        if dp[i] + 1 < dp[i + 1] {
            dp.set(i + 1, dp[i] + 1);
            from.set(i + 1, (i, 0, 0));
        }
        let j_max: usize = if ROW_WIDTH - i < 4 {
            ROW_WIDTH - i
        } else {
            4
        };
        let mut j: usize = 1;
        while j <= j_max
            invariant
                row@.len() == 20,
                i < 20,
                j_max <= 4,
                i + j_max <= 20,
                1 <= j <= j_max + 1,
                dp@.len() == 21,
                from@.len() == 21,
                forall|q: int| 0 <= q <= i ==> dp@[q] == dp_i[q],
                dp@[0] == 0,
                forall|q: int| 0 <= q <= i + 1 ==> dp@[q] <= q,
                forall|q: int| i < q <= 20 ==> dp@[q] <= UNREACHED,
                forall|q: int|
                    1 <= q <= 20 && dp@[q] != UNREACHED ==> (#[trigger] from@[q]).0 <= i && step_ok(
                        row@,
                        dp@,
                        from@[q],
                        q,
                    ),
                forall|k: int| 0 <= k < i ==> #[trigger] dp@[k + 1] <= dp@[k] + 1,
                dp@[i + 1] <= dp@[i as int] + 1,
                forall|k: int, jj: int, m: int|
                    0 <= k < i && #[trigger] run_step(row@, k, jj, m) ==> dp@[k + m * jj] <= dp@[k] + 1 + jj,
                forall|jj: int, m: int|
                    jj < j && #[trigger] run_step(row@, i as int, jj, m) ==> dp@[i + m * jj] <= dp@[i as int] + 1 + jj,
            decreases j_max + 1 - j,
        {
            let mut m: usize = 2;
            let mut r: usize = i + 2 * j;
            let mut go: bool = true;
            proof {
                assert(row@.subrange(i as int, i + 1 * j) =~= repeat_seq(row@.subrange(i as int, i + j), 1)) by {
                    assert(repeat_seq(row@.subrange(i as int, i + j), 0) =~= Seq::<u8>::empty());
                }
            }
            while go && r <= ROW_WIDTH
                invariant
                    row@.len() == 20,
                    i < 20,
                    1 <= j <= 4,
                    i + j <= 20,
                    m >= 2,
                    r == i + m * j,
                    r <= 24,
                    dp@.len() == 21,
                    from@.len() == 21,
                    forall|q: int| 0 <= q <= i ==> dp@[q] == dp_i[q],
                    dp@[0] == 0,
                    forall|q: int| 0 <= q <= i + 1 ==> dp@[q] <= q,
                    forall|q: int| i < q <= 20 ==> dp@[q] <= UNREACHED,
                    forall|q: int|
                        1 <= q <= 20 && dp@[q] != UNREACHED ==> (#[trigger] from@[q]).0 <= i && step_ok(
                            row@,
                            dp@,
                            from@[q],
                            q,
                        ),
                    forall|k: int| 0 <= k < i ==> #[trigger] dp@[k + 1] <= dp@[k] + 1,
                    dp@[i + 1] <= dp@[i as int] + 1,
                    forall|k: int, jj: int, mm: int|
                        0 <= k < i && #[trigger] run_step(row@, k, jj, mm) ==> dp@[k + mm * jj] <= dp@[k] + 1 + jj,
                    forall|jj: int, mm: int|
                        jj < j && #[trigger] run_step(row@, i as int, jj, mm) ==> dp@[i + mm * jj] <= dp@[i as int] + 1
                            + jj,
                    go ==> is_run(row@, i as int, j as int, m - 1),
                    forall|mm: int|
                        2 <= mm < m && #[trigger] run_step(row@, i as int, j as int, mm) ==> dp@[i + mm * j] <= dp@[i as int]
                            + 1 + j,
                    !go ==> forall|mm: int| mm >= m && i + mm * j <= 20 ==> !#[trigger] is_run(row@, i as int, j as int, mm),
                decreases (25 - r) * 2 + if go { 1int } else { 0int },
            {
                let mut q: usize = 0;
                let mut same: bool = true;
                proof {
                    assert(r >= i + j + j) by (nonlinear_arith)
                        requires
                            r == i + m * j,
                            m >= 2,
                            j >= 1,
                    ;
                    assert(row@.subrange(r - j, r - j) =~= row@.subrange(i as int, i as int));
                }
                while q < j
                    invariant
                        row@.len() == 20,
                        q <= j,
                        r <= 20,
                        r >= i + j + j,
                        i + j <= 20,
                        same <==> (row@.subrange(r - j, r - j + q) == row@.subrange(i as int, i + q)),
                    decreases j - q,
                {
                    proof {
                        let a = row@.subrange(r - j, r - j + q + 1);
                        let b = row@.subrange(i as int, i + q + 1);
                        assert(a.drop_last() =~= row@.subrange(r - j, r - j + q));
                        assert(b.drop_last() =~= row@.subrange(i as int, i + q));
                        assert(a.last() == row@[r - j + q]);
                        assert(b.last() == row@[i + q]);
                        if a.drop_last() == b.drop_last() && a.last() == b.last() {
                            assert(a =~= b);
                        }
                    }
                    if row[r - j + q] != row[i + q] {
                        same = false;
                    }
                    q = q + 1;
                }
                proof {
                    assert(r - j == i + (m - 1) * j) by (nonlinear_arith)
                        requires
                            r == i + m * j,
                    ;
                    lemma_run_extend(row@, i as int, j as int, m as int);
                    assert(row@.subrange(r - j, r - j + j) == row@.subrange(r - j, r as int));
                }
                if !same {
                    go = false;
                    proof {
                        assert forall|mm: int| mm >= m && i + mm * j <= 20 implies !#[trigger] is_run(
                            row@,
                            i as int,
                            j as int,
                            mm,
                        ) by {
                            if is_run(row@, i as int, j as int, mm) {
                                lemma_run_prefix(row@, i as int, j as int, m as int, mm);
                            }
                        }
                    }
                } else {
                    let ghost dp_before = dp@;
                    assert(m <= 20) by (nonlinear_arith)
                        requires
                            r == i + m * j,
                            r <= 20,
                            j >= 1,
                    ;
                    if !(j == 1 && m == 2) {
                        if dp[i] + 1 + j < dp[r] {
                            dp.set(r, dp[i] + 1 + j);
                            from.set(r, (i, j, m));
                        }
                    }
                    proof {
                        assert(run_step(row@, i as int, j as int, m as int) ==> dp@[i + m * j] <= dp@[i as int] + 1 + j);
                    }
                    m = m + 1;
                    r = r + j;
                    proof {
                        assert(r == i + m * j) by (nonlinear_arith)
                            requires
                                r == i + (m - 1) * j + j,
                        ;
                    }
                }
            }
            proof {
                assert forall|jj: int, mm: int|
                    jj < j + 1 && #[trigger] run_step(row@, i as int, jj, mm) implies dp@[i + mm * jj] <= dp@[i as int] + 1
                        + jj by {
                    if jj == j && mm >= m {
                        if go {
                            assert(i + mm * j >= i + m * j) by (nonlinear_arith)
                                requires
                                    mm >= m,
                                    j >= 1,
                            ;
                        }
                    }
                }
            }
            j = j + 1;
        }
        proof {
            assert forall|jj: int, mm: int| #[trigger] run_step(row@, i as int, jj, mm) implies dp@[i + mm * jj]
                <= dp@[i as int] + 1 + jj by {
                if jj > j_max {
                    assert(i + mm * jj >= i + 2 * jj) by (nonlinear_arith)
                        requires
                            mm >= 2,
                            jj >= 1,
                    ;
                }
            }
        }
        i = i + 1;
    }
    // Walk the chosen steps back from the end of the row.
    let mut trace: Vec<(usize, usize, usize)> = Vec::new();
    let ghost mut ts: Seq<Token> = Seq::empty();
    let mut pos: usize = ROW_WIDTH;
    while pos != 0
        invariant
            row@.len() == 20,
            pos <= 20,
            dp@.len() == 21,
            from@.len() == 21,
            dp@[0] == 0,
            forall|q: int| 0 <= q <= 20 ==> dp@[q] <= q,
            forall|q: int| 1 <= q <= 20 ==> step_ok(row@, dp@, #[trigger] from@[q], q),
            ts.len() == trace@.len(),
            forall|t: int| 0 <= t < ts.len() ==> #[trigger] ts[t] == step_token(row@, trace@[ts.len() - 1 - t]),
            forall|t: int|
                0 <= t < trace@.len() ==> {
                    let e = #[trigger] trace@[t];
                    &&& e.0 < 20
                    &&& e.1 <= 4
                    &&& e.0 + e.1 <= 20
                    &&& e.1 == 0 || min_repeat(e.1 as nat) <= e.2 <= max_repeat(e.1 as nat)
                },
            tokens_legal(ts),
            tokens_cells(ts) == row@.subrange(pos as int, 20),
            tokens_code(ts).len() == dp@[20] - dp@[pos as int],
        decreases pos,
    {
        let e = from[pos];
        let ghost t = step_token(row@, e);
        proof {
            assert(step_ok(row@, dp@, from@[pos as int], pos as int));
            if e.1 == 0 {
                assert(repeat_seq(t.bytes, 0) =~= Seq::<u8>::empty());
                assert(token_cells(t) =~= row@.subrange(e.0 as int, pos as int));
            } else {
                assert(e.2 * e.1 <= 20);
                let (u, m) = (e.1 as int, e.2 as int);
                if u == 1 {
                    assert(m <= 20) by (nonlinear_arith)
                        requires
                            m * u <= 20,
                            u == 1,
                    ;
                } else if u == 2 {
                    assert(m <= 10) by (nonlinear_arith)
                        requires
                            m * u <= 20,
                            u == 2,
                    ;
                } else if u == 3 {
                    assert(m <= 6) by (nonlinear_arith)
                        requires
                            m * u <= 20,
                            u == 3,
                    ;
                } else if u == 4 {
                    assert(m <= 5) by (nonlinear_arith)
                        requires
                            m * u <= 20,
                            u == 4,
                    ;
                }
                assert(e.2 * e.1 >= e.1) by (nonlinear_arith)
                    requires
                        e.2 >= 2,
                        e.1 >= 1,
                ;
                assert(token_cells(t) == row@.subrange(e.0 as int, pos as int));
            }
            assert(t.unit == e.1);
            if e.1 != 0 {
                assert(min_repeat(t.unit) <= t.repeat);
                assert(t.repeat <= max_repeat(t.unit));
                assert(t.bytes.len() == t.unit);
            }
            assert(token_legal(t));
            lemma_token_sizes(t);
            assert(tokens_code(Seq::<Token>::empty()) == Seq::<u8>::empty());
            assert(tokens_cells(Seq::<Token>::empty()) == Seq::<u8>::empty());
            lemma_tokens_concat(seq![t], ts);
            assert(seq![t].drop_last() =~= Seq::<Token>::empty());
            assert(tokens_code(seq![t]) =~= token_code(t));
            assert(tokens_cells(seq![t]) =~= token_cells(t));
            assert(row@.subrange(e.0 as int, 20) =~= row@.subrange(e.0 as int, pos as int) + row@.subrange(
                pos as int,
                20,
            ));
            let nts = seq![t] + ts;
            assert forall|q: int| 0 <= q < nts.len() implies token_legal(#[trigger] nts[q]) by {
                if q > 0 {
                    assert(nts[q] == ts[q - 1]);
                }
            }
        }
        trace.push(e);
        proof {
            let nts = seq![t] + ts;
            assert forall|q: int| 0 <= q < nts.len() implies #[trigger] nts[q] == step_token(
                row@,
                trace@[nts.len() - 1 - q],
            ) by {
                if q > 0 {
                    assert(nts[q] == ts[q - 1]);
                }
            }
            ts = nts;
        }
        pos = e.0;
    }
    // Write the steps out in row order.
    let mut res: Vec<u8> = Vec::new();
    let n = trace.len();
    let mut idx: usize = n;
    while idx > 0
        invariant
            row@.len() == 20,
            n == trace@.len(),
            n == ts.len(),
            idx <= n,
            forall|t: int| 0 <= t < ts.len() ==> #[trigger] ts[t] == step_token(row@, trace@[ts.len() - 1 - t]),
            forall|t: int|
                0 <= t < trace@.len() ==> {
                    let e = #[trigger] trace@[t];
                    &&& e.0 < 20
                    &&& e.1 <= 4
                    &&& e.0 + e.1 <= 20
                    &&& e.1 == 0 || min_repeat(e.1 as nat) <= e.2 <= max_repeat(e.1 as nat)
                },
            res@ == tokens_code(ts.subrange(0, (n - idx) as int)),
        decreases idx,
    {
        let e = trace[idx - 1];
        let ghost before = res@;
        let ghost t = ts[(n - idx) as int];
        let (start, unit, rep) = e;
        if unit == 0 {
            res.push(row[start]);
        } else {
            let op: u8 = if unit == 1 {
                0xEB + rep as u8
            } else if unit == 2 {
                0xE3 + rep as u8
            } else if unit == 3 {
                0xDE + rep as u8
            } else {
                0xDA + rep as u8
            };
            res.push(op);
            res.extend_from_slice(vstd::slice::slice_subrange(row, start, start + unit));
        }
        proof {
            assert(t == step_token(row@, e));
            assert(res@ =~= before + token_code(t));
            assert(ts.subrange(0, (n - idx + 1) as int).drop_last() =~= ts.subrange(0, (n - idx) as int));
        }
        idx = idx - 1;
    }
    proof {
        assert(ts.subrange(0, n as int) =~= ts);
        assert(row@.subrange(0, 20) =~= row@);
        assert(encodes_row(res@, row@));
        assert forall|us: Seq<Token>| tokens_legal(us) && #[trigger] tokens_cells(us) == row@ implies res@.len()
            <= tokens_code(us).len() by {
            lemma_dp_lower_bound(row@, dp@, us);
        }
    }
    res
}

} // verus!
