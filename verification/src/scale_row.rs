//! Block upsampling of a low-resolution sample row.
//!
//! When one sample is computed per `scale` screen pixels, the finished row of
//! samples is expanded into a `scale` x `scale` block per sample: each sample
//! is transformed once per output row and duplicated across its block —
//! nearest-neighbour magnification, not interpolation.
use vstd::prelude::*;

verus! {

/// Linear index of output cell (`rr`, `cc`, `kk`): row `rr` of the block,
/// source sample `cc`, column `kk` within the sample's block. Every output
/// index below `n * s * s` has exactly one such decomposition.
pub open spec fn block_cell(n: int, s: int, rr: int, cc: int, kk: int) -> int {
    rr * (n * s) + cc * s + kk
}

/// Triple (`r1`, `c1`, `k1`) comes strictly before (`r2`, `c2`, `k2`) in the
/// order the block is written.
pub open spec fn cell_lt(r1: int, c1: int, k1: int, r2: int, c2: int, k2: int) -> bool {
    r1 < r2 || (r1 == r2 && (c1 < c2 || (c1 == c2 && k1 < k2)))
}

/// Every output index below `n * s * s` is some cell of the block layout:
/// the contract of the block writer therefore speaks about every cell of an
/// exactly-sized output.
pub proof fn lemma_block_cell_covers(n: int, s: int, o: int)
    requires
        0 < n,
        0 < s,
        0 <= o < n * s * s,
    ensures
        ({
            let rr = o / (n * s);
            let cc = (o % (n * s)) / s;
            let kk = (o % (n * s)) % s;
            0 <= rr < s && 0 <= cc < n && 0 <= kk < s && o == block_cell(n, s, rr, cc, kk)
        }),
{
    let ns = n * s;
    assert(0 < ns) by (nonlinear_arith)
        requires
            ns == n * s,
            0 < n,
            0 < s,
    ;
    vstd::arithmetic::div_mod::lemma_fundamental_div_mod(o, ns);
    let rr = o / ns;
    let rem = o % ns;
    assert(0 <= rem < ns) by (nonlinear_arith)
        requires
            0 < ns,
            rem == o % ns,
    ;
    assert(0 <= rr < s) by (nonlinear_arith)
        requires
            o == ns * rr + rem,
            0 <= rem < ns,
            0 <= o < ns * s,
            0 < ns,
    ;
    vstd::arithmetic::div_mod::lemma_fundamental_div_mod(rem, s);
    let cc = rem / s;
    let kk = rem % s;
    assert(0 <= kk < s) by (nonlinear_arith)
        requires
            0 < s,
            kk == rem % s,
    ;
    assert(0 <= cc < n) by (nonlinear_arith)
        requires
            rem == s * cc + kk,
            0 <= kk < s,
            0 <= rem < n * s,
            0 < s,
    ;
    assert(o == block_cell(n, s, rr, cc, kk)) by (nonlinear_arith)
        requires
            o == ns * rr + rem,
            rem == s * cc + kk,
            ns == n * s,
            block_cell(n, s, rr, cc, kk) == rr * (n * s) + cc * s + kk,
    ;
}

proof fn lemma_block_cell_bound(n: int, s: int, rr: int, cc: int, kk: int)
    requires
        0 <= rr < s,
        0 <= cc < n,
        0 <= kk < s,
    ensures
        0 <= block_cell(n, s, rr, cc, kk),
        block_cell(n, s, rr, cc, kk) < n * s * s,
{
    assert(0 <= rr * (n * s) + cc * s + kk < n * s * s) by (nonlinear_arith)
        requires
            0 <= rr < s,
            0 <= cc < n,
            0 <= kk < s,
    ;
}

proof fn lemma_block_cell_mono(n: int, s: int, r1: int, c1: int, k1: int, r2: int, c2: int, k2: int)
    requires
        0 <= r1 < s,
        0 <= c1 < n,
        0 <= k1 < s,
        0 <= r2 < s,
        0 <= c2 < n,
        0 <= k2 < s,
        cell_lt(r1, c1, k1, r2, c2, k2),
    ensures
        block_cell(n, s, r1, c1, k1) < block_cell(n, s, r2, c2, k2),
{
    if r1 < r2 {
        assert(r1 * (n * s) + c1 * s + k1 < r2 * (n * s) + c2 * s + k2) by (nonlinear_arith)
            requires
                0 <= c1 < n,
                0 <= k1 < s,
                0 <= c2,
                0 <= k2,
                r1 < r2,
                0 <= r1,
        ;
    } else if c1 < c2 {
        assert(r1 * (n * s) + c1 * s + k1 < r1 * (n * s) + c2 * s + k2) by (nonlinear_arith)
            requires
                0 <= k1 < s,
                0 <= k2,
                c1 < c2,
        ;
    } else {
    }
}

/// Expand `input` into `output` as `scale` x `scale` blocks: each output cell
/// of block row `rr`, source sample `cc`, block column `kk` holds a value the
/// transform may return for `input[cc]`. The transform runs once per block
/// row and sample; its result is duplicated across the block's columns.
pub fn write_scaled_block<In: Copy, Out: Copy, F: Fn(In) -> Out>(
    output: &mut Vec<Out>,
    input: &Vec<In>,
    scale: usize,
    transform: F,
)
    requires
        scale >= 1,
        old(output).len() == input.len() * scale * scale,
        forall|i: int| 0 <= i < input.len() ==> call_requires(transform, (#[trigger] input[i],)),
    ensures
        final(output).len() == old(output).len(),
        forall|rr: int, cc: int, kk: int|
            0 <= rr < scale && 0 <= cc < input.len() && 0 <= kk < scale ==> call_ensures(
                transform,
                (input[cc],),
                final(output)[#[trigger] block_cell(
                    input.len() as int,
                    scale as int,
                    rr,
                    cc,
                    kk,
                )],
            ),
{
    let n: usize = input.len();
    let ghost ni: int = n as int;
    let ghost si: int = scale as int;
    proof {
        assert(ni * si * 1 <= ni * si * si && ni * si >= 0) by (nonlinear_arith)
            requires
                1 <= si,
                0 <= ni,
        ;
    }
    let row_len: usize = n * scale;
    let mut r: usize = 0;
    while r < scale
        invariant
            output.len() == ni * si * si,
            ni == n as int,
            si == scale as int,
            n == input.len(),
            row_len == ni * si,
            scale >= 1,
            r <= scale,
            forall|i: int| 0 <= i < input.len() ==> call_requires(transform, (#[trigger] input[i],)),
            forall|rr: int, cc: int, kk: int|
                0 <= rr < si && 0 <= cc < ni && 0 <= kk < si && cell_lt(rr, cc, kk, r as int, 0, 0)
                    ==> call_ensures(
                    transform,
                    (input[cc],),
                    output[#[trigger] block_cell(ni, si, rr, cc, kk)],
                ),
        decreases scale - r,
    {
        let mut c: usize = 0;
        while c < n
            invariant
                output.len() == ni * si * si,
                ni == n as int,
                si == scale as int,
                n == input.len(),
                row_len == ni * si,
                scale >= 1,
                r < scale,
                c <= n,
                forall|i: int|
                    0 <= i < input.len() ==> call_requires(transform, (#[trigger] input[i],)),
                forall|rr: int, cc: int, kk: int|
                    0 <= rr < si && 0 <= cc < ni && 0 <= kk < si && cell_lt(
                        rr,
                        cc,
                        kk,
                        r as int,
                        c as int,
                        0,
                    ) ==> call_ensures(
                        transform,
                        (input[cc],),
                        output[#[trigger] block_cell(ni, si, rr, cc, kk)],
                    ),
            decreases n - c,
        {
            let v: Out = transform(input[c]);
            let mut k: usize = 0;
            while k < scale
                invariant
                    output.len() == ni * si * si,
                    ni == n as int,
                    si == scale as int,
                    n == input.len(),
                    row_len == ni * si,
                    scale >= 1,
                    r < scale,
                    c < n,
                    k <= scale,
                    call_ensures(transform, (input[c as int],), v),
                    forall|i: int|
                        0 <= i < input.len() ==> call_requires(transform, (#[trigger] input[i],)),
                    forall|rr: int, cc: int, kk: int|
                        0 <= rr < si && 0 <= cc < ni && 0 <= kk < si && cell_lt(
                            rr,
                            cc,
                            kk,
                            r as int,
                            c as int,
                            k as int,
                        ) ==> call_ensures(
                            transform,
                            (input[cc],),
                            output[#[trigger] block_cell(ni, si, rr, cc, kk)],
                        ),
                decreases scale - k,
            {
                proof {
                    lemma_block_cell_bound(ni, si, r as int, c as int, k as int);
                    assert(r * row_len + c * scale + k == block_cell(
                        ni,
                        si,
                        r as int,
                        c as int,
                        k as int,
                    )) by (nonlinear_arith)
                        requires
                            row_len == ni * si,
                            ni == n,
                            si == scale,
                    ;
                }
                let o: usize = r * row_len + c * scale + k;
                output[o] = v;
                proof {
                    assert forall|rr: int, cc: int, kk: int|
                        0 <= rr < si && 0 <= cc < ni && 0 <= kk < si && cell_lt(
                            rr,
                            cc,
                            kk,
                            r as int,
                            c as int,
                            k + 1,
                        ) implies call_ensures(
                        transform,
                        (input[cc],),
                        output[block_cell(ni, si, rr, cc, kk)],
                    ) by {
                        if rr == r && cc == c && kk == k {
                        } else {
                            assert(cell_lt(rr, cc, kk, r as int, c as int, k as int));
                            lemma_block_cell_mono(ni, si, rr, cc, kk, r as int, c as int, k as int);
                        }
                    }
                }
                k = k + 1;
            }
            c = c + 1;
        }
        r = r + 1;
    }
}

} // verus!
