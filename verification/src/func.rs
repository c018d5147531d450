//! The older renderer's polynomial: parallel coefficient and power vectors.
//!
//! Construction consolidates the given (coefficient, power) pairs: for each
//! power the coefficients are summed exactly, powers whose sum is zero are
//! dropped, and the surviving terms are kept in descending power order.
//! Formatting the formula back to text is exact as well; only evaluation
//! over complex numbers happens outside this crate, on the terms held here.
use vstd::prelude::*;

verus! {

/// The (coefficient, power) pairs of two parallel vectors, cut to the
/// shorter length.
pub open spec fn zip_pairs(coef: Seq<i32>, pow: Seq<i32>) -> Seq<(int, int)> {
    Seq::new(
        if coef.len() <= pow.len() {
            coef.len()
        } else {
            pow.len()
        },
        |i: int| (coef[i] as int, pow[i] as int),
    )
}

/// The exact sum of all coefficients given for power `p`.
pub open spec fn sum_for(pairs: Seq<(int, int)>, p: int) -> int
    decreases pairs.len(),
{
    if pairs.len() == 0 {
        0
    } else {
        sum_for(pairs.drop_last(), p) + if pairs.last().1 == p {
            pairs.last().0
        } else {
            0
        }
    }
}

/// Some entry of `ps` equals `p`.
pub open spec fn has_power(ps: Seq<i32>, p: int) -> bool {
    exists|k: int| 0 <= k < ps.len() && ps[k] == p
}

/// The decimal digits of a non-negative number, most significant first.
pub open spec fn digits_spec(v: int) -> Seq<u8>
    decreases v,
    when v >= 0
{
    if v < 10 {
        seq![(v + 48) as u8]
    } else {
        digits_spec(v / 10).push((v % 10 + 48) as u8)
    }
}

/// A signed number in decimal.
pub open spec fn int_str(c: int) -> Seq<u8> {
    if c < 0 {
        seq![45u8] + digits_spec(-c)
    } else {
        digits_spec(c)
    }
}

/// One formatted term: the coefficient (omitted when it is one, a bare
/// minus when it is minus one, except for constant terms), then `z`,
/// `z^p` or nothing by the power.
pub open spec fn format_term_spec(c: int, p: int) -> Seq<u8> {
    let pre: Seq<u8> = if p == 0 {
        int_str(c)
    } else if c == 1 {
        Seq::<u8>::empty()
    } else if c == -1 {
        seq![45u8]
    } else {
        int_str(c)
    };
    let post: Seq<u8> = if p == 0 {
        Seq::<u8>::empty()
    } else if p == 1 {
        seq![122u8]
    } else {
        seq![122u8, 94u8] + int_str(p)
    };
    pre + post
}

/// The formatted terms from index `i` on: a plus sign joins a positive
/// term to its predecessor, a negative term supplies its own minus.
pub open spec fn format_terms_from(cs: Seq<i64>, ps: Seq<i32>, i: int) -> Seq<u8>
    decreases cs.len() - i,
{
    if i < 0 || i >= cs.len() || i >= ps.len() {
        Seq::<u8>::empty()
    } else {
        let sep: Seq<u8> = if i > 0 && cs[i] > 0 {
            seq![43u8]
        } else {
            Seq::<u8>::empty()
        };
        sep + format_term_spec(cs[i] as int, ps[i] as int) + format_terms_from(cs, ps, i + 1)
    }
}

/// The characters an ASCII byte sequence spells.
pub open spec fn ascii_chars(bytes: Seq<u8>) -> Seq<char> {
    Seq::new(bytes.len(), |i: int| bytes[i] as char)
}

/// Relies on String::from_utf8: bytes below 128 decode to exactly those
/// characters, and such bytes are always valid UTF-8.
#[verifier::external_body]
fn ascii_string(bytes: Vec<u8>) -> (r: String)
    requires
        forall|k: int| 0 <= k < bytes@.len() ==> bytes@[k] < 128,
    ensures
        r@ == ascii_chars(bytes@),
{
    String::from_utf8(bytes).unwrap_or_default()
}

/// Append the decimal digits of `v`.
fn push_digits(v: u64, out: &mut Vec<u8>)
    ensures
        final(out)@ == old(out)@ + digits_spec(v as int),
        forall|k: int|
            old(out)@.len() <= k < final(out)@.len() ==> 48 <= #[trigger] final(out)@[k] <= 57,
        forall|k: int| 0 <= k < old(out)@.len() ==> final(out)@[k] == old(out)@[k],
    decreases v,
{
    let ghost sofar = out@;
    if v >= 10 {
        push_digits(v / 10, out);
    }
    let ghost mid = out@;
    out.push((v % 10) as u8 + 48);
    proof {
        if v < 10 {
            assert(out@ =~= sofar + seq![(v as int + 48) as u8]);
        } else {
            assert(mid == sofar + digits_spec(v as int / 10));
            assert(out@ =~= sofar + digits_spec(v as int / 10).push((v as int % 10 + 48) as u8));
        }
    }
}

/// Append a signed number in decimal.
fn push_int(c: i64, out: &mut Vec<u8>)
    ensures
        final(out)@ == old(out)@ + int_str(c as int),
        forall|k: int|
            old(out)@.len() <= k < final(out)@.len() ==> #[trigger] final(out)@[k] < 128,
        forall|k: int| 0 <= k < old(out)@.len() ==> final(out)@[k] == old(out)@[k],
{
    let ghost sofar = out@;
    if c < 0 {
        out.push(45u8);
        let ghost mid = out@;
        let mag: u64 = ((-(c + 1)) as u64) + 1;
        proof {
            assert(mag as int == -(c as int));
            assert(mid =~= sofar + seq![45u8]);
        }
        push_digits(mag, out);
        proof {
            assert((sofar + seq![45u8]) + digits_spec(mag as int) =~= sofar + (seq![45u8]
                + digits_spec(mag as int)));
        }
    } else {
        push_digits(c as u64, out);
    }
}

/// Append one formatted term.
fn push_term(c: i64, p: i32, out: &mut Vec<u8>)
    ensures
        final(out)@ == old(out)@ + format_term_spec(c as int, p as int),
        forall|k: int|
            old(out)@.len() <= k < final(out)@.len() ==> #[trigger] final(out)@[k] < 128,
        forall|k: int| 0 <= k < old(out)@.len() ==> final(out)@[k] == old(out)@[k],
{
    let ghost sofar = out@;
    let ghost pre: Seq<u8> = if p as int == 0 {
        int_str(c as int)
    } else if c as int == 1 {
        Seq::<u8>::empty()
    } else if c as int == -1 {
        seq![45u8]
    } else {
        int_str(c as int)
    };
    if p == 0 {
        push_int(c, out);
        proof {
            assert(out@ =~= sofar + (pre + Seq::<u8>::empty()));
        }
        return ;
    }
    if c == 1 {
    } else if c == -1 {
        out.push(45u8);
        proof {
            assert(out@ =~= sofar + seq![45u8]);
        }
    } else {
        push_int(c, out);
    }
    let ghost mid = out@;
    proof {
        assert(mid == sofar + pre);
    }
    if p == 1 {
        out.push(122u8);
        proof {
            assert(out@ =~= sofar + (pre + seq![122u8]));
        }
    } else {
        out.push(122u8);
        out.push(94u8);
        let ghost mid2 = out@;
        proof {
            assert(mid2 =~= (sofar + pre) + seq![122u8, 94u8]);
        }
        push_int(p as i64, out);
        proof {
            assert(int_str(p as i64 as int) == int_str(p as int));
            assert(((sofar + pre) + seq![122u8, 94u8]) + int_str(p as int) =~= sofar + (pre + (
            seq![122u8, 94u8] + int_str(p as int))));
        }
    }
}

/// A polynomial as parallel term vectors: one coefficient and one power per
/// term, powers descending and unique, no zero coefficients.
pub struct Func {
    coef: Vec<i64>,
    pow: Vec<i32>,
}

impl Func {
    /// The stored coefficients.
    pub closed spec fn coefs(self) -> Seq<i64> {
        self.coef@
    }

    /// The stored powers.
    pub closed spec fn pows(self) -> Seq<i32> {
        self.pow@
    }

    /// What construction guarantees: the stored terms are exactly the
    /// nonzero per-power sums of the given pairs, in descending power order.
    pub open spec fn consolidated(self, pairs: Seq<(int, int)>) -> bool {
        &&& self.coefs().len() == self.pows().len()
        &&& forall|i: int, j: int|
            0 <= i < j < self.pows().len() ==> self.pows()[i] > self.pows()[j]
        &&& forall|k: int|
            0 <= k < self.coefs().len() ==> #[trigger] self.coefs()[k] == sum_for(
                pairs,
                self.pows()[k] as int,
            ) && self.coefs()[k] != 0
        &&& forall|p: int| #[trigger] sum_for(pairs, p) != 0 ==> has_power(self.pows(), p)
    }

    /// Build a polynomial from coefficient and power vectors, consolidating
    /// duplicate powers and dropping zero sums.
    pub fn from_cp(coef: Vec<i32>, pow: Vec<i32>) -> (r: Func)
        requires
            coef.len() <= 0x1_0000_0000,
        ensures
            r.consolidated(zip_pairs(coef@, pow@)),
    {
        let (c, p) = Func::consolidate_terms(coef, pow);
        Func { coef: c, pow: p }
    }

    /// Sum coefficients per power and drop the powers whose sum is zero;
    /// the result is sorted by descending power.
    #[verifier::rlimit(60)]
    pub fn consolidate_terms(coef: Vec<i32>, pow: Vec<i32>) -> (r: (Vec<i64>, Vec<i32>))
        requires
            coef.len() <= 0x1_0000_0000,
        ensures
            r.0.len() == r.1.len(),
            forall|i: int, j: int| 0 <= i < j < r.1.len() ==> r.1@[i] > r.1@[j],
            forall|k: int|
                0 <= k < r.0.len() ==> #[trigger] r.0@[k] == sum_for(
                    zip_pairs(coef@, pow@),
                    r.1@[k] as int,
                ) && r.0@[k] != 0,
            forall|p: int|
                #[trigger] sum_for(zip_pairs(coef@, pow@), p) != 0 ==> has_power(r.1@, p),
    {
        let ghost pairs = zip_pairs(coef@, pow@);
        let n: usize = if coef.len() <= pow.len() {
            coef.len()
        } else {
            pow.len()
        };
        let mut ac: Vec<i64> = Vec::new();
        let mut ap: Vec<i32> = Vec::new();
        let mut i: usize = 0;
        while i < n
            invariant
                pairs == zip_pairs(coef@, pow@),
                pairs.len() == n,
                n <= coef.len() <= 0x1_0000_0000,
                n <= pow.len(),
                i <= n,
                ac.len() == ap.len(),
                forall|k1: int, k2: int| 0 <= k1 < k2 < ap.len() ==> ap@[k1] > ap@[k2],
                forall|k: int|
                    0 <= k < ac.len() ==> #[trigger] ac@[k] == sum_for(
                        pairs.take(i as int),
                        ap@[k] as int,
                    ),
                forall|q: int|
                    #[trigger] sum_for(pairs.take(i as int), q) != 0 ==> exists|k: int|
                        0 <= k < ap.len() && ap@[k] == q,
                forall|k: int|
                    0 <= k < ac.len() ==> -(i as int) * 0x8000_0000 <= #[trigger] ac@[k] <= (
                    i as int) * 0x8000_0000,
            decreases n - i,
        {
            let c: i64 = coef[i] as i64;
            let p: i32 = pow[i];
            proof {
                assert(pairs[i as int] == (coef@[i as int] as int, pow@[i as int] as int));
                assert(pairs.take(i + 1).drop_last() =~= pairs.take(i as int));
                assert(pairs.take(i + 1).last() == pairs[i as int]);
            }
            let mut j: usize = 0;
            while j < ap.len() && ap[j] > p
                invariant
                    j <= ap.len(),
                    ac.len() == ap.len(),
                    forall|k: int| 0 <= k < j ==> ap@[k] > p,
                decreases ap.len() - j,
            {
                j = j + 1;
            }
            if j < ap.len() && ap[j] == p {
                let s: i64 = ac[j] + c;
                ac[j] = s;
                proof {
                    assert forall|k: int| 0 <= k < ac.len() implies #[trigger] ac@[k] == sum_for(
                        pairs.take(i + 1),
                        ap@[k] as int,
                    ) by {
                        if k != j {
                            assert(ap@[k] != p) by {
                                if k < j {
                                } else {
                                    assert(ap@[j as int] > ap@[k]);
                                }
                            }
                        }
                    }
                    assert forall|q: int| #[trigger] sum_for(pairs.take(i + 1), q) != 0 implies
                        exists|k: int| 0 <= k < ap.len() && ap@[k] == q by {
                        if q == p as int {
                            assert(ap@[j as int] == q);
                        } else {
                            assert(sum_for(pairs.take(i as int), q) == sum_for(
                                pairs.take(i + 1),
                                q,
                            ));
                        }
                    }
                }
            } else {
                proof {
                    assert(forall|k: int| 0 <= k < ap.len() ==> ap@[k] != p) by {
                        assert forall|k: int| 0 <= k < ap.len() implies ap@[k] != p by {
                            if k >= j && j < ap.len() {
                                if k > j {
                                    assert(ap@[j as int] > ap@[k]);
                                }
                            }
                        }
                    }
                    assert(sum_for(pairs.take(i as int), p as int) == 0);
                }
                let ghost ap_old = ap@;
                let ghost ac_old = ac@;
                ac.insert(j, c);
                ap.insert(j, p);
                proof {
                    assert(ac@ =~= ac_old.take(j as int) + (seq![c] + ac_old.skip(j as int)));
                    assert(ap@ =~= ap_old.take(j as int) + (seq![p] + ap_old.skip(j as int)));
                    assert forall|k1: int, k2: int| 0 <= k1 < k2 < ap.len() implies ap@[k1]
                        > ap@[k2] by {
                        if k1 < j && k2 == j {
                            assert(ap@[k1] == ap_old[k1]);
                        } else if k1 == j && k2 > j {
                            assert(ap@[k2] == ap_old[k2 - 1]);
                            if j < ap_old.len() {
                                assert(ap_old[j as int] >= ap_old[k2 - 1]);
                                assert(!(ap_old[j as int] > p));
                            }
                        } else if k1 < j && k2 > j {
                            assert(ap@[k1] == ap_old[k1] && ap@[k2] == ap_old[k2 - 1]);
                        } else if k2 < j {
                            assert(ap@[k1] == ap_old[k1] && ap@[k2] == ap_old[k2]);
                        } else if k1 > j {
                            assert(ap@[k1] == ap_old[k1 - 1] && ap@[k2] == ap_old[k2 - 1]);
                        }
                    }
                    assert forall|k: int| 0 <= k < ac.len() implies #[trigger] ac@[k] == sum_for(
                        pairs.take(i + 1),
                        ap@[k] as int,
                    ) by {
                        if k < j {
                            assert(ac@[k] == ac_old[k] && ap@[k] == ap_old[k]);
                            assert(ap_old[k] > p);
                        } else if k == j {
                        } else {
                            assert(ac@[k] == ac_old[k - 1] && ap@[k] == ap_old[k - 1]);
                            assert(ap_old[k - 1] != p);
                        }
                    }
                    assert forall|q: int| #[trigger] sum_for(pairs.take(i + 1), q) != 0 implies
                        exists|k: int| 0 <= k < ap.len() && ap@[k] == q by {
                        if q == p as int {
                            assert(ap@[j as int] == p);
                        } else {
                            assert(sum_for(pairs.take(i as int), q) != 0);
                            let k0 = choose|k0: int|
                                0 <= k0 < ap_old.len() && ap_old[k0] == q;
                            if k0 < j {
                                assert(ap@[k0] == q);
                            } else {
                                assert(ap@[k0 + 1] == q);
                            }
                        }
                    }
                }
            }
            i = i + 1;
        }
        proof {
            assert(pairs.take(n as int) =~= pairs);
        }
        let mut rc: Vec<i64> = Vec::new();
        let mut rp: Vec<i32> = Vec::new();
        let mut m: usize = 0;
        while m < ac.len()
            invariant
                pairs == zip_pairs(coef@, pow@),
                ac.len() == ap.len(),
                m <= ac.len(),
                rc.len() == rp.len(),
                forall|k1: int, k2: int| 0 <= k1 < k2 < ap.len() ==> ap@[k1] > ap@[k2],
                forall|k: int|
                    0 <= k < ac.len() ==> #[trigger] ac@[k] == sum_for(pairs, ap@[k] as int),
                forall|k1: int, k2: int| 0 <= k1 < k2 < rp.len() ==> rp@[k1] > rp@[k2],
                forall|k: int|
                    0 <= k < rc.len() ==> #[trigger] rc@[k] == sum_for(pairs, rp@[k] as int)
                        && rc@[k] != 0,
                forall|k: int|
                    0 <= k < rp.len() ==> exists|k0: int|
                        0 <= k0 < m && ap@[k0] == #[trigger] rp@[k],
                forall|q: int|
                    #[trigger] sum_for(pairs, q) != 0 ==> has_power(rp@, q) || (exists|k0: int|
                        m <= k0 < ap.len() && ap@[k0] == q),
            decreases ac.len() - m,
        {
            let ghost rp_old = rp@;
            let kept: bool = ac[m] != 0;
            if kept {
                proof {
                    assert forall|k: int| 0 <= k < rp.len() implies rp@[k] > ap@[m as int] by {
                        let k0 = choose|k0: int| 0 <= k0 < m && ap@[k0] == rp@[k];
                        assert(ap@[k0] > ap@[m as int]);
                    }
                }
                rc.push(ac[m]);
                rp.push(ap[m]);
            }
            proof {
                assert forall|q: int| #[trigger] sum_for(pairs, q) != 0 implies has_power(rp@, q)
                    || (exists|k0: int| m + 1 <= k0 < ap.len() && ap@[k0] == q) by {
                    if has_power(rp_old, q) {
                        let k = choose|k: int| 0 <= k < rp_old.len() && rp_old[k] == q;
                        assert(rp@[k] == q);
                        assert(has_power(rp@, q));
                    } else {
                        let k0 = choose|k0: int| m <= k0 < ap.len() && ap@[k0] == q;
                        if k0 == m {
                            assert(ac@[m as int] == sum_for(pairs, q));
                            assert(kept);
                            assert(rp@[rp@.len() - 1] == ap@[m as int]);
                            assert(has_power(rp@, q));
                        }
                    }
                }
            }
            m = m + 1;
        }
        proof {
            assert forall|p: int| #[trigger] sum_for(zip_pairs(coef@, pow@), p) != 0 implies
                has_power(rp@, p) by {
                assert(sum_for(pairs, p) != 0);
            }
        }
        (rc, rp)
    }

    /// The formula as text: terms in stored order, `z^p` notation, a plus
    /// sign only before positive terms.
    pub fn to_string(&self) -> (r: String)
        requires
            self.coefs().len() == self.pows().len(),
        ensures
            r@ == ascii_chars(format_terms_from(self.coefs(), self.pows(), 0)),
    {
        let mut out: Vec<u8> = Vec::new();
        let mut i: usize = 0;
        while i < self.coef.len()
            invariant
                i <= self.coef.len(),
                self.coefs().len() == self.pows().len(),
                format_terms_from(self.coefs(), self.pows(), 0) == out@ + format_terms_from(
                    self.coefs(),
                    self.pows(),
                    i as int,
                ),
                forall|k: int| 0 <= k < out@.len() ==> out@[k] < 128,
            decreases self.coef.len() - i,
        {
            let ghost sofar = out@;
            let ghost cs = self.coefs();
            let ghost ps = self.pows();
            let c: i64 = self.coef[i];
            let p: i32 = self.pow[i];
            if i > 0 && c > 0 {
                out.push(43u8);
                proof {
                    assert(out@ =~= sofar + seq![43u8]);
                }
            }
            let ghost with_sep = out@;
            push_term(c, p, &mut out);
            proof {
                let sep: Seq<u8> = if i > 0 && c > 0 {
                    seq![43u8]
                } else {
                    Seq::<u8>::empty()
                };
                assert(with_sep =~= sofar + sep);
                assert(format_terms_from(cs, ps, i as int) == sep + format_term_spec(
                    c as int,
                    p as int,
                ) + format_terms_from(cs, ps, i + 1));
                assert(sofar + ((sep + format_term_spec(c as int, p as int)) + format_terms_from(
                    cs,
                    ps,
                    i + 1,
                )) =~= (sofar + sep + format_term_spec(c as int, p as int)) + format_terms_from(
                    cs,
                    ps,
                    i + 1,
                ));
                assert(sofar + (sep + format_term_spec(c as int, p as int) + format_terms_from(
                    cs,
                    ps,
                    i + 1,
                )) =~= (sofar + sep + format_term_spec(c as int, p as int)) + format_terms_from(
                    cs,
                    ps,
                    i + 1,
                ));
                assert(out@ =~= sofar + sep + format_term_spec(c as int, p as int));
            }
            i = i + 1;
        }
        proof {
            assert(out@ + format_terms_from(self.coefs(), self.pows(), self.coef.len() as int)
                =~= out@);
        }
        ascii_string(out)
    }

    /// The stored coefficients, one per surviving term.
    pub fn coefficients(&self) -> (r: Vec<i64>)
        ensures
            r@ == self.coefs(),
    {
        let mut out: Vec<i64> = Vec::new();
        let mut i: usize = 0;
        while i < self.coef.len()
            invariant
                i <= self.coef.len(),
                out@ == self.coef@.take(i as int),
            decreases self.coef.len() - i,
        {
            out.push(self.coef[i]);
            proof {
                assert(self.coef@.take(i + 1) =~= self.coef@.take(i as int).push(
                    self.coef@[i as int],
                ));
            }
            i = i + 1;
        }
        proof {
            assert(self.coef@.take(self.coef.len() as int) =~= self.coef@);
        }
        out
    }

    /// The stored powers, parallel to the coefficients.
    pub fn powers(&self) -> (r: Vec<i32>)
        ensures
            r@ == self.pows(),
    {
        let mut out: Vec<i32> = Vec::new();
        let mut i: usize = 0;
        while i < self.pow.len()
            invariant
                i <= self.pow.len(),
                out@ == self.pow@.take(i as int),
            decreases self.pow.len() - i,
        {
            out.push(self.pow[i]);
            proof {
                assert(self.pow@.take(i + 1) =~= self.pow@.take(i as int).push(
                    self.pow@[i as int],
                ));
            }
            i = i + 1;
        }
        proof {
            assert(self.pow@.take(self.pow.len() as int) =~= self.pow@);
        }
        out
    }
}

} // verus!
