//! A polynomial and its first three symbolic derivatives.
//!
//! The function is a sequence of terms with strictly descending, therefore
//! unique, powers and nonzero integer coefficients. The three derivative
//! sequences are always exactly the symbolic derivatives of the function
//! sequence; every operation maintains that invariant. All four sequences
//! share one denominator: a coefficient's value is the stored integer divided
//! by it. `normalize` — division of all four sequences by the function's
//! leading coefficient — therefore moves no integer at all: it only replaces
//! the denominator, which keeps the division exact and makes repeating it a
//! no-op.
use vstd::prelude::*;

use crate::polynomial_term::{d1_spec, term_wf, PolynomialTerm, COEF_LIMIT};

verus! {

/// Powers strictly descending: each power occurs at most once.
pub open spec fn sorted_desc(ts: Seq<PolynomialTerm>) -> bool {
    forall|i: int, j: int| 0 <= i < j < ts.len() ==> ts[i].power > ts[j].power
}

/// What the function sequence of a polynomial always satisfies: descending
/// unique powers, bounded terms, no zero coefficients.
pub open spec fn terms_wf(ts: Seq<PolynomialTerm>) -> bool {
    &&& sorted_desc(ts)
    &&& forall|i: int| 0 <= i < ts.len() ==> term_wf(#[trigger] ts[i])
    &&& forall|i: int| 0 <= i < ts.len() ==> (#[trigger] ts[i]).coefficient != 0
}

/// The symbolic derivative of a term sequence: each positive-power term
/// becomes its derivative, constant terms are dropped, order is kept.
pub open spec fn derive_spec(ts: Seq<PolynomialTerm>) -> Seq<PolynomialTerm>
    decreases ts.len(),
{
    if ts.len() == 0 {
        Seq::<PolynomialTerm>::empty()
    } else {
        derive_spec(ts.drop_last()) + match d1_spec(ts.last()) {
            Some(t) => seq![t],
            None => Seq::<PolynomialTerm>::empty(),
        }
    }
}

/// The coefficient a sequence holds for power `p`, zero when absent.
/// Well-defined on sequences with unique powers.
pub open spec fn coef_of(ts: Seq<PolynomialTerm>, p: int) -> int
    decreases ts.len(),
{
    if ts.len() == 0 {
        0
    } else if ts.last().power == p {
        ts.last().coefficient as int
    } else {
        coef_of(ts.drop_last(), p)
    }
}

/// In a sequence with unique powers, the coefficient held for a present
/// power is that term's coefficient.
pub proof fn lemma_coef_of_present(ts: Seq<PolynomialTerm>, j: int)
    requires
        sorted_desc(ts),
        0 <= j < ts.len(),
    ensures
        coef_of(ts, ts[j].power as int) == ts[j].coefficient,
    decreases ts.len(),
{
    if j == ts.len() - 1 {
    } else {
        assert(ts.drop_last()[j] == ts[j]);
        lemma_coef_of_present(ts.drop_last(), j);
    }
}

/// The derivative sequence is empty exactly when no term has positive power.
pub proof fn lemma_derive_empty(ts: Seq<PolynomialTerm>)
    ensures
        derive_spec(ts).len() == 0 <==> (forall|i: int|
            0 <= i < ts.len() ==> (#[trigger] ts[i]).power == 0),
    decreases ts.len(),
{
    if ts.len() > 0 {
        lemma_derive_empty(ts.drop_last());
        assert(forall|i: int| 0 <= i < ts.len() - 1 ==> ts.drop_last()[i] == #[trigger] ts[i]);
        if ts.last().power == 0 {
            assert(derive_spec(ts) =~= derive_spec(ts.drop_last()));
        }
    }
}

/// Bounds carry through differentiation: coefficients grow by at most the
/// power factor, powers only shrink.
pub proof fn lemma_derive_bounds(ts: Seq<PolynomialTerm>, cb: int)
    requires
        0 <= cb <= 0x7FFF_FFFF * 1000000,
        forall|i: int|
            0 <= i < ts.len() ==> -cb <= (#[trigger] ts[i]).coefficient <= cb && ts[i].power
                <= 1000,
    ensures
        forall|i: int|
            0 <= i < derive_spec(ts).len() ==> -(cb * 1000) <= (#[trigger] derive_spec(
                ts,
            )[i]).coefficient <= cb * 1000 && derive_spec(ts)[i].power <= 1000,
    decreases ts.len(),
{
    if ts.len() > 0 {
        assert(forall|i: int| 0 <= i < ts.len() - 1 ==> ts.drop_last()[i] == #[trigger] ts[i]);
        lemma_derive_bounds(ts.drop_last(), cb);
        let t = ts.last();
        if t.power > 0 {
            let prod = (t.coefficient as int) * (t.power as int);
            assert(-(cb * 1000) <= prod <= cb * 1000) by (nonlinear_arith)
                requires
                    prod == (t.coefficient as int) * (t.power as int),
                    -cb <= t.coefficient as int <= cb,
                    0 <= t.power as int <= 1000,
                    0 <= cb,
            ;
            assert(cb * 1000 <= 0x7FFF_FFFF * 1000000 * 1000) by (nonlinear_arith)
                requires
                    cb <= 0x7FFF_FFFF * 1000000,
            ;
            assert((prod as i64) == prod);
            let tail = seq![d1_spec(t)->Some_0];
            assert(derive_spec(ts) == derive_spec(ts.drop_last()) + tail);
            assert forall|i: int| 0 <= i < derive_spec(ts).len() implies -(cb * 1000) <= (
            #[trigger] derive_spec(ts)[i]).coefficient <= cb * 1000 && derive_spec(ts)[i].power
                <= 1000 by {
                if i == derive_spec(ts).len() - 1 {
                    assert(derive_spec(ts)[i] == tail[0]);
                }
            }
        } else {
            assert(derive_spec(ts) =~= derive_spec(ts.drop_last()));
        }
    }
}

/// Polynomial terms and their derivatives, over one shared denominator.
#[derive(Clone, Debug)]
pub struct Polynomial {
    function: Vec<PolynomialTerm>,
    derivative: Vec<PolynomialTerm>,
    derivative2: Vec<PolynomialTerm>,
    derivative3: Vec<PolynomialTerm>,
    denominator: i64,
}

impl Polynomial {
    /// The function's term sequence.
    pub closed spec fn fun(self) -> Seq<PolynomialTerm> {
        self.function@
    }

    /// The first derivative's term sequence.
    pub closed spec fn d1(self) -> Seq<PolynomialTerm> {
        self.derivative@
    }

    /// The second derivative's term sequence.
    pub closed spec fn d2(self) -> Seq<PolynomialTerm> {
        self.derivative2@
    }

    /// The third derivative's term sequence.
    pub closed spec fn d3(self) -> Seq<PolynomialTerm> {
        self.derivative3@
    }

    /// The denominator shared by all four sequences.
    pub closed spec fn den(self) -> int {
        self.denominator as int
    }

    /// The polynomial's invariant: a well-formed function sequence, the three
    /// derivative sequences exactly its symbolic derivatives, and a nonzero
    /// bounded denominator.
    pub open spec fn wf(self) -> bool {
        &&& terms_wf(self.fun())
        &&& self.d1() == derive_spec(self.fun())
        &&& self.d2() == derive_spec(self.d1())
        &&& self.d3() == derive_spec(self.d2())
        &&& self.den() != 0
        &&& -COEF_LIMIT <= self.den() <= COEF_LIMIT
    }

    /// True when no term has positive power; such a polynomial has no roots
    /// to find.
    pub open spec fn is_constant_spec(self) -> bool {
        forall|i: int| 0 <= i < self.fun().len() ==> (#[trigger] self.fun()[i]).power == 0
    }
}

/// Copy a term vector.
fn copy_terms(ts: &Vec<PolynomialTerm>) -> (r: Vec<PolynomialTerm>)
    ensures
        r@ == ts@,
{
    let mut out: Vec<PolynomialTerm> = Vec::new();
    let mut i: usize = 0;
    while i < ts.len()
        invariant
            i <= ts.len(),
            out@ == ts@.take(i as int),
        decreases ts.len() - i,
    {
        out.push(ts[i]);
        proof {
            assert(ts@.take(i + 1) =~= ts@.take(i as int).push(ts@[i as int]));
        }
        i = i + 1;
    }
    proof {
        assert(ts@.take(ts.len() as int) =~= ts@);
    }
    out
}

/// The symbolic derivative of a term vector, as executable code.
fn derive(terms: &Vec<PolynomialTerm>) -> (r: Vec<PolynomialTerm>)
    requires
        forall|i: int|
            0 <= i < terms.len() ==> -0x7FFF_FFFFi64 * 1000000 <= (#[trigger] terms[i]).coefficient
                <= 0x7FFF_FFFFi64 * 1000000 && terms[i].power <= 1000,
    ensures
        r@ == derive_spec(terms@),
{
    let mut out: Vec<PolynomialTerm> = Vec::new();
    let mut i: usize = 0;
    while i < terms.len()
        invariant
            i <= terms.len(),
            forall|k: int|
                0 <= k < terms.len() ==> -0x7FFF_FFFFi64 * 1000000 <= (
                #[trigger] terms[k]).coefficient <= 0x7FFF_FFFFi64 * 1000000 && terms[k].power
                    <= 1000,
            out@ == derive_spec(terms@.take(i as int)),
        decreases terms.len() - i,
    {
        let t: PolynomialTerm = terms[i];
        if t.power > 0 {
            proof {
                assert(-(0x7FFF_FFFFi64 * 1000000000) <= (t.coefficient as int) * (t.power as int)
                    <= 0x7FFF_FFFFi64 * 1000000000) by (nonlinear_arith)
                    requires
                        -0x7FFF_FFFFi64 * 1000000 <= t.coefficient as int <= 0x7FFF_FFFFi64
                            * 1000000,
                        0 <= t.power as int <= 1000,
                ;
            }
            out.push(
                PolynomialTerm {
                    coefficient: t.coefficient * (t.power as i64),
                    power: t.power - 1,
                },
            );
        }
        proof {
            assert(terms@.take(i + 1).drop_last() =~= terms@.take(i as int));
            assert(terms@.take(i + 1).last() == terms@[i as int]);
            if t.power > 0 {
                assert(out@ =~= derive_spec(terms@.take(i as int)) + seq![
                    PolynomialTerm {
                        coefficient: ((t.coefficient as int) * (t.power as int)) as i64,
                        power: (t.power - 1) as u32,
                    },
                ]);
            } else {
                assert(derive_spec(terms@.take(i + 1)) =~= derive_spec(terms@.take(i as int)));
            }
        }
        i = i + 1;
    }
    proof {
        assert(terms@.take(terms.len() as int) =~= terms@);
    }
    out
}

impl Polynomial {
    /// Build a polynomial from an already merged, descending term vector:
    /// derive the three derivative sequences and start with denominator one.
    pub(crate) fn from_sorted_terms(function: Vec<PolynomialTerm>) -> (r: Polynomial)
        requires
            terms_wf(function@),
        ensures
            r.wf(),
            r.fun() == function@,
            r.den() == 1,
    {
        proof {
            lemma_derive_bounds(function@, 0x7FFF_FFFF as int);
            lemma_derive_bounds(derive_spec(function@), 0x7FFF_FFFF as int * 1000);
        }
        let derivative = derive(&function);
        let derivative2 = derive(&derivative);
        let derivative3 = derive(&derivative2);
        Polynomial { function, derivative, derivative2, derivative3, denominator: 1 }
    }

    /// The function's terms, in stored (descending-power) order.
    pub fn function_terms(&self) -> (r: Vec<PolynomialTerm>)
        ensures
            r@ == self.fun(),
    {
        copy_terms(&self.function)
    }

    /// The first derivative's terms, in descending-power order.
    pub fn derivative_terms(&self) -> (r: Vec<PolynomialTerm>)
        ensures
            r@ == self.d1(),
    {
        copy_terms(&self.derivative)
    }

    /// The second derivative's terms, in descending-power order.
    pub fn derivative2_terms(&self) -> (r: Vec<PolynomialTerm>)
        ensures
            r@ == self.d2(),
    {
        copy_terms(&self.derivative2)
    }

    /// The third derivative's terms, in descending-power order.
    pub fn derivative3_terms(&self) -> (r: Vec<PolynomialTerm>)
        ensures
            r@ == self.d3(),
    {
        copy_terms(&self.derivative3)
    }

    /// The function's terms sorted by ascending power.
    pub fn terms(&self) -> (r: Vec<PolynomialTerm>)
        ensures
            r@.len() == self.fun().len(),
            forall|i: int| 0 <= i < r@.len() ==> r@[i] == self.fun()[self.fun().len() - 1 - i],
    {
        let mut out: Vec<PolynomialTerm> = Vec::new();
        let mut i: usize = self.function.len();
        while i > 0
            invariant
                i <= self.function.len(),
                out@.len() == self.function@.len() - i,
                forall|k: int|
                    0 <= k < out@.len() ==> out@[k] == self.function@[self.function@.len() - 1 - k],
            decreases i,
        {
            i = i - 1;
            out.push(self.function[i]);
        }
        out
    }

    /// The denominator all stored integers are divided by; one until the
    /// polynomial is normalized.
    pub fn denominator(&self) -> (r: i64)
        ensures
            r as int == self.den(),
    {
        self.denominator
    }

    /// The dense coefficient vector: entry `p` holds the integer coefficient
    /// of `z^p`, zero where no term exists.
    pub fn coefficients(&self) -> (r: Vec<i64>)
        requires
            self.wf(),
            self.fun().len() > 0,
        ensures
            r@.len() == self.fun()[0].power + 1,
            forall|q: int| 0 <= q < r@.len() ==> r@[q] == coef_of(self.fun(), q),
    {
        proof {
            assert(term_wf(self.fun()[0]));
        }
        let order0: u32 = self.function[0].power;
        let mut dense: Vec<i64> = Vec::new();
        let mut q: usize = 0;
        while q < (order0 as usize) + 1
            invariant
                order0 <= 1000,
                q <= order0 + 1,
                dense@.len() == q,
                forall|k: int| 0 <= k < q ==> dense@[k] == 0,
            decreases order0 + 1 - q,
        {
            dense.push(0i64);
            q = q + 1;
        }
        let ghost fun = self.fun();
        let mut j: usize = 0;
        while j < self.function.len()
            invariant
                self.wf(),
                fun == self.fun(),
                fun.len() > 0,
                j <= fun.len(),
                dense@.len() == fun[0].power + 1,
                forall|k: int| 0 <= k < dense@.len() ==> dense@[k] == coef_of(fun.take(j as int), k),
            decreases self.function.len() - j,
        {
            let t: PolynomialTerm = self.function[j];
            proof {
                if j > 0 {
                    assert(fun[0].power > fun[j as int].power);
                }
                assert(fun.take(j + 1).drop_last() =~= fun.take(j as int));
                assert(fun.take(j + 1).last() == fun[j as int]);
            }
            dense[t.power as usize] = t.coefficient;
            j = j + 1;
        }
        proof {
            assert(fun.take(fun.len() as int) =~= fun);
        }
        dense
    }

    /// The term of exactly the given power, if present.
    pub fn term_of(&self, power: u32) -> (r: Option<PolynomialTerm>)
        requires
            self.wf(),
        ensures
            match r {
                Some(t) => t.power == power && t.coefficient == coef_of(self.fun(), power as int)
                    && exists|i: int| 0 <= i < self.fun().len() && self.fun()[i] == t,
                None => forall|i: int|
                    0 <= i < self.fun().len() ==> (#[trigger] self.fun()[i]).power != power,
            },
    {
        let mut j: usize = 0;
        while j < self.function.len()
            invariant
                self.wf(),
                j <= self.fun().len(),
                forall|i: int| 0 <= i < j ==> (#[trigger] self.fun()[i]).power != power,
            decreases self.function.len() - j,
        {
            if self.function[j].power == power {
                proof {
                    lemma_coef_of_present(self.fun(), j as int);
                }
                return Some(self.function[j]);
            }
            j = j + 1;
        }
        None
    }

    /// The polynomial's order: the largest power present. The function
    /// sequence must be nonempty.
    pub fn order(&self) -> (r: usize)
        requires
            self.wf(),
            self.fun().len() > 0,
        ensures
            r == self.fun()[0].power,
            forall|i: int| 0 <= i < self.fun().len() ==> (#[trigger] self.fun()[i]).power <= r,
    {
        self.function[0].power as usize
    }

    /// Whether the polynomial is constant: no positive-power term, hence an
    /// empty derivative.
    pub fn is_constant(&self) -> (r: bool)
        requires
            self.wf(),
        ensures
            r == self.is_constant_spec(),
    {
        proof {
            lemma_derive_empty(self.fun());
        }
        self.derivative.len() == 0
    }

    /// Divide all four sequences by the function's leading coefficient, by
    /// replacing the shared denominator: every stored integer is kept, so the
    /// rescaling is exact and root locations are untouched.
    pub fn normalize(&mut self)
        requires
            old(self).wf(),
            !old(self).is_constant_spec(),
        ensures
            final(self).wf(),
            normalized_from(*final(self), *old(self)),
    {
        proof {
            assert(old(self).fun().len() > 0);
        }
        self.denominator = self.function[0].coefficient;
    }
}

/// How a polynomial looks after one `normalize`: the four term sequences are
/// unchanged and the denominator equals the function's leading integer, so
/// the leading coefficient's value is exactly one.
pub open spec fn normalized_from(q: Polynomial, p: Polynomial) -> bool {
    &&& q.fun() == p.fun()
    &&& q.d1() == p.d1()
    &&& q.d2() == p.d2()
    &&& q.d3() == p.d3()
    &&& q.fun().len() > 0
    &&& q.den() == q.fun()[0].coefficient
}

/// Law: `normalize` is idempotent. Normalizing an already-normalized
/// polynomial — one whose leading coefficient value is one — changes nothing
/// observable: term sequences and denominator stay as they are.
pub proof fn lemma_normalize_idempotent(p: Polynomial, q: Polynomial, r: Polynomial)
    requires
        normalized_from(q, p),
        normalized_from(r, q),
    ensures
        r.fun() == q.fun(),
        r.d1() == q.d1(),
        r.d2() == q.d2(),
        r.d3() == q.d3(),
        r.den() == q.den(),
{
}

} // verus!
