//! Total functions between finite sets `{0, ..., src-1} -> {0, ..., tgt-1}`,
//! their composition in diagrammatic order, and the exhaustive enumerator
//! that steps through all `tgt^src` of them in mixed-radix order.

use vstd::prelude::*;

verus! {

/// Why a construction or a composition was refused.
#[derive(Clone, Copy, Debug, PartialEq, Eq, Structural)]
pub enum Error {
    /// An entry of the value array is not below the stated codomain size.
    InvalidFunction,
    /// The left function's codomain size differs from the right one's domain size.
    TypeMismatch,
}

/// Mathematical model of a finite function: the codomain size and the
/// ordered sequence of values, one per element of the domain.
#[verifier::ext_equal]
pub struct FunView {
    pub tgt: usize,
    pub vals: Seq<usize>,
}

impl FunView {
    /// The domain size is the length of the value sequence.
    pub open spec fn src(self) -> nat {
        self.vals.len()
    }

    /// Every value lies strictly below the codomain size.
    pub open spec fn wf(self) -> bool {
        forall|i: int| 0 <= i < self.vals.len() ==> self.vals[i] < self.tgt
    }

    /// `self` can stand left of `g` in diagrammatic composition.
    pub open spec fn composable(self, g: FunView) -> bool {
        self.tgt == g.src()
    }

    /// Diagrammatic composition: first `self`, then `g`.
    pub open spec fn compose(self, g: FunView) -> FunView {
        FunView { tgt: g.tgt, vals: Seq::new(self.vals.len(), |i: int| g.vals[self.vals[i] as int]) }
    }

    /// An endofunction on an `n`-element set.
    pub open spec fn is_endo(self, n: usize) -> bool {
        self.tgt == n && self.src() == n
    }
}

/// The identity on an `n`-element set.
pub open spec fn id_view(n: usize) -> FunView {
    FunView { tgt: n, vals: Seq::new(n as nat, |i: int| i as usize) }
}

/// A total function between two finite sets, stored as the codomain size
/// and the value at each element of the domain.
#[derive(Debug)]
pub struct Function {
    tgt: usize,
    vals: Vec<usize>,
}

impl View for Function {
    type V = FunView;

    closed spec fn view(&self) -> FunView {
        FunView { tgt: self.tgt, vals: self.vals@ }
    }
}

impl Function {
    /// The value array respects the codomain bound.
    pub open spec fn wf(self) -> bool {
        self@.wf()
    }

    /// The all-zeros function: the first one in enumeration order.
    pub fn new(src: usize, tgt: usize) -> (r: Function)
        requires
            tgt >= 1,
        ensures
            r@.tgt == tgt,
            r@.vals.len() == src,
            forall|i: int| 0 <= i < src ==> r@.vals[i] == 0,
            r.wf(),
    {
        let mut vals: Vec<usize> = Vec::new();
        let mut i: usize = 0;
        while i < src
            invariant
                i <= src,
                vals@.len() == i,
                forall|j: int| 0 <= j < i ==> vals@[j] == 0,
            decreases src - i,
        {
            vals.push(0);
            i += 1;
        }
        Function { tgt, vals }
    }

    /// The identity function on `n` elements.
    pub fn id(n: usize) -> (r: Function)
        ensures
            r@ == id_view(n),
            r.wf(),
    {
        let mut vals: Vec<usize> = Vec::new();
        let mut i: usize = 0;
        while i < n
            invariant
                i <= n,
                vals@.len() == i,
                forall|j: int| 0 <= j < i ==> vals@[j] == j,
            decreases n - i,
        {
            vals.push(i);
            i += 1;
        }
        let r = Function { tgt: n, vals };
        proof {
            assert(r@.vals =~= id_view(n).vals);
            assert(r@ =~= id_view(n));
        }
        r
    }

    /// The codomain size.
    pub fn tgt(&self) -> (r: usize)
        ensures
            r == self@.tgt,
    {
        self.tgt
    }

    /// The domain size.
    pub fn src(&self) -> (r: usize)
        ensures
            r == self@.src(),
    {
        self.vals.len()
    }

    /// The value at each element of the domain, in order.
    pub fn vals(&self) -> (r: &Vec<usize>)
        ensures
            r@ == self@.vals,
    {
        &self.vals
    }

    /// Builds a function from an explicit value array, refusing any array
    /// with an entry out of range for the stated codomain size.
    pub fn from_vec(tgt: usize, vals: Vec<usize>) -> (r: Result<Function, Error>)
        ensures
            match r {
                Ok(f) => f@ == (FunView { tgt, vals: vals@ }) && f.wf(),
                Err(e) => e == Error::InvalidFunction && !(FunView { tgt, vals: vals@ }).wf(),
            },
    {
        let mut i: usize = 0;
        while i < vals.len()
            invariant
                i <= vals@.len(),
                forall|j: int| 0 <= j < i ==> vals@[j] < tgt,
            decreases vals@.len() - i,
        {
            if vals[i] >= tgt {
                proof {
                    assert(!(FunView { tgt, vals: vals@ }).wf()) by {
                        assert((FunView { tgt, vals: vals@ }).vals[i as int] >= tgt);
                    }
                }
                return Err(Error::InvalidFunction);
            }
            i += 1;
        }
        Ok(Function { tgt, vals })
    }

    /// Diagrammatic composition: first `self`, then `g`. Refuses the pair
    /// whenever `self`'s codomain size differs from `g`'s domain size, and
    /// never truncates or pads.
    pub fn compose(&self, g: &Function) -> (r: Result<Function, Error>)
        requires
            self.wf(),
            g.wf(),
        ensures
            match r {
                Ok(h) => self@.composable(g@) && h@ == self@.compose(g@) && h.wf(),
                Err(e) => e == Error::TypeMismatch && !self@.composable(g@),
            },
    {
        if self.tgt != g.vals.len() {
            return Err(Error::TypeMismatch);
        }
        let mut vals: Vec<usize> = Vec::new();
        let mut i: usize = 0;
        while i < self.vals.len()
            invariant
                i <= self.vals@.len(),
                self.wf(),
                g.wf(),
                self@.composable(g@),
                vals@.len() == i,
                forall|j: int| 0 <= j < i ==> vals@[j] == g.vals@[self.vals@[j] as int],
            decreases self.vals@.len() - i,
        {
            proof {
                assert(self@.vals[i as int] < self@.tgt);
            }
            vals.push(g.vals[self.vals[i]]);
            i += 1;
        }
        let h = Function { tgt: g.tgt, vals };
        proof {
            assert(h@.vals =~= self@.compose(g@).vals);
            assert(h@ =~= self@.compose(g@));
        }
        Ok(h)
    }
}

impl Clone for Function {
    /// An independently owned copy with the same codomain size and values.
    fn clone(&self) -> (r: Self)
        ensures
            r@ == self@,
    {
        let mut vals: Vec<usize> = Vec::new();
        let mut i: usize = 0;
        while i < self.vals.len()
            invariant
                i <= self.vals@.len(),
                vals@.len() == i,
                forall|j: int| 0 <= j < i ==> vals@[j] == self.vals@[j],
            decreases self.vals@.len() - i,
        {
            vals.push(self.vals[i]);
            i += 1;
        }
        let r = Function { tgt: self.tgt, vals };
        proof {
            assert(r@.vals =~= self@.vals);
            assert(r@ =~= self@);
        }
        r
    }
}

impl PartialEq for Function {
    /// Structural equality: equal codomain sizes and element-wise equal values.
    fn eq(&self, other: &Self) -> (r: bool) {
        if self.tgt != other.tgt || self.vals.len() != other.vals.len() {
            return false;
        }
        let mut i: usize = 0;
        while i < self.vals.len()
            invariant
                i <= self.vals@.len(),
                self.vals@.len() == other.vals@.len(),
                self.tgt == other.tgt,
                forall|j: int| 0 <= j < i ==> self.vals@[j] == other.vals@[j],
            decreases self.vals@.len() - i,
        {
            if self.vals[i] != other.vals[i] {
                return false;
            }
            i += 1;
        }
        proof {
            assert(self.vals@ =~= other.vals@);
        }
        true
    }
}

/// `base` raised to `exp`.
pub open spec fn pow_int(base: int, exp: nat) -> int
    decreases exp,
{
    if exp == 0 {
        1
    } else {
        base * pow_int(base, (exp - 1) as nat)
    }
}

/// A positive base raised to any power stays positive.
pub proof fn lemma_pow_int_positive(b: int, e: nat)
    requires
        b >= 1,
    ensures
        pow_int(b, e) >= 1,
    decreases e,
{
    if e > 0 {
        lemma_pow_int_positive(b, (e - 1) as nat);
        let p = pow_int(b, (e - 1) as nat);
        assert(b * p >= 1) by (nonlinear_arith)
            requires
                b >= 1,
                p >= 1,
        ;
    }
}

/// The number a value array denotes when read as a mixed-radix numeral in
/// base `tgt`, least-significant position first.
pub open spec fn val_of(vals: Seq<usize>, tgt: usize) -> int
    decreases vals.len(),
{
    if vals.len() == 0 {
        0
    } else {
        vals[0] + tgt * val_of(vals.skip(1), tgt)
    }
}

/// A value array within its codomain bound denotes a number below
/// `tgt^len`, and no numeral is negative.
pub proof fn lemma_val_of_bounds(vals: Seq<usize>, tgt: usize)
    requires
        tgt >= 1,
        forall|i: int| 0 <= i < vals.len() ==> vals[i] < tgt,
    ensures
        0 <= val_of(vals, tgt) < pow_int(tgt as int, vals.len()),
    decreases vals.len(),
{
    if vals.len() > 0 {
        let rest = vals.skip(1);
        assert(rest.len() == vals.len() - 1);
        assert(forall|i: int| 0 <= i < rest.len() ==> #[trigger] rest[i] < tgt);
        lemma_val_of_bounds(rest, tgt);
        let v = val_of(rest, tgt);
        let p = pow_int(tgt as int, rest.len());
        assert(val_of(vals, tgt) == vals[0] + tgt * v);
        assert(pow_int(tgt as int, vals.len()) == tgt * p);
        assert(0 <= vals[0] + tgt * v && vals[0] + tgt * v < tgt * p) by (nonlinear_arith)
            requires
                0 <= v < p,
                0 <= vals[0] < tgt,
        ;
    }
}

/// The all-zeros array denotes zero.
pub proof fn lemma_val_of_zeros(vals: Seq<usize>, tgt: usize)
    requires
        forall|i: int| 0 <= i < vals.len() ==> vals[i] == 0,
    ensures
        val_of(vals, tgt) == 0,
    decreases vals.len(),
{
    if vals.len() > 0 {
        lemma_val_of_zeros(vals.skip(1), tgt);
    }
}

/// An array with every position at `tgt - 1` denotes `tgt^len - 1`,
/// the last numeral.
pub proof fn lemma_val_of_all_max(vals: Seq<usize>, tgt: usize)
    requires
        tgt >= 1,
        forall|i: int| 0 <= i < vals.len() ==> vals[i] == tgt - 1,
    ensures
        val_of(vals, tgt) == pow_int(tgt as int, vals.len()) - 1,
    decreases vals.len(),
{
    if vals.len() > 0 {
        let rest = vals.skip(1);
        assert(rest.len() == vals.len() - 1);
        assert(forall|i: int| 0 <= i < rest.len() ==> #[trigger] rest[i] == tgt - 1);
        lemma_val_of_all_max(rest, tgt);
        let p = pow_int(tgt as int, rest.len());
        assert(val_of(vals, tgt) == (tgt - 1) + tgt * (p - 1));
        assert(pow_int(tgt as int, vals.len()) == tgt * p);
        assert((tgt - 1) + tgt * (p - 1) == tgt * p - 1) by (nonlinear_arith);
    }
}

/// One odometer step: resetting a maximal prefix to zero and incrementing
/// the first non-maximal position adds exactly one to the denoted number.
pub proof fn lemma_val_of_step(s1: Seq<usize>, s2: Seq<usize>, i: int, tgt: usize)
    requires
        tgt >= 1,
        0 <= i < s1.len(),
        s1.len() == s2.len(),
        forall|j: int| 0 <= j < i ==> s1[j] == tgt - 1 && s2[j] == 0,
        s2[i] == s1[i] + 1,
        forall|j: int| i < j < s1.len() ==> s2[j] == s1[j],
    ensures
        val_of(s2, tgt) == val_of(s1, tgt) + 1,
    decreases i,
{
    let r1 = s1.skip(1);
    let r2 = s2.skip(1);
    if i == 0 {
        assert(r1 =~= r2);
        assert(val_of(s1, tgt) == s1[0] + tgt * val_of(r1, tgt));
        assert(val_of(s2, tgt) == s2[0] + tgt * val_of(r1, tgt));
    } else {
        assert(forall|j: int| 0 <= j < i - 1 ==> #[trigger] r1[j] == tgt - 1 && #[trigger] r2[j] == 0);
        assert(r2[i - 1] == r1[i - 1] + 1);
        assert(forall|j: int| i - 1 < j < r1.len() ==> #[trigger] r2[j] == r1[j]);
        lemma_val_of_step(r1, r2, i - 1, tgt);
        let v = val_of(r1, tgt);
        assert(val_of(s1, tgt) == (tgt - 1) + tgt * v);
        assert(val_of(s2, tgt) == 0 + tgt * (v + 1));
        assert(tgt * (v + 1) == tgt * v + tgt) by (nonlinear_arith);
    }
}

/// Two value arrays of the same length, both within the codomain bound,
/// that denote the same number are element-wise equal.
pub proof fn lemma_val_of_injective(s1: Seq<usize>, s2: Seq<usize>, tgt: usize)
    requires
        tgt >= 1,
        s1.len() == s2.len(),
        forall|i: int| 0 <= i < s1.len() ==> s1[i] < tgt,
        forall|i: int| 0 <= i < s2.len() ==> s2[i] < tgt,
        val_of(s1, tgt) == val_of(s2, tgt),
    ensures
        s1 =~= s2,
    decreases s1.len(),
{
    if s1.len() > 0 {
        let r1 = s1.skip(1);
        let r2 = s2.skip(1);
        assert(forall|i: int| 0 <= i < r1.len() ==> #[trigger] r1[i] < tgt);
        assert(forall|i: int| 0 <= i < r2.len() ==> #[trigger] r2[i] < tgt);
        let v1 = val_of(r1, tgt);
        let v2 = val_of(r2, tgt);
        lemma_val_of_bounds(r1, tgt);
        lemma_val_of_bounds(r2, tgt);
        assert(val_of(s1, tgt) == s1[0] + tgt * v1);
        assert(val_of(s2, tgt) == s2[0] + tgt * v2);
        assert(s1[0] == s2[0] && v1 == v2) by (nonlinear_arith)
            requires
                s1[0] + tgt * v1 == s2[0] + tgt * v2,
                0 <= s1[0] < tgt,
                0 <= s2[0] < tgt,
                v1 >= 0,
                v2 >= 0,
        ;
        lemma_val_of_injective(r1, r2, tgt);
        assert forall|i: int| 0 <= i < s1.len() implies s1[i] == s2[i] by {
            if i > 0 {
                assert(r1[i - 1] == r2[i - 1]);
            }
        }
        assert(s1 =~= s2);
    } else {
        assert(s1 =~= s2);
    }
}

impl Function {
    /// The odometer step of the enumerator: the successor of this function
    /// in mixed-radix order, or nothing when this is the last one.
    #[verifier::loop_isolation(false)]
    pub fn next(self) -> (r: Option<Function>)
        requires
            self.wf(),
            self@.tgt >= 1,
        ensures
            match r {
                Some(f) => f.wf() && f@.tgt == self@.tgt && f@.vals.len() == self@.vals.len()
                    && val_of(f@.vals, self@.tgt) == val_of(self@.vals, self@.tgt) + 1,
                None => val_of(self@.vals, self@.tgt)
                    == pow_int(self@.tgt as int, self@.src()) - 1,
            },
    {
        let ghost iv = self@;
        let mut s = self;
        let ghost orig = s@.vals;
        let tgt = s.tgt;
        let n = s.vals.len();
        let mut i: usize = 0;
        while i < n
            invariant
                i <= n,
                n == s.vals@.len(),
                tgt == s.tgt,
                tgt >= 1,
                orig.len() == n,
                iv.tgt == tgt,
                iv.vals == orig,
                forall|j: int| 0 <= j < n ==> #[trigger] orig[j] < tgt,
                forall|j: int| 0 <= j < i ==> #[trigger] orig[j] == tgt - 1,
                forall|j: int| 0 <= j < i ==> #[trigger] s.vals@[j] == 0,
                forall|j: int| i <= j < n ==> #[trigger] s.vals@[j] == orig[j],
            decreases n - i,
        {
            if s.vals[i] >= tgt - 1 {
                s.vals.set(i, 0);
            } else {
                let v = s.vals[i];
                let ghost pre = s.vals@;
                s.vals.set(i, v + 1);
                proof {
                    let s2v = s.vals@;
                    assert(s2v =~= pre.update(i as int, (v + 1) as usize));
                    assert forall|j: int| 0 <= j < i implies orig[j] == tgt - 1 && s2v[j] == 0 by {
                        assert(pre[j] == 0);
                    }
                    assert(s2v[i as int] == orig[i as int] + 1);
                    assert forall|j: int| i < j < orig.len() implies s2v[j] == orig[j] by {
                        assert(pre[j] == orig[j]);
                    }
                    lemma_val_of_step(orig, s2v, i as int, tgt);
                    assert forall|j: int| 0 <= j < s2v.len() implies s2v[j] < tgt by {
                        if j < i {
                            assert(s2v[j] == 0);
                        } else if j == i {
                            assert(pre[j] == orig[j]);
                            assert(orig[j] < tgt - 1);
                        } else {
                            assert(s2v[j] == orig[j]);
                        }
                    }
                }
                return Some(s);
            }
            i += 1;
        }
        proof {
            lemma_val_of_all_max(orig, tgt);
        }
        None
    }
}

/// What it means for an ordered collection to be the full enumeration of
/// the functions with domain size `src` and codomain size `tgt`: it holds
/// exactly `tgt^src` functions, the one at position `k` denotes the number
/// `k`, no two are equal, and every well-formed value array of the right
/// shape appears at the position its number names.
pub open spec fn enumerates(fs: Seq<Function>, src: usize, tgt: usize) -> bool {
    &&& fs.len() == pow_int(tgt as int, src as nat)
    &&& forall|k: int| 0 <= k < fs.len() ==> (#[trigger] fs[k])@.wf() && fs[k]@.tgt == tgt
            && fs[k]@.vals.len() == src && val_of(fs[k]@.vals, tgt) == k
    &&& forall|k1: int, k2: int| 0 <= k1 < fs.len() && 0 <= k2 < fs.len() && k1 != k2
            ==> (#[trigger] fs[k1])@.vals != (#[trigger] fs[k2])@.vals
    &&& forall|v: Seq<usize>| v.len() == src && (forall|j: int| 0 <= j < v.len() ==> v[j] < tgt)
            ==> 0 <= #[trigger] val_of(v, tgt) < fs.len() && fs[val_of(v, tgt)]@.vals == v
}

impl Function {
    /// Every function with domain size `src` and codomain size `tgt`,
    /// exactly once each, in mixed-radix counting order starting from the
    /// all-zeros function.
    pub fn functions(src: usize, tgt: usize) -> (r: Vec<Function>)
        requires
            tgt >= 1,
            pow_int(tgt as int, src as nat) <= usize::MAX,
        ensures
            enumerates(r@, src, tgt),
    {
        let ghost total = pow_int(tgt as int, src as nat);
        let mut r: Vec<Function> = Vec::new();
        let mut cur: Option<Function> = Some(Function::new(src, tgt));
        proof {
            lemma_val_of_zeros(cur->Some_0@.vals, tgt);
            lemma_val_of_bounds(cur->Some_0@.vals, tgt);
        }
        loop
            invariant
                tgt >= 1,
                r@.len() <= total,
                total == pow_int(tgt as int, src as nat),
                total <= usize::MAX,
                forall|k: int| 0 <= k < r@.len() ==> (#[trigger] r@[k])@.wf()
                    && r@[k]@.tgt == tgt && r@[k]@.vals.len() == src
                    && val_of(r@[k]@.vals, tgt) == k,
                match cur {
                    Some(f) => f.wf() && f@.tgt == tgt && f@.vals.len() == src
                        && val_of(f@.vals, tgt) == r@.len(),
                    None => r@.len() == total,
                },
            ensures
                r@.len() == total,
                forall|k: int| 0 <= k < r@.len() ==> (#[trigger] r@[k])@.wf()
                    && r@[k]@.tgt == tgt && r@[k]@.vals.len() == src
                    && val_of(r@[k]@.vals, tgt) == k,
            decreases total - r@.len(), (match cur { Some(_) => 1int, None => 0int }),
        {
            match cur {
                Some(f) => {
                    proof {
                        lemma_val_of_bounds(f@.vals, tgt);
                    }
                    r.push(f.clone());
                    cur = f.next();
                },
                None => {
                    break;
                },
            }
        }
        proof {
            assert forall|v: Seq<usize>|
                v.len() == src && (forall|j: int| 0 <= j < v.len() ==> v[j] < tgt)
                implies 0 <= #[trigger] val_of(v, tgt) < r@.len()
                    && r@[val_of(v, tgt)]@.vals == v by {
                lemma_val_of_bounds(v, tgt);
                let k = val_of(v, tgt);
                assert(0 <= k < r@.len());
                assert(r@[k]@.vals.len() == src && val_of(r@[k]@.vals, tgt) == k
                    && r@[k]@.wf() && r@[k]@.tgt == tgt);
                lemma_val_of_injective(r@[k]@.vals, v, tgt);
            }
        }
        r
    }
}

/// The views of a sequence of borrowed functions.
pub open spec fn views_of(cs: Seq<&Function>) -> Seq<FunView> {
    cs.map_values(|f: &Function| f@)
}

/// Every function in the sequence is well formed.
pub open spec fn chain_wf(s: Seq<FunView>) -> bool {
    forall|k: int| 0 <= k < s.len() ==> (#[trigger] s[k]).wf()
}

/// Each function's codomain size matches the next one's domain size.
pub open spec fn chain_composable(s: Seq<FunView>) -> bool {
    forall|k: int| 0 <= k < s.len() - 1 ==> (#[trigger] s[k]).composable(s[k + 1])
}

/// The left fold of diagrammatic composition over a non-empty sequence.
pub open spec fn chain_view(s: Seq<FunView>) -> FunView
    recommends
        s.len() >= 1,
    decreases s.len(),
{
    if s.len() <= 1 {
        s[0]
    } else {
        chain_view(s.drop_last()).compose(s.last())
    }
}

/// Composing two well-formed, composable functions gives a well-formed
/// function whose domain is the left one's and codomain the right one's.
pub proof fn lemma_compose_wf(f: FunView, g: FunView)
    requires
        f.wf(),
        g.wf(),
        f.composable(g),
    ensures
        f.compose(g).wf(),
        f.compose(g).tgt == g.tgt,
        f.compose(g).src() == f.src(),
{
    let h = f.compose(g);
    assert forall|i: int| 0 <= i < h.vals.len() implies h.vals[i] < h.tgt by {
        assert(f.vals[i] < f.tgt);
        assert(g.vals[f.vals[i] as int] < g.tgt);
    }
}

/// A well-formed composable chain folds to a well-formed function from the
/// first function's domain to the last one's codomain.
pub proof fn lemma_chain_view_props(s: Seq<FunView>)
    requires
        s.len() >= 1,
        chain_wf(s),
        chain_composable(s),
    ensures
        chain_view(s).wf(),
        chain_view(s).tgt == s.last().tgt,
        chain_view(s).src() == s[0].src(),
    decreases s.len(),
{
    if s.len() > 1 {
        let front = s.drop_last();
        assert(chain_wf(front)) by {
            assert(forall|k: int| 0 <= k < front.len() ==> front[k] == s[k]);
        }
        assert(chain_composable(front)) by {
            assert(forall|k: int| 0 <= k < front.len() ==> front[k] == s[k]);
        }
        lemma_chain_view_props(front);
        assert(front.last() == s[s.len() - 2]);
        assert(s[s.len() - 2].composable(s.last()));
        lemma_compose_wf(chain_view(front), s.last());
    }
}

/// Left-to-right composition of a non-empty sequence of pairwise
/// composable functions; a single-element sequence folds to its element.
pub fn chain(cs: &Vec<&Function>) -> (r: Function)
    requires
        cs@.len() >= 1,
        chain_wf(views_of(cs@)),
        chain_composable(views_of(cs@)),
    ensures
        r.wf(),
        r@ == chain_view(views_of(cs@)),
{
    let ghost vs = views_of(cs@);
    let mut f: Function = cs[0].clone();
    let mut i: usize = 1;
    proof {
        assert(vs.take(1) =~= seq![vs[0]]);
        assert(f@ == chain_view(vs.take(1)));
    }
    while i < cs.len()
        invariant
            1 <= i <= cs@.len(),
            vs == views_of(cs@),
            vs.len() == cs@.len(),
            chain_wf(vs),
            chain_composable(vs),
            f.wf(),
            f@ == chain_view(vs.take(i as int)),
        decreases cs@.len() - i,
    {
        proof {
            let pre = vs.take(i as int);
            assert(chain_wf(pre) && chain_composable(pre)) by {
                assert(forall|k: int| 0 <= k < pre.len() ==> pre[k] == vs[k]);
            }
            lemma_chain_view_props(pre);
            assert(pre.last() == vs[i - 1]);
            assert(vs[i - 1].composable(vs[i as int]));
            assert(f@.composable(vs[i as int]));
        }
        let g = cs[i];
        let h = match f.compose(g) {
            Ok(h) => h,
            Err(_) => unreached(),
        };
        proof {
            let pre = vs.take(i as int);
            let now = vs.take(i + 1);
            assert(now.drop_last() =~= pre);
            assert(now.last() == vs[i as int]);
            assert(h@ == chain_view(now));
        }
        f = h;
        i += 1;
    }
    proof {
        assert(vs.take(vs.len() as int) =~= vs);
    }
    f
}

/// Composition is associative.
pub proof fn lemma_compose_assoc(f: FunView, g: FunView, h: FunView)
    requires
        f.wf(),
        g.wf(),
        h.wf(),
        f.composable(g),
        g.composable(h),
    ensures
        f.compose(g).compose(h) == f.compose(g.compose(h)),
{
    let left = f.compose(g).compose(h);
    let right = f.compose(g.compose(h));
    assert forall|i: int| 0 <= i < left.vals.len() implies left.vals[i] == right.vals[i] by {
        assert(f.vals[i] < f.tgt);
        assert(f.compose(g).vals[i] == g.vals[f.vals[i] as int]);
        assert(g.compose(h).vals[f.vals[i] as int] == h.vals[g.vals[f.vals[i] as int] as int]);
    }
    assert(left.vals =~= right.vals);
    assert(left =~= right);
}

/// A two-element chain folds to one composition.
pub proof fn lemma_chain_pair(f: FunView, g: FunView)
    ensures
        chain_view(seq![f, g]) == f.compose(g),
{
    let s = seq![f, g];
    assert(s.drop_last() =~= seq![f]);
    assert(chain_view(seq![f]) == f);
    assert(s.last() == g);
}

/// A three-element chain folds left-to-right.
pub proof fn lemma_chain_triple(f: FunView, g: FunView, h: FunView)
    ensures
        chain_view(seq![f, g, h]) == f.compose(g).compose(h),
{
    let s = seq![f, g, h];
    assert(s.drop_last() =~= seq![f, g]);
    lemma_chain_pair(f, g);
    assert(s.last() == h);
}

/// Folding three composable functions associates either way: chaining the
/// composite of the first two with the third, the three at once, or the
/// first with the composite of the last two all agree.
pub proof fn lemma_chain_assoc(f: FunView, g: FunView, h: FunView)
    requires
        f.wf(),
        g.wf(),
        h.wf(),
        f.composable(g),
        g.composable(h),
    ensures
        chain_view(seq![chain_view(seq![f, g]), h]) == chain_view(seq![f, g, h]),
        chain_view(seq![f, chain_view(seq![g, h])]) == chain_view(seq![f, g, h]),
{
    let fg = chain_view(seq![f, g]);
    let gh = chain_view(seq![g, h]);
    lemma_chain_pair(f, g);
    lemma_chain_pair(g, h);
    lemma_chain_triple(f, g, h);
    lemma_chain_pair(fg, h);
    lemma_chain_pair(f, gh);
    lemma_compose_assoc(f, g, h);
}

/// Identity laws: the identity on a function's codomain is neutral on the
/// right, and the identity on its domain is neutral on the left.
pub proof fn lemma_identity_laws(f: FunView, m: usize, n: usize)
    requires
        f.wf(),
        f.tgt == n,
        f.src() == m,
    ensures
        f.compose(id_view(n)) == f,
        id_view(m).compose(f) == f,
{
    let right = f.compose(id_view(n));
    assert forall|i: int| 0 <= i < right.vals.len() implies right.vals[i] == f.vals[i] by {
        assert(f.vals[i] < n);
        assert(id_view(n).vals[f.vals[i] as int] == f.vals[i]);
    }
    assert(right.vals =~= f.vals);
    assert(right =~= f);
    let left = id_view(m).compose(f);
    assert forall|i: int| 0 <= i < left.vals.len() implies left.vals[i] == f.vals[i] by {
        assert(id_view(m).vals[i] == i);
    }
    assert(left.vals =~= f.vals);
    assert(left =~= f);
}

/// The full enumeration of the endofunctions on an `n`-element set holds
/// the identity exactly once.
pub proof fn lemma_identity_enumerated_once(fs: Seq<Function>, n: usize)
    requires
        n >= 1,
        enumerates(fs, n, n),
    ensures
        exists|k: int| 0 <= k < fs.len() && (#[trigger] fs[k])@ == id_view(n),
        forall|k1: int, k2: int|
            0 <= k1 < fs.len() && 0 <= k2 < fs.len()
            && (#[trigger] fs[k1])@ == id_view(n) && (#[trigger] fs[k2])@ == id_view(n)
            ==> k1 == k2,
{
    let v = id_view(n).vals;
    assert(v.len() == n && forall|j: int| 0 <= j < v.len() ==> v[j] < n);
    let k = val_of(v, n);
    assert(0 <= k < fs.len() && fs[k]@.vals == v);
    assert(fs[k]@ =~= id_view(n));
}

/// Two full enumerations for the same domain and codomain sizes are the
/// same sequence of functions: the search is deterministic.
pub proof fn lemma_enumeration_deterministic(
    fs1: Seq<Function>,
    fs2: Seq<Function>,
    src: usize,
    tgt: usize,
)
    requires
        tgt >= 1,
        enumerates(fs1, src, tgt),
        enumerates(fs2, src, tgt),
    ensures
        fs1.len() == fs2.len(),
        forall|k: int| 0 <= k < fs1.len() ==> (#[trigger] fs1[k])@ == fs2[k]@,
{
    assert forall|k: int| 0 <= k < fs1.len() implies (#[trigger] fs1[k])@ == fs2[k]@ by {
        lemma_val_of_injective(fs1[k]@.vals, fs2[k]@.vals, tgt);
        assert(fs1[k]@ =~= fs2[k]@);
    }
}

impl vstd::std_specs::cmp::PartialEqSpecImpl for Function {
    open spec fn obeys_eq_spec() -> bool {
        true
    }

    open spec fn eq_spec(&self, other: &Function) -> bool {
        self@.tgt == other@.tgt && self@.vals == other@.vals
    }
}

} // verus!
