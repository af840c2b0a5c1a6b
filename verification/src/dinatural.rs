//! Dinatural families: a pair of endofunctions (here forced equal) tied to
//! two commutative squares by a six-term equality, the exhaustive search
//! for them, and the hexagon closure check between two dinaturals that
//! share a square.

use vstd::prelude::*;

use crate::function::FunView;
use crate::function::Function;
use crate::function::chain;
use crate::function::chain_view;
use crate::function::lemma_val_of_bounds;
use crate::function::pow_int;
use crate::function::val_of;
use crate::function::views_of;
use crate::square::CommutativeSquare;
use crate::square::SquareView;

verus! {

/// Mathematical model of a dinatural candidate: the two family components
/// and the two squares it is defined relative to.
#[verifier::ext_equal]
pub struct DinView {
    pub family0: FunView,
    pub family1: FunView,
    pub s1: SquareView,
    pub s2: SquareView,
}

/// The six-term dinaturality condition: `s1.up_left ; f0 ; s2.up_right`
/// equals `s1.down_left ; f1 ; s2.down_right`.
pub open spec fn din_ok(f0: FunView, f1: FunView, s1: SquareView, s2: SquareView) -> bool {
    chain_view(seq![s1.up_left, f0, s2.up_right])
        == chain_view(seq![s1.down_left, f1, s2.down_right])
}

/// Both family components are well-formed endofunctions on `n` elements
/// and both squares are typed over the same set.
pub open spec fn din_typed(
    f0: FunView,
    f1: FunView,
    s1: SquareView,
    s2: SquareView,
    n: usize,
) -> bool {
    &&& f0.wf() && f0.is_endo(n)
    &&& f1.wf() && f1.is_endo(n)
    &&& s1.typed(n)
    &&& s2.typed(n)
}

impl DinView {
    /// A valid dinatural over an `n`-element set.
    pub open spec fn wf(self, n: usize) -> bool {
        din_typed(self.family0, self.family1, self.s1, self.s2, n)
            && din_ok(self.family0, self.family1, self.s1, self.s2)
    }
}

/// The upper six-term chain of the hexagon spanned by two dinaturals
/// sharing a square: the shared square's own legs are absorbed into each
/// dinatural's closure condition, so only the outer squares' legs and the
/// two families appear.
pub open spec fn hex_up(d1: DinView, d2: DinView) -> FunView {
    chain_view(seq![d1.s1.up_left, d1.family0, d2.family0, d2.s2.up_right])
}

/// The lower six-term chain of the hexagon spanned by two dinaturals.
pub open spec fn hex_down(d1: DinView, d2: DinView) -> FunView {
    chain_view(seq![d1.s1.down_left, d1.family1, d2.family1, d2.s2.down_right])
}

/// A list of well-formed endofunctions on one set is a composable chain.
proof fn lemma_endo_chain(s: Seq<FunView>, n: usize)
    requires
        forall|k: int| 0 <= k < s.len() ==> (#[trigger] s[k]).wf() && s[k].is_endo(n),
    ensures
        crate::function::chain_wf(s),
        crate::function::chain_composable(s),
{
}

/// A family of functions tied to two borrowed commutative squares; it
/// never outlives the collection that owns the squares.
pub struct Dinatural<'a> {
    family: [Function; 2],
    s1: &'a CommutativeSquare,
    s2: &'a CommutativeSquare,
}

impl<'a> View for Dinatural<'a> {
    type V = DinView;

    closed spec fn view(&self) -> DinView {
        DinView {
            family0: self.family[0]@,
            family1: self.family[1]@,
            s1: (*self.s1)@,
            s2: (*self.s2)@,
        }
    }
}

impl<'a> Dinatural<'a> {
    /// Validating factory: yields the dinatural exactly when the six-term
    /// equality holds for the family relative to the two squares.
    pub fn new(
        family: [Function; 2],
        s1: &'a CommutativeSquare,
        s2: &'a CommutativeSquare,
    ) -> (r: Option<Dinatural<'a>>)
        requires
            din_typed(family[0]@, family[1]@, s1@, s2@, s1@.up_left.tgt),
        ensures
            match r {
                Some(d) => d@ == (DinView {
                    family0: family[0]@,
                    family1: family[1]@,
                    s1: s1@,
                    s2: s2@,
                }) && din_ok(family[0]@, family[1]@, s1@, s2@),
                None => !din_ok(family[0]@, family[1]@, s1@, s2@),
            },
    {
        let up: Vec<&Function> = vec![s1.up_left(), &family[0], s2.up_right()];
        let down: Vec<&Function> = vec![s1.down_left(), &family[1], s2.down_right()];
        proof {
            assert(views_of(up@) =~= seq![s1@.up_left, family[0]@, s2@.up_right]);
            assert(views_of(down@) =~= seq![s1@.down_left, family[1]@, s2@.down_right]);
        }
        let p = chain(&up);
        let q = chain(&down);
        if p == q {
            proof {
                assert(p@ =~= q@);
            }
            Some(Dinatural { family, s1, s2 })
        } else {
            proof {
                assert(p@ != q@) by {
                    if p@ == q@ {
                        assert(p@.tgt == q@.tgt && p@.vals == q@.vals);
                    }
                }
            }
            None
        }
    }

    /// The first family component.
    pub fn family0(&self) -> (r: &Function)
        ensures
            r@ == self@.family0,
    {
        &self.family[0]
    }

    /// The second family component.
    pub fn family1(&self) -> (r: &Function)
        ensures
            r@ == self@.family1,
    {
        &self.family[1]
    }

    /// The first square the family is defined relative to.
    pub fn s1(&self) -> (r: &CommutativeSquare)
        ensures
            r@ == self@.s1,
    {
        self.s1
    }

    /// The second square the family is defined relative to.
    pub fn s2(&self) -> (r: &CommutativeSquare)
        ensures
            r@ == self@.s2,
    {
        self.s2
    }

    /// The upper hexagon chain spanned with another dinatural, as the
    /// ordered list of its four functions.
    pub fn hexagon_up_other<'b>(&'b self, other: &'b Dinatural) -> (r: Vec<&'b Function>)
        ensures
            views_of(r@) == seq![
                self@.s1.up_left,
                self@.family0,
                other@.family0,
                other@.s2.up_right,
            ],
    {
        let r: Vec<&'b Function> = vec![
            self.s1.up_left(),
            &self.family[0],
            &other.family[0],
            other.s2.up_right(),
        ];
        proof {
            assert(views_of(r@) =~= seq![
                self@.s1.up_left,
                self@.family0,
                other@.family0,
                other@.s2.up_right,
            ]);
        }
        r
    }

    /// The lower hexagon chain spanned with another dinatural, as the
    /// ordered list of its four functions.
    pub fn hexagon_down_other<'b>(&'b self, other: &'b Dinatural) -> (r: Vec<&'b Function>)
        ensures
            views_of(r@) == seq![
                self@.s1.down_left,
                self@.family1,
                other@.family1,
                other@.s2.down_right,
            ],
    {
        let r: Vec<&'b Function> = vec![
            self.s1.down_left(),
            &self.family[1],
            &other.family[1],
            other.s2.down_right(),
        ];
        proof {
            assert(views_of(r@) =~= seq![
                self@.s1.down_left,
                self@.family1,
                other@.family1,
                other@.s2.down_right,
            ]);
        }
        r
    }

    /// Hexagon closure: whether the upper and lower six-term chains of the
    /// hexagon spanned by the two dinaturals compose to the same function.
    pub fn composes_with(&self, other: &Dinatural) -> (r: bool)
        requires
            self@.wf(self@.s1.up_left.tgt),
            other@.wf(self@.s1.up_left.tgt),
        ensures
            r == (hex_up(self@, other@) == hex_down(self@, other@)),
    {
        let up = self.hexagon_up_other(other);
        let down = self.hexagon_down_other(other);
        proof {
            let n = self@.s1.up_left.tgt;
            let uv = views_of(up@);
            let dv = views_of(down@);
            assert(uv.len() == 4 && dv.len() == 4);
            assert(up@.len() == 4 && down@.len() == 4);
            assert forall|k: int| 0 <= k < uv.len() implies (#[trigger] uv[k]).wf()
                && uv[k].is_endo(n) by {
                assert(uv[0] == self@.s1.up_left && uv[1] == self@.family0
                    && uv[2] == other@.family0 && uv[3] == other@.s2.up_right);
            }
            assert forall|k: int| 0 <= k < dv.len() implies (#[trigger] dv[k]).wf()
                && dv[k].is_endo(n) by {
                assert(dv[0] == self@.s1.down_left && dv[1] == self@.family1
                    && dv[2] == other@.family1 && dv[3] == other@.s2.down_right);
            }
            lemma_endo_chain(uv, n);
            lemma_endo_chain(dv, n);
        }
        let p = chain(&down);
        let q = chain(&up);
        let r = p == q;
        proof {
            if p@ == q@ {
                assert(hex_up(self@, other@) == hex_down(self@, other@));
            }
            if r {
                assert(p@ =~= q@);
            } else {
                assert(p@ != q@) by {
                    if p@ == q@ {
                        assert(p@.tgt == q@.tgt && p@.vals == q@.vals);
                    }
                }
            }
        }
        r
    }
}

/// The list holds a dinatural with exactly this shared family component
/// and these two squares.
pub open spec fn in_dinaturals<'a>(
    list: Seq<Dinatural<'a>>,
    e: FunView,
    s1: SquareView,
    s2: SquareView,
) -> bool {
    exists|k: int| 0 <= k < list.len() && (#[trigger] list[k])@ == (DinView {
        family0: e,
        family1: e,
        s1,
        s2,
    })
}

/// Whatever the list already holds, it still holds after another
/// dinatural is appended.
proof fn lemma_in_dinaturals_push<'a>(
    list: Seq<Dinatural<'a>>,
    d: Dinatural<'a>,
    e: FunView,
    s1: SquareView,
    s2: SquareView,
)
    requires
        in_dinaturals(list, e, s1, s2),
    ensures
        in_dinaturals(list.push(d), e, s1, s2),
{
    let k = choose|k: int|
        0 <= k < list.len() && (#[trigger] list[k])@ == (DinView {
            family0: e,
            family1: e,
            s1,
            s2,
        });
    assert(list.push(d)[k] == list[k]);
}

/// Enumerates every endofunction `e` on the `n`-element set and retains,
/// as a dinatural with family `[e, e]` relative to `(p, q)`, exactly those
/// that satisfy the six-term equality. The two family components are
/// deliberately forced equal — a known restriction of the full candidate
/// space: only the `n^n` shared families are tried per pair of squares,
/// not `n^n * n^n` independent component pairs.
#[verifier::loop_isolation(false)]
pub fn dinaturals_for_squares<'a>(
    n: usize,
    p: &'a CommutativeSquare,
    q: &'a CommutativeSquare,
) -> (r: Vec<Dinatural<'a>>)
    requires
        n >= 1,
        pow_int(n as int, n as nat) <= usize::MAX,
        p@.wf(n),
        q@.wf(n),
    ensures
        pair_sound(r@, p@, q@, n),
        pair_complete(r@, p@, q@, n),
        pair_sorted(r@, n),
{
    let fs = Function::functions(n, n);
    let ghost vs = fs@;
    let len = fs.len();
    let mut out: Vec<Dinatural<'a>> = Vec::new();
    let mut i: usize = 0;
    while i < len
        invariant
            i <= len,
            forall|k: int| 0 <= k < out@.len() ==> (#[trigger] out@[k])@.s1 == p@
                && out@[k]@.s2 == q@ && out@[k]@.family0 == out@[k]@.family1
                && out@[k]@.family0.wf() && out@[k]@.family0.is_endo(n)
                && din_ok(out@[k]@.family0, out@[k]@.family1, p@, q@),
            forall|kf: int| 0 <= kf < i && din_ok(vs[kf]@, vs[kf]@, p@, q@)
                ==> in_dinaturals(out@, (#[trigger] vs[kf])@, p@, q@),
            forall|k: int| 0 <= k < out@.len()
                ==> val_of((#[trigger] out@[k])@.family0.vals, n) < i,
            forall|k1: int, k2: int| 0 <= k1 < k2 < out@.len()
                ==> val_of((#[trigger] out@[k1])@.family0.vals, n)
                    < val_of((#[trigger] out@[k2])@.family0.vals, n),
        decreases len - i,
    {
        let e0 = fs[i].clone();
        let e1 = fs[i].clone();
        let fam = [e0, e1];
        let ghost pre = out@;
        match Dinatural::new(fam, p, q) {
            Some(d) => {
                out.push(d);
                proof {
                    assert forall|kf: int|
                        0 <= kf < i + 1 && din_ok(vs[kf]@, vs[kf]@, p@, q@)
                        implies in_dinaturals(out@, (#[trigger] vs[kf])@, p@, q@) by {
                        if kf < i {
                            lemma_in_dinaturals_push(pre, d, vs[kf]@, p@, q@);
                        } else {
                            assert(out@[pre.len() as int] == d);
                            assert(d@ == (DinView {
                                family0: vs[kf]@,
                                family1: vs[kf]@,
                                s1: p@,
                                s2: q@,
                            }));
                        }
                    }
                    assert(d@.family0 == vs[i as int]@);
                    assert(val_of(d@.family0.vals, n) == i);
                    assert forall|k1: int, k2: int| 0 <= k1 < k2 < out@.len()
                        implies val_of((#[trigger] out@[k1])@.family0.vals, n)
                            < val_of((#[trigger] out@[k2])@.family0.vals, n) by {
                        assert(out@[k1] == pre[k1]);
                        if k2 < pre.len() {
                            assert(out@[k2] == pre[k2]);
                        } else {
                            assert(out@[k2] == d);
                        }
                    }
                }
            },
            None => {
                proof {
                    assert forall|kf: int|
                        0 <= kf < i + 1 && din_ok(vs[kf]@, vs[kf]@, p@, q@)
                        implies in_dinaturals(out@, (#[trigger] vs[kf])@, p@, q@) by {
                        assert(kf < i);
                    }
                }
            },
        }
        i += 1;
    }
    proof {
        assert forall|e: FunView|
            e.wf() && e.is_endo(n) && #[trigger] din_ok(e, e, p@, q@)
            implies in_dinaturals(out@, e, p@, q@) by {
            lemma_val_of_bounds(e.vals, n);
            let kf = val_of(e.vals, n);
            assert(vs[kf]@.vals == e.vals && vs[kf]@ =~= e);
        }
    }
    out
}

/// Every retained dinatural ties a shared, well-formed family to exactly
/// these two squares and satisfies the six-term equality.
pub open spec fn pair_sound<'a>(
    list: Seq<Dinatural<'a>>,
    p: SquareView,
    q: SquareView,
    n: usize,
) -> bool {
    forall|k: int| 0 <= k < list.len() ==> (#[trigger] list[k])@.s1 == p && list[k]@.s2 == q
        && list[k]@.family0 == list[k]@.family1 && list[k]@.family0.wf()
        && list[k]@.family0.is_endo(n) && din_ok(list[k]@.family0, list[k]@.family1, p, q)
}

/// Every endofunction satisfying the six-term equality for the pair is
/// retained.
pub open spec fn pair_complete<'a>(
    list: Seq<Dinatural<'a>>,
    p: SquareView,
    q: SquareView,
    n: usize,
) -> bool {
    forall|e: FunView| #![trigger din_ok(e, e, p, q)]
        e.wf() && e.is_endo(n) && din_ok(e, e, p, q) ==> in_dinaturals(list, e, p, q)
}

/// The retained dinaturals stand in enumeration order of their family.
pub open spec fn pair_sorted<'a>(list: Seq<Dinatural<'a>>, n: usize) -> bool {
    forall|k1: int, k2: int| 0 <= k1 < k2 < list.len()
        ==> val_of((#[trigger] list[k1])@.family0.vals, n)
            < val_of((#[trigger] list[k2])@.family0.vals, n)
}

/// Two sound, strictly ordered collections of dinaturals for one pair of
/// squares that hold the same families are the same list.
proof fn lemma_pair_sorted_same_members_equal<'a, 'b>(
    l1: Seq<Dinatural<'a>>,
    l2: Seq<Dinatural<'b>>,
    p: SquareView,
    q: SquareView,
    n: usize,
)
    requires
        n >= 1,
        pair_sound(l1, p, q, n),
        pair_sound(l2, p, q, n),
        pair_sorted(l1, n),
        pair_sorted(l2, n),
        forall|e: FunView| #[trigger] in_dinaturals(l1, e, p, q) ==> in_dinaturals(l2, e, p, q),
        forall|e: FunView| #[trigger] in_dinaturals(l2, e, p, q) ==> in_dinaturals(l1, e, p, q),
    ensures
        l1.len() == l2.len(),
        forall|k: int| 0 <= k < l1.len() ==> (#[trigger] l1[k])@ == l2[k]@,
    decreases l1.len(),
{
    if l1.len() == 0 && l2.len() == 0 {
    } else if l1.len() == 0 {
        let e = l2[0]@.family0;
        assert(l2[0]@ =~= (DinView { family0: e, family1: e, s1: p, s2: q }));
        assert(in_dinaturals(l2, e, p, q));
        assert(in_dinaturals(l1, e, p, q));
        assert(false);
    } else if l2.len() == 0 {
        let e = l1[0]@.family0;
        assert(l1[0]@ =~= (DinView { family0: e, family1: e, s1: p, s2: q }));
        assert(in_dinaturals(l1, e, p, q));
        assert(in_dinaturals(l2, e, p, q));
        assert(false);
    } else {
        let e1 = l1[0]@.family0;
        let e2 = l2[0]@.family0;
        assert(l1[0]@ =~= (DinView { family0: e1, family1: e1, s1: p, s2: q }));
        assert(l2[0]@ =~= (DinView { family0: e2, family1: e2, s1: p, s2: q }));
        assert(in_dinaturals(l1, e1, p, q));
        assert(in_dinaturals(l2, e1, p, q));
        let k = choose|k: int|
            0 <= k < l2.len() && (#[trigger] l2[k])@ == (DinView {
                family0: e1,
                family1: e1,
                s1: p,
                s2: q,
            });
        assert(in_dinaturals(l2, e2, p, q));
        assert(in_dinaturals(l1, e2, p, q));
        let m = choose|m: int|
            0 <= m < l1.len() && (#[trigger] l1[m])@ == (DinView {
                family0: e2,
                family1: e2,
                s1: p,
                s2: q,
            });
        assert(val_of(e2.vals, n) <= val_of(e1.vals, n));
        assert(val_of(e1.vals, n) <= val_of(e2.vals, n));
        crate::function::lemma_val_of_injective(e1.vals, e2.vals, n);
        assert(e1 =~= e2);
        let t1 = l1.skip(1);
        let t2 = l2.skip(1);
        assert(forall|j: int| 0 <= j < t1.len() ==> #[trigger] t1[j] == l1[j + 1]);
        assert(forall|j: int| 0 <= j < t2.len() ==> #[trigger] t2[j] == l2[j + 1]);
        assert forall|e: FunView| #[trigger] in_dinaturals(t1, e, p, q)
            implies in_dinaturals(t2, e, p, q) by {
            let kk = choose|kk: int|
                0 <= kk < t1.len() && (#[trigger] t1[kk])@ == (DinView {
                    family0: e,
                    family1: e,
                    s1: p,
                    s2: q,
                });
            assert(t1[kk] == l1[kk + 1]);
            assert(in_dinaturals(l1, e, p, q));
            assert(in_dinaturals(l2, e, p, q));
            let k2 = choose|k2: int|
                0 <= k2 < l2.len() && (#[trigger] l2[k2])@ == (DinView {
                    family0: e,
                    family1: e,
                    s1: p,
                    s2: q,
                });
            if k2 == 0 {
                assert(val_of(l1[kk + 1]@.family0.vals, n) > val_of(l1[0]@.family0.vals, n));
                assert(false);
            }
            assert(t2[k2 - 1] == l2[k2]);
            assert(in_dinaturals(t2, e, p, q));
        }
        assert forall|e: FunView| #[trigger] in_dinaturals(t2, e, p, q)
            implies in_dinaturals(t1, e, p, q) by {
            let kk = choose|kk: int|
                0 <= kk < t2.len() && (#[trigger] t2[kk])@ == (DinView {
                    family0: e,
                    family1: e,
                    s1: p,
                    s2: q,
                });
            assert(t2[kk] == l2[kk + 1]);
            assert(in_dinaturals(l2, e, p, q));
            assert(in_dinaturals(l1, e, p, q));
            let k1 = choose|k1: int|
                0 <= k1 < l1.len() && (#[trigger] l1[k1])@ == (DinView {
                    family0: e,
                    family1: e,
                    s1: p,
                    s2: q,
                });
            if k1 == 0 {
                assert(val_of(l2[kk + 1]@.family0.vals, n) > val_of(l2[0]@.family0.vals, n));
                assert(false);
            }
            assert(t1[k1 - 1] == l1[k1]);
            assert(in_dinaturals(t1, e, p, q));
        }
        lemma_pair_sorted_same_members_equal(t1, t2, p, q, n);
        assert forall|j: int| 0 <= j < l1.len() implies (#[trigger] l1[j])@ == l2[j]@ by {
            if j > 0 {
                assert(t1[j - 1]@ == t2[j - 1]@);
                assert(l1[j] == t1[j - 1] && l2[j] == t2[j - 1]);
            }
        }
    }
}

/// The dinatural search for one pair of squares is deterministic: any two
/// collections that are sound, complete and in enumeration order for the
/// same pair and the same `n` — as every run of the search produces — are
/// the same list, so repeated runs yield identical counts and identical
/// dinaturals in identical order.
pub proof fn lemma_dinatural_search_deterministic<'a, 'b>(
    l1: Seq<Dinatural<'a>>,
    l2: Seq<Dinatural<'b>>,
    p: SquareView,
    q: SquareView,
    n: usize,
)
    requires
        n >= 1,
        pair_sound(l1, p, q, n),
        pair_complete(l1, p, q, n),
        pair_sorted(l1, n),
        pair_sound(l2, p, q, n),
        pair_complete(l2, p, q, n),
        pair_sorted(l2, n),
    ensures
        l1.len() == l2.len(),
        forall|k: int| 0 <= k < l1.len() ==> (#[trigger] l1[k])@ == l2[k]@,
{
    assert forall|e: FunView| #[trigger] in_dinaturals(l1, e, p, q)
        implies in_dinaturals(l2, e, p, q) by {
        let k = choose|k: int|
            0 <= k < l1.len() && (#[trigger] l1[k])@ == (DinView {
                family0: e,
                family1: e,
                s1: p,
                s2: q,
            });
        assert(e.wf() && e.is_endo(n) && din_ok(e, e, p, q));
    }
    assert forall|e: FunView| #[trigger] in_dinaturals(l2, e, p, q)
        implies in_dinaturals(l1, e, p, q) by {
        let k = choose|k: int|
            0 <= k < l2.len() && (#[trigger] l2[k])@ == (DinView {
                family0: e,
                family1: e,
                s1: p,
                s2: q,
            });
        assert(e.wf() && e.is_endo(n) && din_ok(e, e, p, q));
    }
    lemma_pair_sorted_same_members_equal(l1, l2, p, q, n);
}

/// The dinatural holds a family shared between some ordered pair of
/// squares from the collection.
pub open spec fn from_pair(d: DinView, squares: Seq<CommutativeSquare>) -> bool {
    exists|i: int, j: int| 0 <= i < squares.len() && 0 <= j < squares.len()
        && d.s1 == (#[trigger] squares[i])@ && d.s2 == (#[trigger] squares[j])@
}

/// The position of a square's view in the collection.
pub open spec fn index_of_square(squares: Seq<CommutativeSquare>, v: SquareView) -> int {
    choose|i: int| 0 <= i < squares.len() && (#[trigger] squares[i])@ == v
}

/// The position a dinatural's entry takes in the pairwise sweep: the
/// ordered pair of its squares' positions, then its family's numeral.
pub open spec fn sweep_key(d: DinView, squares: Seq<CommutativeSquare>, n: usize) -> int {
    (index_of_square(squares, d.s1) * squares.len()
        + index_of_square(squares, d.s2)) * pow_int(n as int, n as nat)
        + val_of(d.family0.vals, n)
}

/// The sweep's output stands in pair order, families in enumeration order
/// within each pair.
pub open spec fn sweep_sorted<'a>(
    list: Seq<Dinatural<'a>>,
    squares: Seq<CommutativeSquare>,
    n: usize,
) -> bool {
    forall|k1: int, k2: int| 0 <= k1 < k2 < list.len()
        ==> sweep_key((#[trigger] list[k1])@, squares, n)
            < sweep_key((#[trigger] list[k2])@, squares, n)
}

/// No two squares of the collection are the same square.
pub open spec fn squares_distinct(squares: Seq<CommutativeSquare>) -> bool {
    forall|k1: int, k2: int| 0 <= k1 < k2 < squares.len()
        ==> (#[trigger] squares[k1])@ != (#[trigger] squares[k2])@
}

/// A square's view found in a duplicate-free collection names its
/// position uniquely.
proof fn lemma_index_of_unique(squares: Seq<CommutativeSquare>, i: int)
    requires
        squares_distinct(squares),
        0 <= i < squares.len(),
    ensures
        index_of_square(squares, squares[i]@) == i,
{
    assert(exists|k: int| 0 <= k < squares.len() && (#[trigger] squares[k])@ == squares[i]@) by {
        assert(0 <= i < squares.len() && (#[trigger] squares[i])@ == squares[i]@);
    }
    let i2 = index_of_square(squares, squares[i]@);
    assert(0 <= i2 < squares.len() && squares[i2]@ == squares[i]@);
    if i2 < i {
        assert(squares[i2]@ != squares[i]@);
    } else if i2 > i {
        assert(squares[i]@ != squares[i2]@);
    }
}

/// Every retained dinatural of the sweep ties a shared, well-formed
/// family to some ordered pair of squares from the collection and
/// satisfies the six-term equality for that pair.
pub open spec fn sweep_sound<'a>(
    list: Seq<Dinatural<'a>>,
    squares: Seq<CommutativeSquare>,
    n: usize,
) -> bool {
    forall|k: int| 0 <= k < list.len() ==> from_pair((#[trigger] list[k])@, squares)
        && list[k]@.family0 == list[k]@.family1 && list[k]@.family0.wf()
        && list[k]@.family0.is_endo(n)
        && din_ok(list[k]@.family0, list[k]@.family1, list[k]@.s1, list[k]@.s2)
}

/// For every ordered pair of squares from the collection, every
/// endofunction satisfying the six-term equality is retained.
pub open spec fn sweep_complete<'a>(
    list: Seq<Dinatural<'a>>,
    squares: Seq<CommutativeSquare>,
    n: usize,
) -> bool {
    forall|i: int, j: int, e: FunView|
        #![trigger din_ok(e, e, squares[i]@, squares[j]@)]
        0 <= i < squares.len() && 0 <= j < squares.len() && e.wf() && e.is_endo(n)
            && din_ok(e, e, squares[i]@, squares[j]@)
            ==> in_dinaturals(list, e, squares[i]@, squares[j]@)
}

/// Runs the dinatural search across every ordered pair of squares from
/// the collection, in order, and gathers all retained dinaturals.
#[verifier::loop_isolation(false)]
pub fn dinaturals<'a>(n: usize, all_squares: &'a Vec<CommutativeSquare>) -> (r: Vec<
    Dinatural<'a>,
>)
    requires
        n >= 1,
        pow_int(n as int, n as nat) <= usize::MAX,
        forall|k: int| 0 <= k < all_squares@.len() ==> (#[trigger] all_squares@[k])@.wf(n),
    ensures
        sweep_sound(r@, all_squares@, n),
        sweep_complete(r@, all_squares@, n),
        squares_distinct(all_squares@) ==> sweep_sorted(r@, all_squares@, n),
{
    let ghost l = pow_int(n as int, n as nat);
    proof {
        crate::function::lemma_pow_int_positive(n as int, n as nat);
    }
    let len = all_squares.len();
    let mut out: Vec<Dinatural<'a>> = Vec::new();
    let mut i: usize = 0;
    while i < len
        invariant
            i <= len,
            forall|k: int| 0 <= k < out@.len() ==> from_pair((#[trigger] out@[k])@, all_squares@)
                && out@[k]@.family0 == out@[k]@.family1 && out@[k]@.family0.wf()
                && out@[k]@.family0.is_endo(n)
                && din_ok(out@[k]@.family0, out@[k]@.family1, out@[k]@.s1, out@[k]@.s2),
            forall|i0: int, j0: int, e: FunView|
                #![trigger din_ok(e, e, all_squares@[i0]@, all_squares@[j0]@)]
                0 <= i0 < i && 0 <= j0 < len && e.wf() && e.is_endo(n)
                    && din_ok(e, e, all_squares@[i0]@, all_squares@[j0]@)
                    ==> in_dinaturals(out@, e, all_squares@[i0]@, all_squares@[j0]@),
            squares_distinct(all_squares@) ==> sweep_sorted(out@, all_squares@, n)
                && (forall|k: int| 0 <= k < out@.len()
                    ==> sweep_key((#[trigger] out@[k])@, all_squares@, n)
                        < (i as int * len as int) * l),
        decreases len - i,
    {
        let mut j: usize = 0;
        while j < len
            invariant
                j <= len,
                forall|k: int| 0 <= k < out@.len() ==> from_pair(
                    (#[trigger] out@[k])@,
                    all_squares@,
                ) && out@[k]@.family0 == out@[k]@.family1 && out@[k]@.family0.wf()
                    && out@[k]@.family0.is_endo(n)
                    && din_ok(out@[k]@.family0, out@[k]@.family1, out@[k]@.s1, out@[k]@.s2),
                forall|i0: int, j0: int, e: FunView|
                    #![trigger din_ok(e, e, all_squares@[i0]@, all_squares@[j0]@)]
                    0 <= i0 < i && 0 <= j0 < len && e.wf() && e.is_endo(n)
                        && din_ok(e, e, all_squares@[i0]@, all_squares@[j0]@)
                        ==> in_dinaturals(out@, e, all_squares@[i0]@, all_squares@[j0]@),
                forall|j0: int, e: FunView|
                    #![trigger din_ok(e, e, all_squares@[i as int]@, all_squares@[j0]@)]
                    0 <= j0 < j && e.wf() && e.is_endo(n)
                        && din_ok(e, e, all_squares@[i as int]@, all_squares@[j0]@)
                        ==> in_dinaturals(out@, e, all_squares@[i as int]@, all_squares@[j0]@),
                squares_distinct(all_squares@) ==> sweep_sorted(out@, all_squares@, n)
                    && (forall|k: int| 0 <= k < out@.len()
                        ==> sweep_key((#[trigger] out@[k])@, all_squares@, n)
                            < (i as int * len as int + j as int) * l),
            decreases len - j,
        {
            let s1 = &all_squares[i];
            let s2 = &all_squares[j];
            let mut xs = dinaturals_for_squares(n, s1, s2);
            let ghost pre = out@;
            let ghost xsv = xs@;
            out.append(&mut xs);
            proof {
                assert(out@ == pre + xsv);
                assert forall|k: int| 0 <= k < out@.len() implies from_pair(
                    (#[trigger] out@[k])@,
                    all_squares@,
                ) && out@[k]@.family0 == out@[k]@.family1 && out@[k]@.family0.wf()
                    && out@[k]@.family0.is_endo(n)
                    && din_ok(out@[k]@.family0, out@[k]@.family1, out@[k]@.s1, out@[k]@.s2) by {
                    if k < pre.len() {
                        assert(out@[k] == pre[k]);
                    } else {
                        assert(out@[k] == xsv[k - pre.len()]);
                        assert(out@[k]@.s1 == all_squares@[i as int]@
                            && out@[k]@.s2 == all_squares@[j as int]@);
                    }
                }
                assert forall|e: FunView, s1v: SquareView, s2v: SquareView|
                    in_dinaturals(pre, e, s1v, s2v) || in_dinaturals(xsv, e, s1v, s2v)
                    implies #[trigger] in_dinaturals(out@, e, s1v, s2v) by {
                    if in_dinaturals(pre, e, s1v, s2v) {
                        let k = choose|k: int|
                            0 <= k < pre.len() && (#[trigger] pre[k])@ == (DinView {
                                family0: e,
                                family1: e,
                                s1: s1v,
                                s2: s2v,
                            });
                        assert(out@[k] == pre[k]);
                    } else {
                        let k = choose|k: int|
                            0 <= k < xsv.len() && (#[trigger] xsv[k])@ == (DinView {
                                family0: e,
                                family1: e,
                                s1: s1v,
                                s2: s2v,
                            });
                        assert(out@[pre.len() + k] == xsv[k]);
                    }
                }
                if squares_distinct(all_squares@) {
                    lemma_index_of_unique(all_squares@, i as int);
                    lemma_index_of_unique(all_squares@, j as int);
                    let base = (i as int * len as int + j as int) * l;
                    assert forall|k: int| pre.len() <= k < out@.len()
                        implies sweep_key((#[trigger] out@[k])@, all_squares@, n)
                            == base + val_of(out@[k]@.family0.vals, n)
                            && 0 <= val_of(out@[k]@.family0.vals, n) < l by {
                        assert(out@[k] == xsv[k - pre.len()]);
                        assert(out@[k]@.s1 == all_squares@[i as int]@
                            && out@[k]@.s2 == all_squares@[j as int]@);
                        assert(out@[k]@.family0.wf() && out@[k]@.family0.is_endo(n));
                        lemma_val_of_bounds(out@[k]@.family0.vals, n);
                    }
                    assert forall|k1: int, k2: int| 0 <= k1 < k2 < out@.len()
                        implies sweep_key((#[trigger] out@[k1])@, all_squares@, n)
                            < sweep_key((#[trigger] out@[k2])@, all_squares@, n) by {
                        if k2 < pre.len() {
                            assert(out@[k1] == pre[k1] && out@[k2] == pre[k2]);
                        } else if k1 < pre.len() {
                            assert(out@[k1] == pre[k1]);
                        } else {
                            assert(out@[k1] == xsv[k1 - pre.len()]
                                && out@[k2] == xsv[k2 - pre.len()]);
                            assert(val_of(xsv[k1 - pre.len()]@.family0.vals, n)
                                < val_of(xsv[k2 - pre.len()]@.family0.vals, n));
                        }
                    }
                    assert forall|k: int| 0 <= k < out@.len()
                        implies sweep_key((#[trigger] out@[k])@, all_squares@, n) < base + l by {
                        if k < pre.len() {
                            assert(out@[k] == pre[k]);
                            assert(sweep_key(pre[k]@, all_squares@, n) < base);
                        } else {
                            assert(sweep_key(out@[k]@, all_squares@, n)
                                == base + val_of(out@[k]@.family0.vals, n));
                            assert(val_of(out@[k]@.family0.vals, n) < l);
                        }
                    }
                    assert((i as int * len as int + j as int) * l + l
                        == (i as int * len as int + (j as int + 1)) * l) by (nonlinear_arith);
                }
            }
            j += 1;
        }
        proof {
            assert((i as int * len as int + len as int) * l
                == ((i as int + 1) * len as int) * l) by (nonlinear_arith);
        }
        i += 1;
    }
    out
}

/// A collection of squares in enumeration order — as the square search
/// returns it — holds no square twice.
pub proof fn lemma_sorted_squares_distinct(squares: Seq<CommutativeSquare>, n: usize)
    requires
        crate::square::squares_sorted(squares, n),
    ensures
        squares_distinct(squares),
{
    assert forall|k1: int, k2: int| 0 <= k1 < k2 < squares.len()
        implies (#[trigger] squares[k1])@ != (#[trigger] squares[k2])@ by {
        assert(crate::square::square_key(squares[k1]@, n)
            < crate::square::square_key(squares[k2]@, n));
    }
}

/// Two retained sweep entries at the same sweep position are the same
/// dinatural.
proof fn lemma_sweep_key_injective(
    d1: DinView,
    d2: DinView,
    squares: Seq<CommutativeSquare>,
    n: usize,
)
    requires
        n >= 1,
        squares_distinct(squares),
        from_pair(d1, squares),
        d1.family0 == d1.family1,
        d1.family0.wf(),
        d1.family0.is_endo(n),
        from_pair(d2, squares),
        d2.family0 == d2.family1,
        d2.family0.wf(),
        d2.family0.is_endo(n),
        sweep_key(d1, squares, n) == sweep_key(d2, squares, n),
    ensures
        d1 == d2,
{
    let l = pow_int(n as int, n as nat);
    crate::function::lemma_pow_int_positive(n as int, n as nat);
    let len = squares.len() as int;
    let (i1, j1) = choose|i: int, j: int|
        0 <= i < squares.len() && 0 <= j < squares.len() && d1.s1 == (#[trigger] squares[i])@
            && d1.s2 == (#[trigger] squares[j])@;
    let (i2, j2) = choose|i: int, j: int|
        0 <= i < squares.len() && 0 <= j < squares.len() && d2.s1 == (#[trigger] squares[i])@
            && d2.s2 == (#[trigger] squares[j])@;
    lemma_index_of_unique(squares, i1);
    lemma_index_of_unique(squares, j1);
    lemma_index_of_unique(squares, i2);
    lemma_index_of_unique(squares, j2);
    lemma_val_of_bounds(d1.family0.vals, n);
    lemma_val_of_bounds(d2.family0.vals, n);
    let v1 = val_of(d1.family0.vals, n);
    let v2 = val_of(d2.family0.vals, n);
    let p1 = i1 * len + j1;
    let p2 = i2 * len + j2;
    assert(p1 * l + v1 == p2 * l + v2);
    assert(p1 == p2 && v1 == v2) by (nonlinear_arith)
        requires
            p1 * l + v1 == p2 * l + v2,
            0 <= v1 < l,
            0 <= v2 < l,
    ;
    assert(i1 == i2 && j1 == j2) by (nonlinear_arith)
        requires
            i1 * len + j1 == i2 * len + j2,
            0 <= j1 < len,
            0 <= j2 < len,
    ;
    crate::function::lemma_val_of_injective(d1.family0.vals, d2.family0.vals, n);
    assert(d1.family0 =~= d2.family0);
    assert(d1 =~= d2);
}

/// Two sound, strictly ordered sweeps over one duplicate-free collection
/// of squares that hold the same dinaturals are the same list.
proof fn lemma_sweep_sorted_same_members_equal<'a, 'b>(
    l1: Seq<Dinatural<'a>>,
    l2: Seq<Dinatural<'b>>,
    squares: Seq<CommutativeSquare>,
    n: usize,
)
    requires
        n >= 1,
        squares_distinct(squares),
        sweep_sound(l1, squares, n),
        sweep_sound(l2, squares, n),
        sweep_sorted(l1, squares, n),
        sweep_sorted(l2, squares, n),
        forall|e: FunView, p: SquareView, q: SquareView|
            #[trigger] in_dinaturals(l1, e, p, q) ==> in_dinaturals(l2, e, p, q),
        forall|e: FunView, p: SquareView, q: SquareView|
            #[trigger] in_dinaturals(l2, e, p, q) ==> in_dinaturals(l1, e, p, q),
    ensures
        l1.len() == l2.len(),
        forall|k: int| 0 <= k < l1.len() ==> (#[trigger] l1[k])@ == l2[k]@,
    decreases l1.len(),
{
    if l1.len() == 0 && l2.len() == 0 {
    } else if l1.len() == 0 {
        let e = l2[0]@.family0;
        assert(l2[0]@ =~= (DinView { family0: e, family1: e, s1: l2[0]@.s1, s2: l2[0]@.s2 }));
        assert(in_dinaturals(l2, e, l2[0]@.s1, l2[0]@.s2));
        assert(in_dinaturals(l1, e, l2[0]@.s1, l2[0]@.s2));
        assert(false);
    } else if l2.len() == 0 {
        let e = l1[0]@.family0;
        assert(l1[0]@ =~= (DinView { family0: e, family1: e, s1: l1[0]@.s1, s2: l1[0]@.s2 }));
        assert(in_dinaturals(l1, e, l1[0]@.s1, l1[0]@.s2));
        assert(in_dinaturals(l2, e, l1[0]@.s1, l1[0]@.s2));
        assert(false);
    } else {
        let e1 = l1[0]@.family0;
        let e2 = l2[0]@.family0;
        assert(l1[0]@ =~= (DinView { family0: e1, family1: e1, s1: l1[0]@.s1, s2: l1[0]@.s2 }));
        assert(l2[0]@ =~= (DinView { family0: e2, family1: e2, s1: l2[0]@.s1, s2: l2[0]@.s2 }));
        assert(in_dinaturals(l1, e1, l1[0]@.s1, l1[0]@.s2));
        assert(in_dinaturals(l2, e1, l1[0]@.s1, l1[0]@.s2));
        let k = choose|k: int|
            0 <= k < l2.len() && (#[trigger] l2[k])@ == (DinView {
                family0: e1,
                family1: e1,
                s1: l1[0]@.s1,
                s2: l1[0]@.s2,
            });
        assert(l2[k]@ == l1[0]@);
        assert(in_dinaturals(l2, e2, l2[0]@.s1, l2[0]@.s2));
        assert(in_dinaturals(l1, e2, l2[0]@.s1, l2[0]@.s2));
        let m = choose|m: int|
            0 <= m < l1.len() && (#[trigger] l1[m])@ == (DinView {
                family0: e2,
                family1: e2,
                s1: l2[0]@.s1,
                s2: l2[0]@.s2,
            });
        assert(l1[m]@ == l2[0]@);
        assert(sweep_key(l2[0]@, squares, n) <= sweep_key(l2[k]@, squares, n));
        assert(sweep_key(l1[0]@, squares, n) <= sweep_key(l1[m]@, squares, n));
        lemma_sweep_key_injective(l1[0]@, l2[0]@, squares, n);
        let t1 = l1.skip(1);
        let t2 = l2.skip(1);
        assert(forall|j: int| 0 <= j < t1.len() ==> #[trigger] t1[j] == l1[j + 1]);
        assert(forall|j: int| 0 <= j < t2.len() ==> #[trigger] t2[j] == l2[j + 1]);
        assert forall|e: FunView, p: SquareView, q: SquareView|
            #[trigger] in_dinaturals(t1, e, p, q) implies in_dinaturals(t2, e, p, q) by {
            let kk = choose|kk: int|
                0 <= kk < t1.len() && (#[trigger] t1[kk])@ == (DinView {
                    family0: e,
                    family1: e,
                    s1: p,
                    s2: q,
                });
            assert(t1[kk] == l1[kk + 1]);
            assert(in_dinaturals(l1, e, p, q));
            assert(in_dinaturals(l2, e, p, q));
            let k2 = choose|k2: int|
                0 <= k2 < l2.len() && (#[trigger] l2[k2])@ == (DinView {
                    family0: e,
                    family1: e,
                    s1: p,
                    s2: q,
                });
            if k2 == 0 {
                assert(sweep_key(l1[kk + 1]@, squares, n) > sweep_key(l1[0]@, squares, n));
                assert(false);
            }
            assert(t2[k2 - 1] == l2[k2]);
            assert(in_dinaturals(t2, e, p, q));
        }
        assert forall|e: FunView, p: SquareView, q: SquareView|
            #[trigger] in_dinaturals(t2, e, p, q) implies in_dinaturals(t1, e, p, q) by {
            let kk = choose|kk: int|
                0 <= kk < t2.len() && (#[trigger] t2[kk])@ == (DinView {
                    family0: e,
                    family1: e,
                    s1: p,
                    s2: q,
                });
            assert(t2[kk] == l2[kk + 1]);
            assert(in_dinaturals(l2, e, p, q));
            assert(in_dinaturals(l1, e, p, q));
            let k1 = choose|k1: int|
                0 <= k1 < l1.len() && (#[trigger] l1[k1])@ == (DinView {
                    family0: e,
                    family1: e,
                    s1: p,
                    s2: q,
                });
            if k1 == 0 {
                assert(sweep_key(l2[kk + 1]@, squares, n) > sweep_key(l2[0]@, squares, n));
                assert(false);
            }
            assert(t1[k1 - 1] == l1[k1]);
            assert(in_dinaturals(t1, e, p, q));
        }
        lemma_sweep_sorted_same_members_equal(t1, t2, squares, n);
        assert forall|j: int| 0 <= j < l1.len() implies (#[trigger] l1[j])@ == l2[j]@ by {
            if j > 0 {
                assert(t1[j - 1]@ == t2[j - 1]@);
                assert(l1[j] == t1[j - 1] && l2[j] == t2[j - 1]);
            }
        }
    }
}

/// The whole pairwise sweep is deterministic: any two sweeps that are
/// sound, complete and in sweep order for the same duplicate-free
/// collection of squares and the same `n` — as every run of the sweep
/// over a search's output produces — are the same list, so repeated runs
/// yield identical counts and identical dinaturals in identical order.
pub proof fn lemma_dinatural_sweep_deterministic<'a, 'b>(
    l1: Seq<Dinatural<'a>>,
    l2: Seq<Dinatural<'b>>,
    squares: Seq<CommutativeSquare>,
    n: usize,
)
    requires
        n >= 1,
        squares_distinct(squares),
        sweep_sound(l1, squares, n),
        sweep_complete(l1, squares, n),
        sweep_sorted(l1, squares, n),
        sweep_sound(l2, squares, n),
        sweep_complete(l2, squares, n),
        sweep_sorted(l2, squares, n),
    ensures
        l1.len() == l2.len(),
        forall|k: int| 0 <= k < l1.len() ==> (#[trigger] l1[k])@ == l2[k]@,
{
    assert forall|e: FunView, p: SquareView, q: SquareView|
        #[trigger] in_dinaturals(l1, e, p, q) implies in_dinaturals(l2, e, p, q) by {
        let k = choose|k: int|
            0 <= k < l1.len() && (#[trigger] l1[k])@ == (DinView {
                family0: e,
                family1: e,
                s1: p,
                s2: q,
            });
        let (i, j) = choose|i: int, j: int|
            0 <= i < squares.len() && 0 <= j < squares.len()
                && l1[k]@.s1 == (#[trigger] squares[i])@ && l1[k]@.s2 == (#[trigger] squares[j])@;
        assert(e.wf() && e.is_endo(n) && din_ok(e, e, squares[i]@, squares[j]@));
        assert(in_dinaturals(l2, e, squares[i]@, squares[j]@));
    }
    assert forall|e: FunView, p: SquareView, q: SquareView|
        #[trigger] in_dinaturals(l2, e, p, q) implies in_dinaturals(l1, e, p, q) by {
        let k = choose|k: int|
            0 <= k < l2.len() && (#[trigger] l2[k])@ == (DinView {
                family0: e,
                family1: e,
                s1: p,
                s2: q,
            });
        let (i, j) = choose|i: int, j: int|
            0 <= i < squares.len() && 0 <= j < squares.len()
                && l2[k]@.s1 == (#[trigger] squares[i])@ && l2[k]@.s2 == (#[trigger] squares[j])@;
        assert(e.wf() && e.is_endo(n) && din_ok(e, e, squares[i]@, squares[j]@));
        assert(in_dinaturals(l1, e, squares[i]@, squares[j]@));
    }
    lemma_sweep_sorted_same_members_equal(l1, l2, squares, n);
}

} // verus!
