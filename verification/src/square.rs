//! Commutative squares of endofunctions: four functions on the same
//! `n`-element set whose two composition paths agree, and the exhaustive
//! search that retains every such square.

use vstd::prelude::*;

use crate::function::FunView;
use crate::function::Function;
use crate::function::chain;
use crate::function::chain_view;
use crate::function::lemma_chain_pair;
use crate::function::pow_int;
use crate::function::val_of;
use crate::function::lemma_val_of_bounds;
use crate::function::lemma_val_of_injective;
use crate::function::views_of;

verus! {

/// Mathematical model of a square: its four sides.
#[verifier::ext_equal]
pub struct SquareView {
    pub up_left: FunView,
    pub up_right: FunView,
    pub down_left: FunView,
    pub down_right: FunView,
}

impl SquareView {
    /// All four sides are well-formed endofunctions on an `n`-element set.
    pub open spec fn typed(self, n: usize) -> bool {
        &&& self.up_left.wf() && self.up_left.is_endo(n)
        &&& self.up_right.wf() && self.up_right.is_endo(n)
        &&& self.down_left.wf() && self.down_left.is_endo(n)
        &&& self.down_right.wf() && self.down_right.is_endo(n)
    }

    /// The defining property: the two composition paths agree.
    pub open spec fn commutes(self) -> bool {
        chain_view(seq![self.up_left, self.up_right])
            == chain_view(seq![self.down_left, self.down_right])
    }

    /// A valid commutative square on an `n`-element set.
    pub open spec fn wf(self, n: usize) -> bool {
        self.typed(n) && self.commutes()
    }
}

/// Four endofunctions on the same set forming two composition paths that
/// agree; the condition is checked once, at construction.
pub struct CommutativeSquare {
    up_left: Function,
    up_right: Function,
    down_left: Function,
    down_right: Function,
}

impl View for CommutativeSquare {
    type V = SquareView;

    closed spec fn view(&self) -> SquareView {
        SquareView {
            up_left: self.up_left@,
            up_right: self.up_right@,
            down_left: self.down_left@,
            down_right: self.down_right@,
        }
    }
}

impl CommutativeSquare {
    /// Validating factory: yields the square exactly when composing
    /// `up_left` then `up_right` equals composing `down_left` then
    /// `down_right`.
    pub fn new(
        up_left: Function,
        up_right: Function,
        down_left: Function,
        down_right: Function,
    ) -> (r: Option<CommutativeSquare>)
        requires
            (SquareView {
                up_left: up_left@,
                up_right: up_right@,
                down_left: down_left@,
                down_right: down_right@,
            }).typed(up_left@.tgt),
        ensures
            match r {
                Some(s) => s@ == (SquareView {
                    up_left: up_left@,
                    up_right: up_right@,
                    down_left: down_left@,
                    down_right: down_right@,
                }) && s@.commutes(),
                None => !(SquareView {
                    up_left: up_left@,
                    up_right: up_right@,
                    down_left: down_left@,
                    down_right: down_right@,
                }).commutes(),
            },
    {
        let up: Vec<&Function> = vec![&up_left, &up_right];
        let down: Vec<&Function> = vec![&down_left, &down_right];
        proof {
            assert(views_of(up@) =~= seq![up_left@, up_right@]);
            assert(views_of(down@) =~= seq![down_left@, down_right@]);
            lemma_chain_pair(up_left@, up_right@);
            lemma_chain_pair(down_left@, down_right@);
        }
        let p = chain(&up);
        let q = chain(&down);
        if p == q {
            proof {
                assert(p@ =~= q@);
            }
            Some(CommutativeSquare { up_left, up_right, down_left, down_right })
        } else {
            proof {
                assert(p@ != q@) by {
                    if p@ == q@ {
                        assert(p@.tgt == q@.tgt && p@.vals == q@.vals);
                    }
                }
            }
            None
        }
    }

    /// The first function of the upper path.
    pub fn up_left(&self) -> (r: &Function)
        ensures
            r@ == self@.up_left,
    {
        &self.up_left
    }

    /// The second function of the upper path.
    pub fn up_right(&self) -> (r: &Function)
        ensures
            r@ == self@.up_right,
    {
        &self.up_right
    }

    /// The first function of the lower path.
    pub fn down_left(&self) -> (r: &Function)
        ensures
            r@ == self@.down_left,
    {
        &self.down_left
    }

    /// The second function of the lower path.
    pub fn down_right(&self) -> (r: &Function)
        ensures
            r@ == self@.down_right,
    {
        &self.down_right
    }
}

/// The four sides, as views, in the order the search enumerates them.
pub open spec fn quad_view(a: FunView, b: FunView, c: FunView, d: FunView) -> SquareView {
    SquareView { up_left: a, up_right: b, down_left: c, down_right: d }
}

/// All four candidate sides are well-formed endofunctions on `n` elements.
pub open spec fn quad_typed(a: FunView, b: FunView, c: FunView, d: FunView, n: usize) -> bool {
    quad_view(a, b, c, d).typed(n)
}

/// The two composition paths of the candidate quadruple agree.
pub open spec fn square_ok(a: FunView, b: FunView, c: FunView, d: FunView) -> bool {
    quad_view(a, b, c, d).commutes()
}

/// The list holds a square with exactly these four sides.
pub open spec fn in_squares(
    list: Seq<CommutativeSquare>,
    a: FunView,
    b: FunView,
    c: FunView,
    d: FunView,
) -> bool {
    exists|k: int| 0 <= k < list.len() && (#[trigger] list[k])@ == quad_view(a, b, c, d)
}

/// Whatever the list already holds, it still holds after another square
/// is appended.
proof fn lemma_in_squares_push(
    list: Seq<CommutativeSquare>,
    s: CommutativeSquare,
    a: FunView,
    b: FunView,
    c: FunView,
    d: FunView,
)
    requires
        in_squares(list, a, b, c, d),
    ensures
        in_squares(list.push(s), a, b, c, d),
{
    let k = choose|k: int| 0 <= k < list.len() && (#[trigger] list[k])@ == quad_view(a, b, c, d);
    assert(list.push(s)[k] == list[k]);
}

/// A commuting quadruple drawn from the enumeration is retained once its
/// position is in the list.
spec fn covered(
    list: Seq<CommutativeSquare>,
    fs: Seq<Function>,
    ka: int,
    kb: int,
    kc: int,
    kd: int,
) -> bool {
    square_ok(fs[ka]@, fs[kb]@, fs[kc]@, fs[kd]@)
        ==> in_squares(list, fs[ka]@, fs[kb]@, fs[kc]@, fs[kd]@)
}

/// The position of a square's quadruple in the nested enumeration order:
/// its four sides' numerals read as one numeral in base `n^n`, the
/// innermost side least significant.
pub open spec fn square_key(v: SquareView, n: usize) -> int {
    let l = pow_int(n as int, n as nat);
    ((val_of(v.up_left.vals, n) * l + val_of(v.up_right.vals, n)) * l
        + val_of(v.down_left.vals, n)) * l + val_of(v.down_right.vals, n)
}

/// The position of a quadruple of enumeration indices in the nested order.
spec fn tuple_key(ka: int, kb: int, kc: int, kd: int, l: int) -> int {
    ((ka * l + kb) * l + kc) * l + kd
}

/// The retained squares stand in enumeration order: their keys increase
/// strictly along the list.
pub open spec fn squares_sorted(list: Seq<CommutativeSquare>, n: usize) -> bool {
    forall|k1: int, k2: int| 0 <= k1 < k2 < list.len()
        ==> square_key((#[trigger] list[k1])@, n) < square_key((#[trigger] list[k2])@, n)
}

/// Enumerates every quadruple of endofunctions on an `n`-element set, in
/// nested mixed-radix order, and retains exactly those that form a
/// commutative square. Returns the number of combinations examined and
/// the retained squares in enumeration order.
#[verifier::loop_isolation(false)]
pub fn commutative_squares(n: usize) -> (r: (usize, Vec<CommutativeSquare>))
    requires
        n >= 1,
        pow_int(n as int, n as nat) * pow_int(n as int, n as nat) * pow_int(n as int, n as nat)
            * pow_int(n as int, n as nat) <= usize::MAX,
    ensures
        r.0 == pow_int(n as int, n as nat) * pow_int(n as int, n as nat)
            * pow_int(n as int, n as nat) * pow_int(n as int, n as nat),
        squares_sound(r.1@, n),
        squares_complete(r.1@, n),
        squares_sorted(r.1@, n),
{
    let ghost l = pow_int(n as int, n as nat);
    proof {
        assert(l >= 1) by {
            crate::function::lemma_pow_int_positive(n as int, n as nat);
        }
        assert(l <= l * l * l * l) by (nonlinear_arith)
            requires
                l >= 1,
        ;
    }
    let fs = Function::functions(n, n);
    let ghost vs = fs@;
    let len = fs.len();
    let mut squares: Vec<CommutativeSquare> = Vec::new();
    let mut ia: usize = 0;
    while ia < len
        invariant
            ia <= len,
            forall|k: int| 0 <= k < squares@.len() ==> (#[trigger] squares@[k])@.wf(n),
            forall|ka: int, kb: int, kc: int, kd: int|
                0 <= ka < ia && 0 <= kb < len && 0 <= kc < len && 0 <= kd < len
                    ==> #[trigger] covered(squares@, vs, ka, kb, kc, kd),
            squares_sorted(squares@, n),
            forall|k: int| 0 <= k < squares@.len()
                ==> square_key((#[trigger] squares@[k])@, n) < tuple_key(ia as int, 0, 0, 0, l),
        decreases len - ia,
    {
        let mut ib: usize = 0;
        while ib < len
            invariant
                ib <= len,
                forall|k: int| 0 <= k < squares@.len() ==> (#[trigger] squares@[k])@.wf(n),
                forall|ka: int, kb: int, kc: int, kd: int|
                    0 <= ka < ia && 0 <= kb < len && 0 <= kc < len && 0 <= kd < len
                        ==> #[trigger] covered(squares@, vs, ka, kb, kc, kd),
                forall|kb: int, kc: int, kd: int|
                    0 <= kb < ib && 0 <= kc < len && 0 <= kd < len
                        ==> #[trigger] covered(squares@, vs, ia as int, kb, kc, kd),
                squares_sorted(squares@, n),
                forall|k: int| 0 <= k < squares@.len()
                    ==> square_key((#[trigger] squares@[k])@, n)
                        < tuple_key(ia as int, ib as int, 0, 0, l),
            decreases len - ib,
        {
            let mut ic: usize = 0;
            while ic < len
                invariant
                    ic <= len,
                    forall|k: int| 0 <= k < squares@.len() ==> (#[trigger] squares@[k])@.wf(n),
                    forall|ka: int, kb: int, kc: int, kd: int|
                        0 <= ka < ia && 0 <= kb < len && 0 <= kc < len && 0 <= kd < len
                            ==> #[trigger] covered(squares@, vs, ka, kb, kc, kd),
                    forall|kb: int, kc: int, kd: int|
                        0 <= kb < ib && 0 <= kc < len && 0 <= kd < len
                            ==> #[trigger] covered(squares@, vs, ia as int, kb, kc, kd),
                    forall|kc: int, kd: int|
                        0 <= kc < ic && 0 <= kd < len
                            ==> #[trigger] covered(squares@, vs, ia as int, ib as int, kc, kd),
                    squares_sorted(squares@, n),
                    forall|k: int| 0 <= k < squares@.len()
                        ==> square_key((#[trigger] squares@[k])@, n)
                            < tuple_key(ia as int, ib as int, ic as int, 0, l),
                decreases len - ic,
            {
                let mut kd_i: usize = 0;
                while kd_i < len
                    invariant
                        kd_i <= len,
                        forall|k: int| 0 <= k < squares@.len() ==> (#[trigger] squares@[k])@.wf(n),
                        forall|ka: int, kb: int, kc: int, kd: int|
                            0 <= ka < ia && 0 <= kb < len && 0 <= kc < len && 0 <= kd < len
                                ==> #[trigger] covered(squares@, vs, ka, kb, kc, kd),
                        forall|kb: int, kc: int, kd: int|
                            0 <= kb < ib && 0 <= kc < len && 0 <= kd < len
                                ==> #[trigger] covered(squares@, vs, ia as int, kb, kc, kd),
                        forall|kc: int, kd: int|
                            0 <= kc < ic && 0 <= kd < len
                                ==> #[trigger] covered(squares@, vs, ia as int, ib as int, kc, kd),
                        forall|kd: int|
                            0 <= kd < kd_i
                                ==> #[trigger] covered(squares@, vs, ia as int, ib as int, ic as int, kd),
                        squares_sorted(squares@, n),
                        forall|k: int| 0 <= k < squares@.len()
                            ==> square_key((#[trigger] squares@[k])@, n)
                                < tuple_key(ia as int, ib as int, ic as int, kd_i as int, l),
                    decreases len - kd_i,
                {
                    let a = fs[ia].clone();
                    let b = fs[ib].clone();
                    let c = fs[ic].clone();
                    let d = fs[kd_i].clone();
                    let ghost pre = squares@;
                    match CommutativeSquare::new(a, b, c, d) {
                        Some(s) => {
                            squares.push(s);
                            proof {
                                assert forall|ka: int, kb: int, kc: int, kd: int|
                                    covered(pre, vs, ka, kb, kc, kd)
                                    implies #[trigger] covered(squares@, vs, ka, kb, kc, kd) by {
                                    if square_ok(vs[ka]@, vs[kb]@, vs[kc]@, vs[kd]@) {
                                        lemma_in_squares_push(
                                            pre, s, vs[ka]@, vs[kb]@, vs[kc]@, vs[kd]@,
                                        );
                                    }
                                }
                                assert(squares@[pre.len() as int]@
                                    == quad_view(vs[ia as int]@, vs[ib as int]@, vs[ic as int]@, vs[kd_i as int]@));
                                assert(covered(squares@, vs, ia as int, ib as int, ic as int, kd_i as int));
                                assert(square_key(s@, n)
                                    == tuple_key(ia as int, ib as int, ic as int, kd_i as int, l));
                                assert forall|k1: int, k2: int| 0 <= k1 < k2 < squares@.len()
                                    implies square_key((#[trigger] squares@[k1])@, n)
                                        < square_key((#[trigger] squares@[k2])@, n) by {
                                    assert(squares@[k1] == pre[k1]);
                                    if k2 < pre.len() {
                                        assert(squares@[k2] == pre[k2]);
                                    } else {
                                        assert(squares@[k2] == s);
                                    }
                                }
                            }
                        },
                        None => {
                            proof {
                                assert(covered(squares@, vs, ia as int, ib as int, ic as int, kd_i as int));
                            }
                        },
                    }
                    kd_i += 1;
                }
                proof {
                    let x = (ia as int) * l + (ib as int);
                    assert((x * l + ic as int) * l + l == (x * l + (ic as int + 1)) * l)
                        by (nonlinear_arith);
                    assert(tuple_key(ia as int, ib as int, ic as int, l, l)
                        == tuple_key(ia as int, ib as int, ic as int + 1, 0, l));
                }
                ic += 1;
            }
            proof {
                let y = (ia as int) * l + (ib as int);
                assert((y * l + l) * l == ((y + 1) * l) * l) by (nonlinear_arith);
                assert(tuple_key(ia as int, ib as int, l, 0, l)
                    == tuple_key(ia as int, ib as int + 1, 0, 0, l));
            }
            ib += 1;
        }
        proof {
            let z = ia as int;
            assert(((z * l + l) * l) * l == (((z + 1) * l) * l) * l) by (nonlinear_arith);
            assert(tuple_key(ia as int, l, 0, 0, l)
                == tuple_key(ia as int + 1, 0, 0, 0, l));
        }
        ia += 1;
    }
    proof {
        assert forall|a: FunView, b: FunView, c: FunView, d: FunView|
            quad_typed(a, b, c, d, n) && square_ok(a, b, c, d)
            implies in_squares(squares@, a, b, c, d) by {
            lemma_val_of_bounds(a.vals, n);
            lemma_val_of_bounds(b.vals, n);
            lemma_val_of_bounds(c.vals, n);
            lemma_val_of_bounds(d.vals, n);
            let ka = val_of(a.vals, n);
            let kb = val_of(b.vals, n);
            let kc = val_of(c.vals, n);
            let kd = val_of(d.vals, n);
            assert(vs[ka]@.vals == a.vals && vs[ka]@ =~= a);
            assert(vs[kb]@.vals == b.vals && vs[kb]@ =~= b);
            assert(vs[kc]@.vals == c.vals && vs[kc]@ =~= c);
            assert(vs[kd]@.vals == d.vals && vs[kd]@ =~= d);
            assert(covered(squares@, vs, ka, kb, kc, kd));
        }
        assert(len * len <= l * l * l * l && len * len * len <= l * l * l * l)
            by (nonlinear_arith)
            requires
                len == l,
                l >= 1,
        ;
    }
    let total = len * len * len * len;
    (total, squares)
}

/// Every retained square commutes and is typed over `n` elements.
pub open spec fn squares_sound(list: Seq<CommutativeSquare>, n: usize) -> bool {
    forall|k: int| 0 <= k < list.len() ==> (#[trigger] list[k])@.wf(n)
}

/// Every commuting quadruple of endofunctions on `n` elements is retained.
pub open spec fn squares_complete(list: Seq<CommutativeSquare>, n: usize) -> bool {
    forall|a: FunView, b: FunView, c: FunView, d: FunView|
        #![trigger quad_typed(a, b, c, d, n), square_ok(a, b, c, d)]
        quad_typed(a, b, c, d, n) && square_ok(a, b, c, d) ==> in_squares(list, a, b, c, d)
}

/// The search is deterministic in what it retains: any two sound and
/// complete collections of commutative squares for the same `n` hold
/// exactly the same squares.
pub proof fn lemma_square_search_membership_deterministic(
    l1: Seq<CommutativeSquare>,
    l2: Seq<CommutativeSquare>,
    n: usize,
)
    requires
        squares_sound(l1, n),
        squares_complete(l1, n),
        squares_sound(l2, n),
        squares_complete(l2, n),
    ensures
        forall|a: FunView, b: FunView, c: FunView, d: FunView|
            #![trigger in_squares(l1, a, b, c, d), in_squares(l2, a, b, c, d)]
            in_squares(l1, a, b, c, d) <==> in_squares(l2, a, b, c, d),
{
    assert forall|a: FunView, b: FunView, c: FunView, d: FunView|
        #[trigger] in_squares(l1, a, b, c, d) implies #[trigger] in_squares(l2, a, b, c, d) by {
        let k = choose|k: int| 0 <= k < l1.len() && (#[trigger] l1[k])@ == quad_view(a, b, c, d);
        assert(l1[k]@.wf(n));
        assert(quad_typed(a, b, c, d, n) && square_ok(a, b, c, d));
    }
    assert forall|a: FunView, b: FunView, c: FunView, d: FunView|
        #[trigger] in_squares(l2, a, b, c, d) implies #[trigger] in_squares(l1, a, b, c, d) by {
        let k = choose|k: int| 0 <= k < l2.len() && (#[trigger] l2[k])@ == quad_view(a, b, c, d);
        assert(l2[k]@.wf(n));
        assert(quad_typed(a, b, c, d, n) && square_ok(a, b, c, d));
    }
}

/// Two typed squares at the same enumeration position are the same square.
pub proof fn lemma_square_key_injective(v1: SquareView, v2: SquareView, n: usize)
    requires
        n >= 1,
        v1.typed(n),
        v2.typed(n),
        square_key(v1, n) == square_key(v2, n),
    ensures
        v1 == v2,
{
    let l = pow_int(n as int, n as nat);
    crate::function::lemma_pow_int_positive(n as int, n as nat);
    lemma_val_of_bounds(v1.up_left.vals, n);
    lemma_val_of_bounds(v1.up_right.vals, n);
    lemma_val_of_bounds(v1.down_left.vals, n);
    lemma_val_of_bounds(v1.down_right.vals, n);
    lemma_val_of_bounds(v2.up_left.vals, n);
    lemma_val_of_bounds(v2.up_right.vals, n);
    lemma_val_of_bounds(v2.down_left.vals, n);
    lemma_val_of_bounds(v2.down_right.vals, n);
    let a1 = val_of(v1.up_left.vals, n);
    let b1 = val_of(v1.up_right.vals, n);
    let c1 = val_of(v1.down_left.vals, n);
    let d1 = val_of(v1.down_right.vals, n);
    let a2 = val_of(v2.up_left.vals, n);
    let b2 = val_of(v2.up_right.vals, n);
    let c2 = val_of(v2.down_left.vals, n);
    let d2 = val_of(v2.down_right.vals, n);
    let p1 = (a1 * l + b1) * l + c1;
    let p2 = (a2 * l + b2) * l + c2;
    assert(p1 * l + d1 == p2 * l + d2);
    assert(p1 == p2 && d1 == d2) by (nonlinear_arith)
        requires
            p1 * l + d1 == p2 * l + d2,
            0 <= d1 < l,
            0 <= d2 < l,
    ;
    let q1 = a1 * l + b1;
    let q2 = a2 * l + b2;
    assert(q1 == q2 && c1 == c2) by (nonlinear_arith)
        requires
            q1 * l + c1 == q2 * l + c2,
            0 <= c1 < l,
            0 <= c2 < l,
    ;
    assert(a1 == a2 && b1 == b2) by (nonlinear_arith)
        requires
            a1 * l + b1 == a2 * l + b2,
            0 <= b1 < l,
            0 <= b2 < l,
    ;
    lemma_val_of_injective(v1.up_left.vals, v2.up_left.vals, n);
    lemma_val_of_injective(v1.up_right.vals, v2.up_right.vals, n);
    lemma_val_of_injective(v1.down_left.vals, v2.down_left.vals, n);
    lemma_val_of_injective(v1.down_right.vals, v2.down_right.vals, n);
    assert(v1.up_left =~= v2.up_left);
    assert(v1.up_right =~= v2.up_right);
    assert(v1.down_left =~= v2.down_left);
    assert(v1.down_right =~= v2.down_right);
    assert(v1 =~= v2);
}

/// Two sound, strictly ordered collections holding the same squares are
/// the same list.
proof fn lemma_sorted_same_members_equal(
    l1: Seq<CommutativeSquare>,
    l2: Seq<CommutativeSquare>,
    n: usize,
)
    requires
        n >= 1,
        squares_sound(l1, n),
        squares_sound(l2, n),
        squares_sorted(l1, n),
        squares_sorted(l2, n),
        forall|a: FunView, b: FunView, c: FunView, d: FunView|
            #[trigger] in_squares(l1, a, b, c, d) ==> in_squares(l2, a, b, c, d),
        forall|a: FunView, b: FunView, c: FunView, d: FunView|
            #[trigger] in_squares(l2, a, b, c, d) ==> in_squares(l1, a, b, c, d),
    ensures
        l1.len() == l2.len(),
        forall|k: int| 0 <= k < l1.len() ==> (#[trigger] l1[k])@ == l2[k]@,
    decreases l1.len(),
{
    if l1.len() == 0 && l2.len() == 0 {
    } else if l1.len() == 0 {
        let v = l2[0]@;
        assert(quad_view(v.up_left, v.up_right, v.down_left, v.down_right) =~= v);
        assert(in_squares(l2, v.up_left, v.up_right, v.down_left, v.down_right));
        assert(in_squares(l1, v.up_left, v.up_right, v.down_left, v.down_right));
        assert(false);
    } else if l2.len() == 0 {
        let v = l1[0]@;
        assert(quad_view(v.up_left, v.up_right, v.down_left, v.down_right) =~= v);
        assert(in_squares(l1, v.up_left, v.up_right, v.down_left, v.down_right));
        assert(in_squares(l2, v.up_left, v.up_right, v.down_left, v.down_right));
        assert(false);
    } else {
        let v1 = l1[0]@;
        let v2 = l2[0]@;
        assert(quad_view(v1.up_left, v1.up_right, v1.down_left, v1.down_right) =~= v1);
        assert(in_squares(l1, v1.up_left, v1.up_right, v1.down_left, v1.down_right));
        assert(in_squares(l2, v1.up_left, v1.up_right, v1.down_left, v1.down_right));
        let k = choose|k: int|
            0 <= k < l2.len() && (#[trigger] l2[k])@ == quad_view(
                v1.up_left,
                v1.up_right,
                v1.down_left,
                v1.down_right,
            );
        assert(l2[k]@ == v1);
        assert(quad_view(v2.up_left, v2.up_right, v2.down_left, v2.down_right) =~= v2);
        assert(in_squares(l2, v2.up_left, v2.up_right, v2.down_left, v2.down_right));
        assert(in_squares(l1, v2.up_left, v2.up_right, v2.down_left, v2.down_right));
        let m = choose|m: int|
            0 <= m < l1.len() && (#[trigger] l1[m])@ == quad_view(
                v2.up_left,
                v2.up_right,
                v2.down_left,
                v2.down_right,
            );
        assert(l1[m]@ == v2);
        assert(square_key(v2, n) <= square_key(v1, n));
        assert(square_key(v1, n) <= square_key(v2, n));
        assert(l1[0]@.wf(n) && l2[0]@.wf(n));
        lemma_square_key_injective(v1, v2, n);
        let t1 = l1.skip(1);
        let t2 = l2.skip(1);
        assert(squares_sound(t1, n)) by {
            assert(forall|j: int| 0 <= j < t1.len() ==> #[trigger] t1[j] == l1[j + 1]);
        }
        assert(squares_sound(t2, n)) by {
            assert(forall|j: int| 0 <= j < t2.len() ==> #[trigger] t2[j] == l2[j + 1]);
        }
        assert(squares_sorted(t1, n)) by {
            assert(forall|j: int| 0 <= j < t1.len() ==> #[trigger] t1[j] == l1[j + 1]);
        }
        assert(squares_sorted(t2, n)) by {
            assert(forall|j: int| 0 <= j < t2.len() ==> #[trigger] t2[j] == l2[j + 1]);
        }
        assert forall|a: FunView, b: FunView, c: FunView, d: FunView|
            #[trigger] in_squares(t1, a, b, c, d) implies in_squares(t2, a, b, c, d) by {
            let kk = choose|kk: int|
                0 <= kk < t1.len() && (#[trigger] t1[kk])@ == quad_view(a, b, c, d);
            assert(t1[kk] == l1[kk + 1]);
            assert(in_squares(l1, a, b, c, d));
            assert(in_squares(l2, a, b, c, d));
            let k2 = choose|k2: int|
                0 <= k2 < l2.len() && (#[trigger] l2[k2])@ == quad_view(a, b, c, d);
            if k2 == 0 {
                assert(square_key(l1[kk + 1]@, n) > square_key(l1[0]@, n));
                assert(square_key(l2[0]@, n) == square_key(v1, n));
                assert(false);
            }
            assert(t2[k2 - 1] == l2[k2]);
            assert(in_squares(t2, a, b, c, d));
        }
        assert forall|a: FunView, b: FunView, c: FunView, d: FunView|
            #[trigger] in_squares(t2, a, b, c, d) implies in_squares(t1, a, b, c, d) by {
            let kk = choose|kk: int|
                0 <= kk < t2.len() && (#[trigger] t2[kk])@ == quad_view(a, b, c, d);
            assert(t2[kk] == l2[kk + 1]);
            assert(in_squares(l2, a, b, c, d));
            assert(in_squares(l1, a, b, c, d));
            let k1 = choose|k1: int|
                0 <= k1 < l1.len() && (#[trigger] l1[k1])@ == quad_view(a, b, c, d);
            if k1 == 0 {
                assert(square_key(l2[kk + 1]@, n) > square_key(l2[0]@, n));
                assert(square_key(l1[0]@, n) == square_key(v2, n));
                assert(false);
            }
            assert(t1[k1 - 1] == l1[k1]);
            assert(in_squares(t1, a, b, c, d));
        }
        lemma_sorted_same_members_equal(t1, t2, n);
        assert forall|j: int| 0 <= j < l1.len() implies (#[trigger] l1[j])@ == l2[j]@ by {
            if j > 0 {
                assert(t1[j - 1]@ == t2[j - 1]@);
                assert(l1[j] == t1[j - 1] && l2[j] == t2[j - 1]);
            }
        }
    }
}

/// The whole square search is deterministic: any two collections that are
/// sound, complete and in enumeration order for the same `n` — as every
/// run of the search produces — are the same list of squares, so repeated
/// runs yield identical counts and identical squares in identical order.
pub proof fn lemma_square_search_deterministic(
    l1: Seq<CommutativeSquare>,
    l2: Seq<CommutativeSquare>,
    n: usize,
)
    requires
        n >= 1,
        squares_sound(l1, n),
        squares_complete(l1, n),
        squares_sorted(l1, n),
        squares_sound(l2, n),
        squares_complete(l2, n),
        squares_sorted(l2, n),
    ensures
        l1.len() == l2.len(),
        forall|k: int| 0 <= k < l1.len() ==> (#[trigger] l1[k])@ == l2[k]@,
{
    lemma_square_search_membership_deterministic(l1, l2, n);
    assert forall|a: FunView, b: FunView, c: FunView, d: FunView|
        #[trigger] in_squares(l1, a, b, c, d) implies in_squares(l2, a, b, c, d) by {
        assert(in_squares(l1, a, b, c, d) <==> in_squares(l2, a, b, c, d));
    }
    assert forall|a: FunView, b: FunView, c: FunView, d: FunView|
        #[trigger] in_squares(l2, a, b, c, d) implies in_squares(l1, a, b, c, d) by {
        assert(in_squares(l1, a, b, c, d) <==> in_squares(l2, a, b, c, d));
    }
    lemma_sorted_same_members_equal(l1, l2, n);
}

} // verus!
