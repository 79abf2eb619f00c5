//! Formula expressions: a tree of negations, numbers, component readings,
//! sums, differences, and the COALESCE / MIN / MAX functions. The `plus`,
//! `minus` and `negate` operations rewrite their operands into a canonical
//! form as they build.

use crate::text::{dec, push_dec, push_str};
use vstd::prelude::*;

verus! {

/// A formula expression.
#[derive(Debug)]
pub enum Expr {
    Neg { param: Box<Expr> },
    /// The decimal number `units / 10^scale`.
    Number { units: i64, scale: u32 },
    Component { component_id: u64 },
    Add { params: Vec<Expr> },
    Sub { params: Vec<Expr> },
    Coalesce { params: Vec<Expr> },
    Min { params: Vec<Expr> },
    Max { params: Vec<Expr> },
}

/// The largest number of decimal places of a number.
pub const MAX_SCALE: u32 = 18;

pub open spec fn pow10(n: nat) -> nat
    decreases n,
{
    if n == 0 {
        1
    } else {
        10 * pow10((n - 1) as nat)
    }
}

// ----- Size -----

/// The size of an expression, counting a negation twice; every rewrite of
/// `plus`, `minus` and `negate` moves to operands of smaller weight.
pub open spec fn weight(e: Expr) -> nat
    decreases e,
{
    match e {
        Expr::Neg { param } => 2 + weight(*param),
        Expr::Number { .. } => 1,
        Expr::Component { .. } => 1,
        Expr::Add { params } => 1 + weights(params@),
        Expr::Sub { params } => 1 + weights(params@),
        Expr::Coalesce { params } => 1 + weights(params@),
        Expr::Min { params } => 1 + weights(params@),
        Expr::Max { params } => 1 + weights(params@),
    }
}

pub open spec fn weights(ps: Seq<Expr>) -> nat
    decreases ps,
{
    if ps.len() == 0 {
        0
    } else {
        weights(ps.drop_last()) + weight(ps.last())
    }
}


// ----- Well-formedness and meaning -----

/// Every list of parameters is non-empty, a difference has at least two
/// terms, and every number has at most
/// `MAX_SCALE` decimal places.
pub open spec fn wf(e: Expr) -> bool
    decreases e,
{
    match e {
        Expr::Neg { param } => wf(*param),
        Expr::Number { scale, .. } => scale <= MAX_SCALE,
        Expr::Component { .. } => true,
        Expr::Add { params } => params@.len() >= 1 && wfs(params@),
        Expr::Sub { params } => params@.len() >= 2 && wfs(params@),
        Expr::Coalesce { params } => params@.len() >= 1 && wfs(params@),
        Expr::Min { params } => params@.len() >= 1 && wfs(params@),
        Expr::Max { params } => params@.len() >= 1 && wfs(params@),
    }
}

pub open spec fn wfs(ps: Seq<Expr>) -> bool
    decreases ps,
{
    if ps.len() == 0 {
        true
    } else {
        wfs(ps.drop_last()) && wf(ps.last())
    }
}

/// A number in units of `10^-MAX_SCALE`.
pub open spec fn number_value(units: i64, scale: u32) -> int {
    if scale <= MAX_SCALE {
        units * pow10((MAX_SCALE - scale) as nat)
    } else {
        units as int
    }
}

/// The value of an expression when every reading is present, with
/// `reading(id)` the reading of component `id`, in units of
/// `10^-MAX_SCALE`.
pub open spec fn eval(e: Expr, reading: spec_fn(u64) -> int) -> int
    decreases e,
{
    match e {
        Expr::Neg { param } => -eval(*param, reading),
        Expr::Number { units, scale } => number_value(units, scale),
        Expr::Component { component_id } => reading(component_id),
        Expr::Add { params } => sum(params@, reading),
        Expr::Sub { params } => if params@.len() == 0 {
            0
        } else {
            eval(params@[0], reading) - sum(params@.drop_first(), reading)
        },
        Expr::Coalesce { params } => if params@.len() == 0 {
            0
        } else {
            eval(params@[0], reading)
        },
        Expr::Min { params } => minimum(params@, reading),
        Expr::Max { params } => maximum(params@, reading),
    }
}

pub open spec fn sum(ps: Seq<Expr>, reading: spec_fn(u64) -> int) -> int
    decreases ps,
{
    if ps.len() == 0 {
        0
    } else {
        sum(ps.drop_last(), reading) + eval(ps.last(), reading)
    }
}

pub open spec fn minimum(ps: Seq<Expr>, reading: spec_fn(u64) -> int) -> int
    decreases ps,
{
    if ps.len() == 0 {
        0
    } else if ps.len() == 1 {
        eval(ps[0], reading)
    } else {
        let m = minimum(ps.drop_last(), reading);
        let x = eval(ps.last(), reading);
        if x < m {
            x
        } else {
            m
        }
    }
}

pub open spec fn maximum(ps: Seq<Expr>, reading: spec_fn(u64) -> int) -> int
    decreases ps,
{
    if ps.len() == 0 {
        0
    } else if ps.len() == 1 {
        eval(ps[0], reading)
    } else {
        let m = maximum(ps.drop_last(), reading);
        let x = eval(ps.last(), reading);
        if x > m {
            x
        } else {
            m
        }
    }
}

proof fn lemma_concat(a: Seq<Expr>, b: Seq<Expr>)
    ensures
        weights(a + b) == weights(a) + weights(b),
        wfs(a + b) == (wfs(a) && wfs(b)),
        forall|reading: spec_fn(u64) -> int| #[trigger] sum(a + b, reading) == sum(a, reading) + sum(b, reading),
    decreases b.len(),
{
    if b.len() == 0 {
        assert(a + b =~= a);
        assert forall|reading: spec_fn(u64) -> int| #[trigger] sum(a + b, reading) == sum(a, reading) + sum(
            b,
            reading,
        ) by {}
    } else {
        lemma_concat(a, b.drop_last());
        assert((a + b).drop_last() =~= a + b.drop_last());
        assert((a + b).last() == b.last());
        assert forall|reading: spec_fn(u64) -> int| #[trigger] sum(a + b, reading) == sum(a, reading) + sum(
            b,
            reading,
        ) by {
            assert(sum(a + b.drop_last(), reading) == sum(a, reading) + sum(b.drop_last(), reading));
        }
    }
}

proof fn lemma_single(ps: Seq<Expr>, a: Expr)
    requires
        ps == seq![a],
    ensures
        weights(ps) == weight(a),
        wfs(ps) == wf(a),
        forall|reading: spec_fn(u64) -> int| #[trigger] sum(ps, reading) == eval(a, reading),
{
    assert(ps.drop_last() =~= Seq::<Expr>::empty());
    assert(ps.last() == a);
    assert(weights(ps.drop_last()) == 0);
    assert(wfs(ps.drop_last()));
    assert forall|reading: spec_fn(u64) -> int| #[trigger] sum(ps, reading) == eval(a, reading) by {
        assert(sum(ps.drop_last(), reading) == 0);
    }
}

proof fn lemma_first(ps: Seq<Expr>)
    requires
        ps.len() >= 1,
    ensures
        weights(ps) == weight(ps[0]) + weights(ps.drop_first()),
        wfs(ps) == (wf(ps[0]) && wfs(ps.drop_first())),
        forall|reading: spec_fn(u64) -> int| #[trigger] sum(ps, reading) == eval(ps[0], reading) + sum(ps.drop_first(), reading),
{
    let one = seq![ps[0]];
    lemma_concat(one, ps.drop_first());
    lemma_single(one, ps[0]);
    assert(one + ps.drop_first() =~= ps);
}

pub(crate) proof fn lemma_pair(ps: Seq<Expr>, a: Expr, b: Expr)
    requires
        ps == seq![a, b],
    ensures
        weights(ps) == weight(a) + weight(b),
        wfs(ps) == (wf(a) && wf(b)),
        forall|reading: spec_fn(u64) -> int| #[trigger] sum(ps, reading) == eval(a, reading) + eval(b, reading),
        ps.drop_first() =~= seq![b],
        ps[0] == a,
{
    let one = seq![a];
    lemma_single(one, a);
    assert(ps.drop_last() =~= one);
    assert(ps.last() == b);
    assert forall|reading: spec_fn(u64) -> int| #[trigger] sum(ps, reading) == eval(a, reading) + eval(b, reading) by {
        assert(sum(one, reading) == eval(a, reading));
    }
}

// ----- The shape of an expression, and the rewrites on shapes -----

/// The tree of an expression, with its lists of parameters as sequences.
pub enum Shape {
    Neg(Box<Shape>),
    Number(i64, u32),
    Component(u64),
    Add(Seq<Shape>),
    Sub(Seq<Shape>),
    Coalesce(Seq<Shape>),
    Min(Seq<Shape>),
    Max(Seq<Shape>),
}

pub open spec fn shape(e: Expr) -> Shape
    decreases e,
{
    match e {
        Expr::Neg { param } => Shape::Neg(Box::new(shape(*param))),
        Expr::Number { units, scale } => Shape::Number(units, scale),
        Expr::Component { component_id } => Shape::Component(component_id),
        Expr::Add { params } => Shape::Add(shapes(params@)),
        Expr::Sub { params } => Shape::Sub(shapes(params@)),
        Expr::Coalesce { params } => Shape::Coalesce(shapes(params@)),
        Expr::Min { params } => Shape::Min(shapes(params@)),
        Expr::Max { params } => Shape::Max(shapes(params@)),
    }
}

pub open spec fn shapes(ps: Seq<Expr>) -> Seq<Shape>
    decreases ps,
{
    if ps.len() == 0 {
        Seq::empty()
    } else {
        shapes(ps.drop_last()).push(shape(ps.last()))
    }
}

/// `a + b` as the rewrites build it, given `fuel` steps; `None` where the
/// steps run out.
pub open spec fn plus_shape(a: Shape, b: Shape, fuel: nat) -> Option<Shape>
    decreases fuel,
{
    if fuel == 0 {
        None
    } else {
        let f = (fuel - 1) as nat;
        match a {
            Shape::Neg(x) => match b {
                // -a + -b = -(a + b)
                Shape::Neg(y) => match plus_shape(*x, *y, f) {
                    Some(z) => negate_shape(z, f),
                    None => None,
                },
                // -a + b = b - a
                _ => minus_shape(b, *x, f),
            },
            Shape::Add(xs) => match b {
                // a + -b = a - b
                Shape::Neg(y) => minus_shape(a, *y, f),
                Shape::Add(ys) => Some(Shape::Add(xs + ys)),
                _ => Some(Shape::Add(xs.push(b))),
            },
            _ => match b {
                Shape::Neg(y) => minus_shape(a, *y, f),
                Shape::Add(ys) => Some(Shape::Add(seq![a] + ys)),
                _ => Some(Shape::Add(seq![a, b])),
            },
        }
    }
}

/// `a - b` as the rewrites build it, given `fuel` steps.
pub open spec fn minus_shape(a: Shape, b: Shape, fuel: nat) -> Option<Shape>
    decreases fuel,
{
    if fuel == 0 {
        None
    } else {
        let f = (fuel - 1) as nat;
        match a {
            Shape::Sub(xs) => match b {
                // (a - b) - -c = (a - b) + c
                Shape::Neg(p) => plus_shape(a, *p, f),
                _ => Some(Shape::Sub(xs.push(b))),
            },
            Shape::Neg(p) => match b {
                // -a - (b - c) = -(b - c) - a
                Shape::Sub(_) => match negate_shape(b, f) {
                    Some(z) => minus_shape(z, *p, f),
                    None => None,
                },
                // -a - -b = b - a
                Shape::Neg(q) => Some(Shape::Sub(seq![*q, *p])),
                // -a - b = -(a + b)
                _ => match plus_shape(*p, b, f) {
                    Some(z) => negate_shape(z, f),
                    None => None,
                },
            },
            _ => match b {
                // a - -b = a + b
                Shape::Neg(q) => plus_shape(a, *q, f),
                _ => Some(Shape::Sub(seq![a, b])),
            },
        }
    }
}

/// `-a` as the rewrites build it, given `fuel` steps.
pub open spec fn negate_shape(a: Shape, fuel: nat) -> Option<Shape>
    decreases fuel,
{
    if fuel == 0 {
        None
    } else {
        let f = (fuel - 1) as nat;
        match a {
            // -(-a) = a
            Shape::Neg(p) => Some(*p),
            // -(a - b - c) = b + c - a
            Shape::Sub(xs) => if xs.len() >= 1 {
                minus_shape(Shape::Add(xs.drop_first()), xs[0], f)
            } else {
                None
            },
            _ => Some(Shape::Neg(Box::new(a))),
        }
    }
}

proof fn lemma_plus_shape_mono(a: Shape, b: Shape, f1: nat, f2: nat)
    requires
        plus_shape(a, b, f1) is Some,
        f1 <= f2,
    ensures
        plus_shape(a, b, f2) == plus_shape(a, b, f1),
    decreases f1,
{
    let g1 = (f1 - 1) as nat;
    let g2 = (f2 - 1) as nat;
    match a {
        Shape::Neg(x) => match b {
            Shape::Neg(y) => {
                lemma_plus_shape_mono(*x, *y, g1, g2);
                lemma_negate_shape_mono(plus_shape(*x, *y, g1)->Some_0, g1, g2);
            },
            _ => lemma_minus_shape_mono(b, *x, g1, g2),
        },
        Shape::Add(_) => match b {
            Shape::Neg(y) => lemma_minus_shape_mono(a, *y, g1, g2),
            _ => {},
        },
        _ => match b {
            Shape::Neg(y) => lemma_minus_shape_mono(a, *y, g1, g2),
            _ => {},
        },
    }
}

proof fn lemma_minus_shape_mono(a: Shape, b: Shape, f1: nat, f2: nat)
    requires
        minus_shape(a, b, f1) is Some,
        f1 <= f2,
    ensures
        minus_shape(a, b, f2) == minus_shape(a, b, f1),
    decreases f1,
{
    let g1 = (f1 - 1) as nat;
    let g2 = (f2 - 1) as nat;
    match a {
        Shape::Sub(_) => match b {
            Shape::Neg(p) => lemma_plus_shape_mono(a, *p, g1, g2),
            _ => {},
        },
        Shape::Neg(p) => match b {
            Shape::Sub(_) => {
                lemma_negate_shape_mono(b, g1, g2);
                lemma_minus_shape_mono(negate_shape(b, g1)->Some_0, *p, g1, g2);
            },
            Shape::Neg(_) => {},
            _ => {
                lemma_plus_shape_mono(*p, b, g1, g2);
                lemma_negate_shape_mono(plus_shape(*p, b, g1)->Some_0, g1, g2);
            },
        },
        _ => match b {
            Shape::Neg(q) => lemma_plus_shape_mono(a, *q, g1, g2),
            _ => {},
        },
    }
}

proof fn lemma_negate_shape_mono(a: Shape, f1: nat, f2: nat)
    requires
        negate_shape(a, f1) is Some,
        f1 <= f2,
    ensures
        negate_shape(a, f2) == negate_shape(a, f1),
    decreases f1,
{
    let g1 = (f1 - 1) as nat;
    let g2 = (f2 - 1) as nat;
    match a {
        Shape::Sub(xs) => lemma_minus_shape_mono(Shape::Add(xs.drop_first()), xs[0], g1, g2),
        _ => {},
    }
}

proof fn lemma_shapes_concat(a: Seq<Expr>, b: Seq<Expr>)
    ensures
        shapes(a + b) == shapes(a) + shapes(b),
    decreases b.len(),
{
    if b.len() == 0 {
        assert(a + b =~= a);
        assert(shapes(a) + shapes(b) =~= shapes(a));
    } else {
        lemma_shapes_concat(a, b.drop_last());
        assert((a + b).drop_last() =~= a + b.drop_last());
        assert(shapes(a) + shapes(b) =~= (shapes(a) + shapes(b.drop_last())).push(shape(b.last())));
    }
}

proof fn lemma_shapes_small(a: Expr, b: Expr)
    ensures
        shapes(seq![a]) == seq![shape(a)],
        shapes(seq![a, b]) == seq![shape(a), shape(b)],
{
    assert(seq![a].drop_last() =~= Seq::<Expr>::empty());
    assert(seq![a].last() == a);
    assert(shapes(Seq::<Expr>::empty()).push(shape(a)) =~= seq![shape(a)]);
    assert(shapes(seq![a]) == seq![shape(a)]);
    assert(seq![a, b].drop_last() =~= seq![a]);
    assert(seq![a, b].last() == b);
    assert(seq![shape(a)].push(shape(b)) =~= seq![shape(a), shape(b)]);
}

proof fn lemma_shapes_first(ps: Seq<Expr>)
    requires
        ps.len() >= 1,
    ensures
        shapes(ps).len() == ps.len(),
        shapes(ps)[0] == shape(ps[0]),
        shapes(ps.drop_first()) == shapes(ps).drop_first(),
{
    lemma_shapes_concat(seq![ps[0]], ps.drop_first());
    lemma_shapes_small(ps[0], ps[0]);
    assert(seq![ps[0]] + ps.drop_first() =~= ps);
    lemma_shapes_len(ps);
    assert(shapes(ps).drop_first() =~= shapes(ps.drop_first()));
}

proof fn lemma_shapes_len(ps: Seq<Expr>)
    ensures
        shapes(ps).len() == ps.len(),
    decreases ps.len(),
{
    if ps.len() > 0 {
        lemma_shapes_len(ps.drop_last());
    }
}

/// The steps that `plus` may take on its operands.
pub open spec fn plus_fuel(a: Expr, b: Expr) -> nat {
    3 * (weight(a) + weight(b)) + 1
}

/// The steps that `minus` may take on its operands.
pub open spec fn minus_fuel(a: Expr, b: Expr) -> nat {
    3 * (weight(a) + weight(b)) + 2 + if a is Neg {
        1nat
    } else {
        0nat
    }
}

/// The steps that `negate` may take on its operand.
pub open spec fn negate_fuel(a: Expr) -> nat {
    3 * weight(a) + 3
}

// ----- Canonicalizing operations -----

/// A term that the rewrites of `plus`, `minus` and `negate` take as it is:
/// neither a negation, nor a sum, nor a difference.
pub open spec fn simple(e: Expr) -> bool {
    !(e is Neg) && !(e is Add) && !(e is Sub)
}

impl Expr {
    /// `self + rhs`, canonicalized: `-a + -b` is `-(a + b)`, `-a + b` and
    /// `b + -a` are `b - a`, and sums are flattened.
    pub fn plus(self, rhs: Expr) -> (r: Expr)
        requires
            wf(self),
            wf(rhs),
        ensures
            wf(r),
            weight(r) <= 1 + weight(self) + weight(rhs),
            self is Add ==> !(r is Neg),
            forall|reading: spec_fn(u64) -> int| #[trigger] eval(r, reading) == eval(self, reading) + eval(rhs, reading),
            // (a + b) + (c + d) = a + b + c + d
            self is Add && rhs is Add ==> r is Add && r->Add_params@ == self->Add_params@ + rhs->Add_params@,
            // (a + b) + c = a + b + c
            self is Add && !(rhs is Neg) && !(rhs is Add) ==> r is Add && r->Add_params@
                == self->Add_params@.push(rhs),
            // a + (b + c) = a + b + c
            !(self is Neg) && !(self is Add) && rhs is Add ==> r is Add && r->Add_params@ == seq![self]
                + rhs->Add_params@,
            // a + b
            !(self is Neg) && !(self is Add) && !(rhs is Neg) && !(rhs is Add) ==> r is Add
                && r->Add_params@ == seq![self, rhs],
            // -a + -b = -(a + b)
            self is Neg && rhs is Neg && simple(*self->Neg_param) && simple(*rhs->Neg_param) ==> r is Neg
                && *r->Neg_param is Add && (*r->Neg_param)->Add_params@ == seq![
                *self->Neg_param,
                *rhs->Neg_param,
            ],
            // a + -b = a - b
            simple(self) && rhs is Neg && !(*rhs->Neg_param is Neg) ==> r is Sub && r->Sub_params@ == seq![
                self,
                *rhs->Neg_param,
            ],
            // -a + b = b - a
            self is Neg && simple(rhs) && !(*self->Neg_param is Neg) ==> r is Sub && r->Sub_params@ == seq![
                rhs,
                *self->Neg_param,
            ],
            plus_shape(shape(self), shape(rhs), plus_fuel(self, rhs)) == Some(shape(r)),
        decreases 3 * (weight(self) + weight(rhs)),
    {
        let ghost l = self;
        let ghost rr = rhs;
        match self {
            Expr::Neg { param: x } => match rhs {
                Expr::Neg { param: y } => {
                    let ghost xg = *x;
                    let ghost yg = *y;
                    let z = (*x).plus(*y);
                    let ghost zg = z;
                    let r = z.negate();
                    proof {
                        let f = (plus_fuel(l, rr) - 1) as nat;
                        lemma_plus_shape_mono(shape(xg), shape(yg), plus_fuel(xg, yg), f);
                        lemma_negate_shape_mono(shape(zg), negate_fuel(zg), f);
                        assert(shape(l) == Shape::Neg(Box::new(shape(xg))));
                        assert(shape(rr) == Shape::Neg(Box::new(shape(yg))));
                        assert(plus_shape(shape(l), shape(rr), plus_fuel(l, rr)) == Some(shape(r)));
                    }
                    r
                },
                other => {
                    let ghost xg = *x;
                    let r = other.minus(*x);
                    proof {
                        lemma_minus_shape_mono(shape(rr), shape(xg), minus_fuel(rr, xg), (plus_fuel(l, rr) - 1) as nat);
                        assert(shape(l) == Shape::Neg(Box::new(shape(xg))));
                        assert(plus_shape(shape(l), shape(rr), plus_fuel(l, rr)) == Some(shape(r)));
                    }
                    r
                },
            },
            Expr::Add { params: mut xs } => match rhs {
                Expr::Neg { param: y } => {
                    let ghost yg = *y;
                    let r = Expr::Add { params: xs }.minus(*y);
                    proof {
                        lemma_minus_shape_mono(shape(l), shape(yg), minus_fuel(l, yg), (plus_fuel(l, rr) - 1) as nat);
                        assert(plus_shape(shape(l), shape(rr), plus_fuel(l, rr)) == Some(shape(r)));
                    }
                    r
                },
                Expr::Add { params: mut ys } => {
                    let ghost xs0 = xs@;
                    let ghost ys0 = ys@;
                    xs.append(&mut ys);
                    let r = Expr::Add { params: xs };
                    proof {
                        lemma_concat(xs0, ys0);
                        lemma_shapes_concat(xs0, ys0);
                        assert(plus_shape(shape(l), shape(rr), plus_fuel(l, rr)) == Some(shape(r)));
                        assert forall|reading: spec_fn(u64) -> int| #[trigger] eval(r, reading) == eval(l, reading)
                            + eval(rr, reading) by {
                            assert(sum(xs0 + ys0, reading) == sum(xs0, reading) + sum(ys0, reading));
                        }
                    }
                    r
                },
                other => {
                    let ghost xs0 = xs@;
                    xs.push(other);
                    let r = Expr::Add { params: xs };
                    proof {
                        lemma_concat(xs0, seq![rr]);
                        lemma_shapes_concat(xs0, seq![rr]);
                        lemma_shapes_small(rr, rr);
                        assert(xs0 + seq![rr] =~= xs@);
                        assert(shapes(xs0) + seq![shape(rr)] =~= shapes(xs0).push(shape(rr)));
                        assert(plus_shape(shape(l), shape(rr), plus_fuel(l, rr)) == Some(shape(r)));
                        lemma_single(seq![rr], rr);
                        assert(xs0 + seq![rr] =~= xs@);
                        assert forall|reading: spec_fn(u64) -> int| #[trigger] eval(r, reading) == eval(l, reading)
                            + eval(rr, reading) by {
                            assert(sum(xs0 + seq![rr], reading) == sum(xs0, reading) + sum(seq![rr], reading));
                            assert(sum(seq![rr], reading) == eval(rr, reading));
                        }
                    }
                    r
                },
            },
            lhs => match rhs {
                Expr::Neg { param: y } => {
                    let ghost yg = *y;
                    let r = lhs.minus(*y);
                    proof {
                        lemma_minus_shape_mono(shape(l), shape(yg), minus_fuel(l, yg), (plus_fuel(l, rr) - 1) as nat);
                        assert(plus_shape(shape(l), shape(rr), plus_fuel(l, rr)) == Some(shape(r)));
                    }
                    r
                },
                Expr::Add { params: mut ys } => {
                    let ghost ys0 = ys@;
                    ys.insert(0, lhs);
                    let r = Expr::Add { params: ys };
                    proof {
                        lemma_concat(seq![l], ys0);
                        lemma_shapes_concat(seq![l], ys0);
                        lemma_shapes_small(l, l);
                        assert(seq![l] + ys0 =~= ys@);
                        assert(plus_shape(shape(l), shape(rr), plus_fuel(l, rr)) == Some(shape(r)));
                        lemma_single(seq![l], l);
                        assert(seq![l] + ys0 =~= ys@);
                        assert forall|reading: spec_fn(u64) -> int| #[trigger] eval(r, reading) == eval(l, reading)
                            + eval(rr, reading) by {
                            assert(sum(seq![l] + ys0, reading) == sum(seq![l], reading) + sum(ys0, reading));
                            assert(sum(seq![l], reading) == eval(l, reading));
                        }
                    }
                    r
                },
                other => {
                    let params = vec![lhs, other];
                    let ghost ps = params@;
                    let r = Expr::Add { params };
                    proof {
                        lemma_pair(ps, l, rr);
                        lemma_shapes_small(l, rr);
                        assert(plus_shape(shape(l), shape(rr), plus_fuel(l, rr)) == Some(shape(r)));
                        assert forall|reading: spec_fn(u64) -> int| #[trigger] eval(r, reading) == eval(l, reading)
                            + eval(rr, reading) by {
                            assert(sum(ps, reading) == eval(l, reading) + eval(rr, reading));
                        }
                    }
                    r
                },
            },
        }
    }

    /// `self - rhs`, canonicalized: differences are flattened, `a - -b` is
    /// `a + b`, `-a - -b` is `b - a` and `-a - b` is `-(a + b)`.
    pub fn minus(self, rhs: Expr) -> (r: Expr)
        requires
            wf(self),
            wf(rhs),
        ensures
            wf(r),
            weight(r) <= 1 + weight(self) + weight(rhs),
            self is Add ==> !(r is Neg),
            forall|reading: spec_fn(u64) -> int| #[trigger] eval(r, reading) == eval(self, reading) - eval(rhs, reading),
            // (a - b) - c = a - b - c
            self is Sub && !(rhs is Neg) ==> r is Sub && r->Sub_params@ == self->Sub_params@.push(rhs),
            // (a - b) - -c = a - b + c
            self is Sub && rhs is Neg && simple(*rhs->Neg_param) ==> r is Add && r->Add_params@ == seq![
                self,
                *rhs->Neg_param,
            ],
            // -a - -b = b - a
            self is Neg && rhs is Neg ==> r is Sub && r->Sub_params@ == seq![
                *rhs->Neg_param,
                *self->Neg_param,
            ],
            // -a - b = -(a + b)
            self is Neg && simple(*self->Neg_param) && simple(rhs) ==> r is Neg && *r->Neg_param is Add && (
            *r->Neg_param)->Add_params@ == seq![*self->Neg_param, rhs],
            // a - -b = a + b
            simple(self) && rhs is Neg && simple(*rhs->Neg_param) ==> r is Add && r->Add_params@ == seq![
                self,
                *rhs->Neg_param,
            ],
            // a - b
            !(self is Sub) && !(self is Neg) && !(rhs is Neg) ==> r is Sub && r->Sub_params@ == seq![
                self,
                rhs,
            ],
            minus_shape(shape(self), shape(rhs), minus_fuel(self, rhs)) == Some(shape(r)),
        decreases 3 * (weight(self) + weight(rhs)) + 1 + if self is Neg {
            1int
        } else {
            0int
        },
    {
        let ghost l = self;
        let ghost rr = rhs;
        match self {
            Expr::Sub { params: mut xs } => match rhs {
                Expr::Neg { param: p } => {
                    let ghost pg = *p;
                    let r = Expr::Sub { params: xs }.plus(*p);
                    proof {
                        lemma_plus_shape_mono(shape(l), shape(pg), plus_fuel(l, pg), (minus_fuel(l, rr) - 1) as nat);
                        assert(minus_shape(shape(l), shape(rr), minus_fuel(l, rr)) == Some(shape(r)));
                    }
                    r
                },
                other => {
                    let ghost xs0 = xs@;
                    xs.push(other);
                    let r = Expr::Sub { params: xs };
                    proof {
                        lemma_concat(xs0, seq![rr]);
                        lemma_shapes_concat(xs0, seq![rr]);
                        lemma_shapes_small(rr, rr);
                        assert(xs0 + seq![rr] =~= xs@);
                        assert(shapes(xs0) + seq![shape(rr)] =~= shapes(xs0).push(shape(rr)));
                        assert(minus_shape(shape(l), shape(rr), minus_fuel(l, rr)) == Some(shape(r)));
                        lemma_single(seq![rr], rr);
                        assert(xs0 + seq![rr] =~= xs@);
                        assert(xs@.drop_first() =~= xs0.drop_first() + seq![rr]);
                        lemma_concat(xs0.drop_first(), seq![rr]);
                        assert forall|reading: spec_fn(u64) -> int| #[trigger] eval(r, reading) == eval(l, reading)
                            - eval(rr, reading) by {
                            assert(sum(xs0.drop_first() + seq![rr], reading) == sum(xs0.drop_first(), reading)
                                + sum(seq![rr], reading));
                            assert(sum(seq![rr], reading) == eval(rr, reading));
                            assert(xs@[0] == xs0[0]);
                        }
                    }
                    r
                },
            },
            Expr::Neg { param: p } => match rhs {
                Expr::Sub { params: ys } => {
                    let ghost pg = *p;
                    let z = Expr::Sub { params: ys }.negate();
                    let ghost zg = z;
                    let r = z.minus(*p);
                    proof {
                        let f = (minus_fuel(l, rr) - 1) as nat;
                        lemma_negate_shape_mono(shape(rr), negate_fuel(rr), f);
                        lemma_minus_shape_mono(shape(zg), shape(pg), minus_fuel(zg, pg), f);
                        assert(minus_shape(shape(l), shape(rr), minus_fuel(l, rr)) == Some(shape(r)));
                    }
                    r
                },
                Expr::Neg { param: q } => {
                    let params = vec![*q, *p];
                    let ghost ps = params@;
                    let r = Expr::Sub { params };
                    proof {
                        lemma_pair(ps, ps[0], ps[1]);
                        lemma_shapes_small(ps[0], ps[1]);
                        assert(minus_shape(shape(l), shape(rr), minus_fuel(l, rr)) == Some(shape(r)));
                        lemma_single(ps.drop_first(), ps[1]);
                        assert forall|reading: spec_fn(u64) -> int| #[trigger] eval(r, reading) == eval(l, reading)
                            - eval(rr, reading) by {
                            assert(sum(ps.drop_first(), reading) == eval(ps[1], reading));
                        }
                    }
                    r
                },
                value => {
                    let ghost pg = *p;
                    let z = (*p).plus(value);
                    let ghost zg = z;
                    let r = z.negate();
                    proof {
                        let f = (minus_fuel(l, rr) - 1) as nat;
                        lemma_plus_shape_mono(shape(pg), shape(rr), plus_fuel(pg, rr), f);
                        lemma_negate_shape_mono(shape(zg), negate_fuel(zg), f);
                        assert(minus_shape(shape(l), shape(rr), minus_fuel(l, rr)) == Some(shape(r)));
                    }
                    r
                },
            },
            lhs => match rhs {
                Expr::Neg { param: q } => {
                    let ghost qg = *q;
                    let r = lhs.plus(*q);
                    proof {
                        lemma_plus_shape_mono(shape(l), shape(qg), plus_fuel(l, qg), (minus_fuel(l, rr) - 1) as nat);
                        assert(minus_shape(shape(l), shape(rr), minus_fuel(l, rr)) == Some(shape(r)));
                    }
                    r
                },
                other => {
                    let params = vec![lhs, other];
                    let ghost ps = params@;
                    let r = Expr::Sub { params };
                    proof {
                        lemma_pair(ps, l, rr);
                        lemma_shapes_small(l, rr);
                        assert(minus_shape(shape(l), shape(rr), minus_fuel(l, rr)) == Some(shape(r)));
                        lemma_single(ps.drop_first(), rr);
                        assert forall|reading: spec_fn(u64) -> int| #[trigger] eval(r, reading) == eval(l, reading)
                            - eval(rr, reading) by {
                            assert(sum(ps.drop_first(), reading) == eval(rr, reading));
                        }
                    }
                    r
                },
            },
        }
    }

    /// `-self`, canonicalized: `-(-a)` is `a` and `-(a - b - c)` is
    /// `b + c - a`.
    pub fn negate(self) -> (r: Expr)
        requires
            wf(self),
        ensures
            wf(r),
            weight(r) <= 2 + weight(self),
            self is Sub ==> !(r is Neg),
            forall|reading: spec_fn(u64) -> int| #[trigger] eval(r, reading) == -eval(self, reading),
            // -(-a) = a
            self is Neg ==> r == *self->Neg_param,
            // -(a - b - c) = b + c - a
            self is Sub && !(self->Sub_params@[0] is Neg) ==> r is Sub && r->Sub_params@ == seq![
                Expr::Add { params: r->Sub_params@[0]->Add_params },
                self->Sub_params@[0],
            ] && r->Sub_params@[0]->Add_params@ == self->Sub_params@.drop_first(),
            // -a for any other term
            !(self is Neg) && !(self is Sub) ==> r is Neg && *r->Neg_param == self,
            negate_shape(shape(self), negate_fuel(self)) == Some(shape(r)),
        decreases 3 * weight(self) + 2,
    {
        let ghost e = self;
        match self {
            Expr::Neg { param } => *param,
            Expr::Sub { params: mut xs } => {
                let ghost xs0 = xs@;
                let first = xs.remove(0);
                proof {
                    assert(xs@ =~= xs0.drop_first());
                    lemma_first(xs0);
                    lemma_shapes_first(xs0);
                }
                let ghost fg = first;
                let z = Expr::Add { params: xs };
                let ghost zg = z;
                let r = z.minus(first);
                proof {
                    assert(shape(zg) == Shape::Add(shapes(xs0).drop_first()));
                    assert(shape(fg) == shapes(xs0)[0]);
                    lemma_minus_shape_mono(shape(zg), shape(fg), minus_fuel(zg, fg), (negate_fuel(e) - 1) as nat);
                }
                r
            },
            other => Expr::Neg { param: Box::new(other) },
        }
    }
}


// ----- Printing -----

/// The `n` lowest decimal digits of `v`, most significant first.
pub open spec fn padded(v: nat, n: nat) -> Seq<char>
    decreases n,
{
    if n == 0 {
        Seq::empty()
    } else {
        padded(v / 10, (n - 1) as nat) + seq![crate::text::digit_char(v % 10)]
    }
}

/// The characters without their trailing zeros.
pub open spec fn strip_zeros(s: Seq<char>) -> Seq<char>
    decreases s.len(),
{
    if s.len() > 0 && s.last() == '0' {
        strip_zeros(s.drop_last())
    } else {
        s
    }
}

/// A number in decimal: whole numbers with one decimal place (`0.0`,
/// `12.0`), others with as many places as they need (`22.44`).
pub open spec fn number_text(units: i64, scale: u32) -> Seq<char> {
    let a: nat = if units < 0 {
        (-units) as nat
    } else {
        units as nat
    };
    let p = pow10(scale as nat);
    let sign = if units < 0 {
        "-"@
    } else {
        ""@
    };
    let fraction = if a % p == 0 {
        "0"@
    } else {
        strip_zeros(padded(a % p, scale as nat))
    };
    sign + dec(a / p) + "."@ + fraction
}

/// The text in parentheses where `bracket` holds.
pub open spec fn wrap(s: Seq<char>, bracket: bool) -> Seq<char> {
    if bracket {
        "("@ + s + ")"@
    } else {
        s
    }
}

/// The printed form of an expression; `bracket` asks for parentheses round
/// a compound sum or difference.
pub open spec fn render(e: Expr, bracket: bool) -> Seq<char>
    decreases e,
{
    match e {
        Expr::Neg { param } => "-"@ + render(*param, true),
        Expr::Number { units, scale } => number_text(units, scale),
        Expr::Component { component_id } => "#"@ + dec(component_id as nat),
        Expr::Add { params } => wrap(joined(params@, " + "@, false), bracket && params@.len() > 1),
        Expr::Sub { params } => wrap(joined(params@, " - "@, true), bracket && params@.len() > 1),
        Expr::Coalesce { params } => "COALESCE("@ + joined(params@, ", "@, false) + ")"@,
        Expr::Min { params } => "MIN("@ + joined(params@, ", "@, false) + ")"@,
        Expr::Max { params } => "MAX("@ + joined(params@, ", "@, false) + ")"@,
    }
}

/// The parameters printed and joined by `sep`; all but the first are
/// bracketed where `rest_bracketed` holds.
pub open spec fn joined(ps: Seq<Expr>, sep: Seq<char>, rest_bracketed: bool) -> Seq<char>
    decreases ps,
{
    if ps.len() == 0 {
        Seq::empty()
    } else if ps.len() == 1 {
        render(ps[0], false)
    } else {
        joined(ps.drop_last(), sep, rest_bracketed) + sep + render(ps.last(), rest_bracketed)
    }
}

proof fn lemma_pow10_bound(n: nat)
    requires
        n <= MAX_SCALE,
    ensures
        1 <= pow10(n) <= 1_000_000_000_000_000_000,
    decreases n,
{
    if n > 0 {
        lemma_pow10_bound((n - 1) as nat);
        if n == MAX_SCALE {
            reveal_with_fuel(pow10, 19);
        } else {
            lemma_pow10_below((n - 1) as nat);
        }
    }
}

proof fn lemma_pow10_below(n: nat)
    requires
        n < MAX_SCALE,
    ensures
        pow10(n) <= 100_000_000_000_000_000,
    decreases n,
{
    if n > 0 {
        lemma_pow10_below((n - 1) as nat);
        if n == 17 {
            reveal_with_fuel(pow10, 18);
        } else {
            lemma_pow10_ten((n - 1) as nat);
        }
    }
}

proof fn lemma_pow10_ten(n: nat)
    requires
        n < 16,
    ensures
        pow10(n) <= 10_000_000_000_000_000,
    decreases n,
{
    reveal_with_fuel(pow10, 17);
    if n > 0 {
        lemma_pow10_ten((n - 1) as nat);
    }
}

/// Appends the `n` lowest decimal digits of `v` to `out`.
fn push_padded(out: &mut String, v: u64, n: u32)
    ensures
        final(out)@ == old(out)@ + padded(v as nat, n as nat),
    decreases n,
{
    if n > 0 {
        push_padded(out, v / 10, n - 1);
        out.append(crate::text::digit_str(v % 10));
    }
}

proof fn lemma_digit_zero(d: nat)
    requires
        d < 10,
    ensures
        (crate::text::digit_char(d) == '0') == (d == 0),
{
}

/// Appends the decimal form of the number `units / 10^scale` to `out`.
fn push_number(out: &mut String, units: i64, scale: u32)
    requires
        scale <= MAX_SCALE,
    ensures
        final(out)@ == old(out)@ + number_text(units, scale),
{
    let a: u64 = if units < 0 {
        (0i128 - units as i128) as u64
    } else {
        units as u64
    };
    let mut p: u64 = 1;
    let mut i: u32 = 0;
    while i < scale
        invariant
            i <= scale <= MAX_SCALE,
            p == pow10(i as nat),
        decreases scale - i,
    {
        proof {
            lemma_pow10_bound(i as nat + 1);
        }
        p = p * 10;
        i = i + 1;
    }
    proof {
        lemma_pow10_bound(scale as nat);
    }
    if units < 0 {
        push_str(out, "-");
    } else {
        push_str(out, "");
    }
    push_dec(out, a / p);
    push_str(out, ".");
    let fp = a % p;
    if fp == 0 {
        push_str(out, "0");
    } else {
        let mut v = fp;
        let mut n = scale;
        while v % 10 == 0
            invariant
                0 < v < pow10(n as nat),
                n <= scale,
                strip_zeros(padded(fp as nat, scale as nat)) == strip_zeros(padded(v as nat, n as nat)),
            decreases n,
        {
            proof {
                if n == 0 {
                    assert(false);
                }
                lemma_digit_zero(0);
                let s = padded(v as nat, n as nat);
                assert(s.drop_last() == padded((v / 10) as nat, (n - 1) as nat));
                assert(s.last() == '0');
                assert((v / 10) < pow10((n - 1) as nat)) by (nonlinear_arith)
                    requires
                        v < 10 * pow10((n - 1) as nat),
                        v % 10 == 0,
                ;
            }
            v = v / 10;
            n = n - 1;
        }
        proof {
            lemma_digit_zero((v % 10) as nat);
            if n == 0 {
                assert(false);
            }
        }
        push_padded(out, v, n);
    }
}


proof fn lemma_wfs_each(ps: Seq<Expr>)
    requires
        wfs(ps),
    ensures
        forall|k: int| 0 <= k < ps.len() ==> wf(#[trigger] ps[k]),
    decreases ps.len(),
{
    if ps.len() > 0 {
        lemma_wfs_each(ps.drop_last());
        assert forall|k: int| 0 <= k < ps.len() implies wf(#[trigger] ps[k]) by {
            if k < ps.len() - 1 {
                assert(ps.drop_last()[k] == ps[k]);
            }
        }
    }
}

impl Expr {
    /// Appends the printed parameters, joined by `sep`, to `out`.
    fn write_joined(&self, ps: &Vec<Expr>, out: &mut String, sep: &str, rest_bracketed: bool)
        requires
            wfs(ps@),
            forall|k: int| 0 <= k < ps.len() ==> decreases_to!(*self => #[trigger] ps@[k]),
        ensures
            final(out)@ == old(out)@ + joined(ps@, sep@, rest_bracketed),
        decreases *self, 0nat,
    {
        proof {
            lemma_wfs_each(ps@);
        }
        let ghost start = out@;
        let mut k: usize = 0;
        while k < ps.len()
            invariant
                k <= ps.len(),
                forall|x: int| 0 <= x < ps.len() ==> wf(#[trigger] ps@[x]),
                forall|x: int| 0 <= x < ps.len() ==> decreases_to!(*self => #[trigger] ps@[x]),
                out@ == start + joined(ps@.take(k as int), sep@, rest_bracketed),
            decreases ps.len() - k,
        {
            proof {
                assert(ps@.take(k as int + 1).drop_last() =~= ps@.take(k as int));
                assert(ps@.take(k as int + 1).last() == ps@[k as int]);
            }
            if k > 0 {
                out.append(sep);
                ps[k].write(out, rest_bracketed);
                proof {
                    assert(out@ =~= start + joined(ps@.take(k as int + 1), sep@, rest_bracketed));
                }
            } else {
                ps[k].write(out, false);
                proof {
                    assert(ps@.take(1)[0] == ps@[0]);
                    assert(out@ =~= start + joined(ps@.take(1), sep@, rest_bracketed));
                }
            }
            k = k + 1;
        }
        proof {
            assert(ps@.take(ps.len() as int) =~= ps@);
        }
    }

    /// Appends the printed expression to `out`; `bracket` asks for
    /// parentheses round a compound sum or difference.
    pub fn write(&self, out: &mut String, bracket: bool)
        requires
            wf(*self),
        ensures
            final(out)@ == old(out)@ + render(*self, bracket),
        decreases *self, 1nat,
    {
        match self {
            Expr::Neg { param } => {
                push_str(out, "-");
                param.write(out, true);
            },
            Expr::Number { units, scale } => push_number(out, *units, *scale),
            Expr::Component { component_id } => {
                push_str(out, "#");
                push_dec(out, *component_id);
            },
            Expr::Add { params } => {
                let whole = bracket && params.len() > 1;
                if whole {
                    push_str(out, "(");
                }
                self.write_joined(params, out, " + ", false);
                if whole {
                    push_str(out, ")");
                }
            },
            Expr::Sub { params } => {
                let whole = bracket && params.len() > 1;
                if whole {
                    push_str(out, "(");
                }
                self.write_joined(params, out, " - ", true);
                if whole {
                    push_str(out, ")");
                }
            },
            Expr::Coalesce { params } => {
                push_str(out, "COALESCE(");
                self.write_joined(params, out, ", ", false);
                push_str(out, ")");
            },
            Expr::Min { params } => {
                push_str(out, "MIN(");
                self.write_joined(params, out, ", ", false);
                push_str(out, ")");
            },
            Expr::Max { params } => {
                push_str(out, "MAX(");
                self.write_joined(params, out, ", ", false);
                push_str(out, ")");
            },
        }
    }

    /// The printed expression.
    pub fn to_string(&self) -> (r: String)
        requires
            wf(*self),
        ensures
            r@ == render(*self, false),
    {
        let mut s = String::new();
        self.write(&mut s, false);
        s
    }
}


// ----- Constructors -----

impl Expr {
    /// The number `units / 10^scale`.
    pub fn number(units: i64, scale: u32) -> (r: Expr)
        requires
            scale <= MAX_SCALE,
        ensures
            r == (Expr::Number { units, scale }),
            wf(r),
    {
        Expr::Number { units, scale }
    }

    /// The reading of a component.
    pub fn component(component_id: u64) -> (r: Expr)
        ensures
            r == (Expr::Component { component_id }),
            wf(r),
    {
        Expr::Component { component_id }
    }

    /// The readings of the components, in the given order.
    pub fn components(component_ids: Vec<u64>) -> (r: Vec<Expr>)
        ensures
            r.len() == component_ids.len(),
            forall|k: int|
                0 <= k < r.len() ==> #[trigger] r@[k] == (Expr::Component { component_id: component_ids@[k] }),
    {
        let mut r: Vec<Expr> = Vec::new();
        let mut k: usize = 0;
        while k < component_ids.len()
            invariant
                k <= component_ids.len(),
                r.len() == k,
                forall|x: int|
                    0 <= x < k ==> #[trigger] r@[x] == (Expr::Component { component_id: component_ids@[x] }),
            decreases component_ids.len() - k,
        {
            r.push(Expr::Component { component_id: component_ids[k] });
            k = k + 1;
        }
        r
    }

    /// The first of the parameters that has a value.
    pub fn coalesce(params: Vec<Expr>) -> (r: Expr)
        ensures
            r == (Expr::Coalesce { params }),
    {
        Expr::Coalesce { params }
    }

    /// The least of the parameters.
    pub fn min(params: Vec<Expr>) -> (r: Expr)
        ensures
            r == (Expr::Min { params }),
    {
        Expr::Min { params }
    }

    /// The greatest of the parameters.
    pub fn max(params: Vec<Expr>) -> (r: Expr)
        ensures
            r == (Expr::Max { params }),
    {
        Expr::Max { params }
    }
}

/// `f(0.0, e)` for MIN or MAX: the clamp of `e` at zero.
pub fn clamp_at_zero(e: Expr, upper: bool) -> (r: Expr)
    requires
        wf(e),
    ensures
        wf(r),
        upper ==> r is Min && r->Min_params@ == seq![Expr::Number { units: 0, scale: 0 }, e],
        !upper ==> r is Max && r->Max_params@ == seq![Expr::Number { units: 0, scale: 0 }, e],
        forall|reading: spec_fn(u64) -> int| #[trigger] eval(r, reading) == if upper {
            if eval(e, reading) < 0 { eval(e, reading) } else { 0 }
        } else {
            if eval(e, reading) > 0 { eval(e, reading) } else { 0 }
        },
{
    let params = vec![Expr::Number { units: 0, scale: 0 }, e];
    proof {
        lemma_pair(params@, params@[0], params@[1]);
        assert(params@.drop_last() =~= seq![params@[0]]);
    }
    let ghost ps = params@;
    let r = if upper {
        Expr::Min { params }
    } else {
        Expr::Max { params }
    };
    proof {
        assert forall|reading: spec_fn(u64) -> int| #[trigger] eval(r, reading) == if upper {
            if eval(e, reading) < 0 { eval(e, reading) } else { 0 }
        } else {
            if eval(e, reading) > 0 { eval(e, reading) } else { 0 }
        } by {
            assert(ps.len() == 2);
            assert(ps.drop_last().len() == 1);
            assert(ps.drop_last()[0] == ps[0]);
            assert(eval(ps[0], reading) == 0);
            assert(ps.last() == e);
            assert(minimum(ps.drop_last(), reading) == 0);
            assert(maximum(ps.drop_last(), reading) == 0);
            if upper {
                assert(r == Expr::Min { params: r->Min_params });
                assert(r->Min_params@ == ps);
                assert(eval(r, reading) == minimum(ps, reading));
            } else {
                assert(r->Max_params@ == ps);
                assert(eval(r, reading) == maximum(ps, reading));
            }
        }
    }
    r
}

/// `COALESCE(e, 0.0)`.
pub fn or_zero(e: Expr) -> (r: Expr)
    requires
        wf(e),
    ensures
        wf(r),
        forall|reading: spec_fn(u64) -> int| #[trigger] eval(r, reading) == eval(e, reading),
        r is Coalesce && r->Coalesce_params@ == seq![e, Expr::Number { units: 0, scale: 0 }],
{
    let params = vec![e, Expr::Number { units: 0, scale: 0 }];
    proof {
        lemma_pair(params@, params@[0], params@[1]);
    }
    Expr::Coalesce { params }
}
} // verus!
