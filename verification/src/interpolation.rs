//! Polynomials that are determined by their values on a coset.
use crate::domain::{
    coset_point, is_domain_size, law_coset_points_share_a_power, Coset, TwoAdicField,
};
use crate::field::{
    all_valid, evaluate, lemma_difference_is_unique, lemma_power_adds, lemma_power_of_inverse,
    lemma_power_of_square, lemma_power_valid, lemma_product_zero, lemma_sum_cancels, power, Field,
};
use crate::recomposition::{
    lemma_evaluate_concatenation, lemma_evaluate_difference, lemma_evaluate_valid,
    lemma_evaluate_zeros, lemma_sums_interchange,
};
use vstd::arithmetic::power2::is_pow2;
use vstd::prelude::*;

verus! {

/// The coefficients with even index.
spec fn evens<F: Field>(p: Seq<F>) -> Seq<F> {
    Seq::new(p.len() / 2, |k: int| p[2 * k])
}

/// The coefficients with odd index.
spec fn odds<F: Field>(p: Seq<F>) -> Seq<F> {
    Seq::new(p.len() / 2, |k: int| p[2 * k + 1])
}

/// `p(x) = e(x^2) + x o(x^2)`, where `e` and `o` have the even and the odd coefficients.
proof fn lemma_evaluate_by_halves<F: Field>(p: Seq<F>, x: F)
    requires
        all_valid(p),
        p.len() % 2 == 0,
        x.valid(),
    ensures
        all_valid(evens(p)),
        all_valid(odds(p)),
        evaluate(p, x) == evaluate(evens(p), x.product(x)).sum(
            x.product(evaluate(odds(p), x.product(x))),
        ),
    decreases p.len(),
{
    F::constants_are_valid();
    let zero = F::zero_value();
    let square = x.product(x);
    F::ring_laws(x, x, x);
    if p.len() == 0 {
        lemma_product_zero(x);
        F::ring_laws(zero, zero, zero);
    } else {
        let rest = p.skip(2);
        let (re, ro) = (evens(rest), odds(rest));
        lemma_evaluate_by_halves(rest, x);
        lemma_evaluate_valid(re, square);
        lemma_evaluate_valid(ro, square);
        assert(p.skip(1).skip(1) =~= rest);
        assert(evens(p).skip(1) =~= re);
        assert(odds(p).skip(1) =~= ro);
        let (e, o) = (evaluate(re, square), evaluate(ro, square));
        let xo = x.product(o);
        let tail = e.sum(xo);
        let (a, b, c) = (square.product(e), square.product(xo), x.product(p[1]));
        F::ring_laws(x, o, x);
        F::ring_laws(e, xo, x);
        F::ring_laws(x, tail, x);
        F::ring_laws(x, x, tail);
        F::ring_laws(square, e, xo);
        F::ring_laws(square, xo, x);
        F::ring_laws(x, p[1], x.product(tail));
        F::ring_laws(square, o, x);
        F::ring_laws(x, p[1], square.product(o));
        F::ring_laws(square, x, o);
        F::ring_laws(x, square, o);
        F::ring_laws(a, b, x);
        F::ring_laws(p[0], c, a.sum(b));
        assert(b == x.product(square.product(o)));
        assert(evaluate(p, x) == p[0].sum(c.sum(a.sum(b)))) by {
            assert(evaluate(p, x) == p[0].sum(x.product(evaluate(p.skip(1), x))));
            assert(evaluate(p.skip(1), x) == p[1].sum(x.product(evaluate(rest, x))));
        }
        assert(evaluate(evens(p), square) == p[0].sum(a));
        assert(evaluate(odds(p), square) == p[1].sum(square.product(o)));
        lemma_sums_interchange(p[0], c, a, b);
        assert forall|k: int| 0 <= k < evens(p).len() implies (#[trigger] evens(p)[k]).valid() by {
            assert(p[2 * k].valid());
        }
        assert forall|k: int| 0 <= k < odds(p).len() implies (#[trigger] odds(p)[k]).valid() by {
            assert(p[2 * k + 1].valid());
        }
    }
}

/// Where `e + x o` and `e - x o` are zero, so are `e` and `o`: two and `x` are units.
proof fn lemma_halves_are_zero<F: Field>(e: F, o: F, x: F, other: F, inverse: F, half: F)
    requires
        e.valid(),
        o.valid(),
        x.valid(),
        other.valid(),
        inverse.valid(),
        half.valid(),
        x.sum(other) == F::zero_value(),
        x.product(inverse) == F::one_value(),
        F::one_value().sum(F::one_value()).product(half) == F::one_value(),
        e.sum(x.product(o)) == F::zero_value(),
        e.sum(other.product(o)) == F::zero_value(),
    ensures
        e == F::zero_value(),
        o == F::zero_value(),
{
    let (zero, one) = (F::zero_value(), F::one_value());
    let (a, b) = (x.product(o), other.product(o));
    F::constants_are_valid();
    F::ring_laws(x, o, x);
    F::ring_laws(other, o, x);
    F::ring_laws(zero, zero, zero);
    // (e + x o) + (e - x o) = (e + e) + (x - x) o
    lemma_sums_interchange(e, a, e, b);
    F::ring_laws(o, x, other);
    F::ring_laws(o, other, x);
    lemma_product_zero(o);
    assert(a.sum(b) == zero);
    F::ring_laws(e, e, e);
    F::ring_laws(e.sum(e), zero, zero);
    assert(e.sum(e) == zero);
    // e = (e (1 + 1)) / 2 = (e + e) / 2
    let two = one.sum(one);
    F::ring_laws(one, one, one);
    F::ring_laws(e, one, one);
    F::ring_laws(e, two, half);
    lemma_product_zero(half);
    assert(e == zero);
    F::ring_laws(a, zero, zero);
    F::ring_laws(zero, a, zero);
    assert(a == zero);
    // o = o (x / x) = (x o) / x
    F::ring_laws(o, x, inverse);
    F::ring_laws(o, one, one);
    lemma_product_zero(inverse);
}

/// A polynomial with as many coefficients as a coset has points, and which is zero there, is zero.
proof fn lemma_zero_on_a_coset_is_zero<F: TwoAdicField>(p: Seq<F>, shift: F, inverse: F, size: nat)
    requires
        all_valid(p),
        shift.valid(),
        inverse.valid(),
        shift.product(inverse) == F::one_value(),
        is_domain_size::<F>(size),
        p.len() == size,
        forall|index: nat|
            index < size ==> evaluate(p, #[trigger] coset_point(shift, size, index))
                == F::zero_value(),
    ensures
        forall|k: int| 0 <= k < size ==> p[k] == F::zero_value(),
    decreases size,
{
    let (zero, one) = (F::zero_value(), F::one_value());
    F::constants_are_valid();
    reveal(is_pow2);
    if size == 1 {
        let x = coset_point(shift, size, 0);
        law_coset_points_share_a_power(shift, size, 0);
        assert(evaluate(p.skip(1), x) == zero);
        lemma_product_zero(x);
        F::ring_laws(p[0], zero, zero);
        assert(evaluate(p, x) == p[0]);
    } else {
        let less = size / 2;
        let root = F::root_of_unity(size as usize);
        let square = shift.product(shift);
        F::root_laws(size as usize);
        let minus_one = power(root, less);
        let half = choose|half: F| #[trigger] half.valid() && one.sum(one).product(half) == one;
        assert forall|index: nat| index < less implies evaluate(
            evens(p),
            #[trigger] coset_point(square, less, index),
        ) == zero && evaluate(odds(p), coset_point(square, less, index)) == zero by {
            let x = coset_point(shift, size, index);
            let other = coset_point(shift, size, index + less);
            lemma_square_of_a_point(shift, size, index);
            lemma_opposite_point(shift, size, index);
            let undo = lemma_point_is_a_unit(shift, inverse, size, index);
            lemma_evaluate_by_halves(p, x);
            lemma_evaluate_by_halves(p, other);
            F::ring_laws(x, x, x);
            lemma_evaluate_valid(evens(p), x.product(x));
            lemma_evaluate_valid(odds(p), x.product(x));
            lemma_halves_are_zero(
                evaluate(evens(p), x.product(x)),
                evaluate(odds(p), x.product(x)),
                x,
                other,
                undo,
                half,
            );
        }
        lemma_evaluate_by_halves(p, shift);
        F::ring_laws(shift, shift, inverse);
        F::ring_laws(inverse, inverse, shift);
        lemma_power_of_inverse(shift, inverse, 2);
        lemma_power_is_square(shift);
        lemma_power_is_square(inverse);
        lemma_zero_on_a_coset_is_zero(evens(p), square, inverse.product(inverse), less);
        lemma_zero_on_a_coset_is_zero(odds(p), square, inverse.product(inverse), less);
        assert forall|k: int| 0 <= k < size implies p[k] == zero by {
            if k % 2 == 0 {
                assert(p[k] == evens(p)[k / 2]);
            } else {
                assert(p[k] == odds(p)[k / 2]);
            }
        }
    }
}

/// Minus one has the square one.
pub proof fn lemma_minus_one_squared<F: Field>(u: F)
    requires
        u.valid(),
        u.sum(F::one_value()) == F::zero_value(),
    ensures
        u.product(u) == F::one_value(),
{
    let one = F::one_value();
    F::constants_are_valid();
    // u u + u = u (u + 1) = 0 = 1 + u
    F::ring_laws(u, u, one);
    F::ring_laws(one, u, u);
    F::ring_laws(u, one, one);
    lemma_product_zero(u);
    lemma_sum_cancels(u.product(u), one, u);
}

/// The second power is the square.
pub proof fn lemma_power_is_square<F: Field>(x: F)
    requires
        x.valid(),
    ensures
        power(x, 2) == x.product(x),
{
    F::constants_are_valid();
    F::ring_laws(x, x, x);
    assert(power(x, 1) == x.product(power(x, 0)));
    assert(power(x, 2) == x.product(power(x, 1)));
}

/// The squares of a coset's points are the points of the square of the coset.
proof fn lemma_square_of_a_point<F: TwoAdicField>(shift: F, size: nat, index: nat)
    requires
        shift.valid(),
        is_domain_size::<F>(size),
        size >= 2,
    ensures
        coset_point(shift, size, index).product(coset_point(shift, size, index)) == coset_point(
            shift.product(shift),
            size / 2,
            index,
        ),
{
    let root = F::root_of_unity(size as usize);
    F::root_laws(size as usize);
    let p = power(root, index);
    lemma_power_valid(root, index);
    lemma_power_of_square(root, index);
    lemma_power_adds(root, index, index);
    F::ring_laws(shift, p, p);
    F::ring_laws(p, p, shift);
    F::ring_laws(shift, shift, p);
    F::ring_laws(shift, p, shift.product(p));
    F::ring_laws(p, shift, p);
    F::ring_laws(shift, shift, p.product(p));
}

/// The point half a coset further on is the negated one.
pub proof fn lemma_opposite_point<F: TwoAdicField>(shift: F, size: nat, index: nat)
    requires
        shift.valid(),
        is_domain_size::<F>(size),
        size >= 2,
    ensures
        coset_point(shift, size, index).valid(),
        coset_point(shift, size, index + size / 2).valid(),
        coset_point(shift, size, index).sum(coset_point(shift, size, index + size / 2))
            == F::zero_value(),
        coset_point(shift, size, index + size / 2).product(
            coset_point(shift, size, index + size / 2),
        ) == coset_point(shift, size, index).product(coset_point(shift, size, index)),
{
    let (zero, one) = (F::zero_value(), F::one_value());
    let root = F::root_of_unity(size as usize);
    F::root_laws(size as usize);
    F::constants_are_valid();
    let u = power(root, size / 2);
    let p = power(root, index);
    lemma_power_valid(root, size / 2);
    lemma_power_valid(root, index);
    lemma_power_adds(root, index, size / 2);
    let x = coset_point(shift, size, index);
    let other = coset_point(shift, size, index + size / 2);
    F::ring_laws(shift, p, u);
    F::ring_laws(x, u, u);
    assert(other == x.product(u));
    F::ring_laws(x, u, one);
    lemma_product_zero(x);
    F::ring_laws(x, x.product(u), zero);
    lemma_minus_one_squared(u);
    F::ring_laws(x, u, x.product(u));
    F::ring_laws(u, x, u);
    F::ring_laws(x, u.product(u), u);
    F::ring_laws(x, x, u);
    F::ring_laws(x, one, one);
}

/// The points of a coset are units.
proof fn lemma_point_is_a_unit<F: TwoAdicField>(shift: F, inverse: F, size: nat, index: nat) -> (r:
    F)
    requires
        shift.valid(),
        inverse.valid(),
        shift.product(inverse) == F::one_value(),
        is_domain_size::<F>(size),
        index <= size,
    ensures
        r.valid(),
        coset_point(shift, size, index).product(r) == F::one_value(),
{
    let root = F::root_of_unity(size as usize);
    F::root_laws(size as usize);
    F::constants_are_valid();
    let (p, q) = (power(root, index), power(root, (size - index) as nat));
    lemma_power_valid(root, index);
    lemma_power_valid(root, (size - index) as nat);
    lemma_power_adds(root, index, (size - index) as nat);
    // (s p) (q / s) = s ((p q) / s) = s / s
    F::ring_laws(q, inverse, p);
    F::ring_laws(shift, p, q.product(inverse));
    F::ring_laws(p, q, inverse);
    F::ring_laws(inverse, F::one_value(), inverse);
    q.product(inverse)
}

/// The two polynomials take the same values on the coset.
pub open spec fn agree_on<F: TwoAdicField>(p: Seq<F>, q: Seq<F>, coset: Coset<F>) -> bool {
    forall|index: nat|
        index < coset.size ==> evaluate(p, #[trigger] coset.point(index)) == evaluate(
            q,
            coset.point(index),
        )
}

/// Two polynomials with equally many coefficients, no more than a coset has points, are the same
/// where they take the same values on the coset.
pub proof fn law_values_on_a_coset_determine_the_polynomial<F: TwoAdicField>(
    p: Seq<F>,
    q: Seq<F>,
    coset: Coset<F>,
)
    requires
        coset.well_formed(),
        all_valid(p),
        all_valid(q),
        p.len() == q.len(),
        p.len() <= coset.size,
        agree_on(p, q, coset),
    ensures
        p == q,
{
    let zero = F::zero_value();
    let size = coset.size as nat;
    F::constants_are_valid();
    let gap = Seq::new(p.len(), |k: int| p[k].difference(q[k]));
    let zeros = Seq::new((size - p.len()) as nat, |k: int| F::zero_value());
    let padded = gap + zeros;
    assert forall|k: int| 0 <= k < gap.len() implies (#[trigger] gap[k]).valid() by {
        F::ring_laws(p[k], q[k], zero);
    }
    assert forall|k: int| 0 <= k < padded.len() implies (#[trigger] padded[k]).valid() by {
        if k < gap.len() {
            assert(gap[k].valid());
        }
    }
    assert forall|index: nat| index < size implies evaluate(
        padded,
        #[trigger] coset_point(coset.shift, size, index),
    ) == zero by {
        let x = coset.point(index);
        law_coset_points_share_a_power(coset.shift, size, index);
        lemma_evaluate_concatenation(gap, zeros, x);
        lemma_evaluate_zeros::<F>((size - p.len()) as nat, x);
        lemma_evaluate_difference(p, q, x);
        lemma_evaluate_valid(p, x);
        lemma_power_valid(x, p.len());
        lemma_product_zero(power(x, p.len()));
        let v = evaluate(p, x);
        F::ring_laws(zero, v, zero);
        F::ring_laws(v, zero, zero);
        F::ring_laws(v, v, zero);
        lemma_difference_is_unique(v, v, zero);
        F::ring_laws(zero, zero, zero);
    }
    lemma_zero_on_a_coset_is_zero(padded, coset.shift, coset.shift_inverse, size);
    assert forall|k: int| 0 <= k < p.len() implies p[k] == q[k] by {
        assert(padded[k] == gap[k]);
        F::ring_laws(p[k], q[k], zero);
        F::ring_laws(q[k], zero, zero);
        F::ring_laws(zero, q[k], zero);
    }
    assert(p =~= q);
}

/// Zeros behind the coefficients leave the values of a polynomial as they are.
proof fn lemma_evaluate_padded<F: Field>(p: Seq<F>, count: nat, x: F)
    requires
        all_valid(p),
        x.valid(),
    ensures
        all_valid(p + Seq::new(count, |k: int| F::zero_value())),
        evaluate(p + Seq::new(count, |k: int| F::zero_value()), x) == evaluate(p, x),
{
    let zeros = Seq::new(count, |k: int| F::zero_value());
    F::constants_are_valid();
    lemma_evaluate_concatenation(p, zeros, x);
    lemma_evaluate_zeros::<F>(count, x);
    lemma_power_valid(x, p.len());
    lemma_product_zero(power(x, p.len()));
    lemma_evaluate_valid(p, x);
    F::ring_laws(evaluate(p, x), x, x);
}

/// Two polynomials with no more coefficients than a coset has points take the same values
/// everywhere where they do on the coset.
pub proof fn law_values_on_a_coset_determine_all_values<F: TwoAdicField>(
    p: Seq<F>,
    q: Seq<F>,
    coset: Coset<F>,
    x: F,
)
    requires
        coset.well_formed(),
        all_valid(p),
        all_valid(q),
        p.len() <= coset.size,
        q.len() <= coset.size,
        agree_on(p, q, coset),
        x.valid(),
    ensures
        evaluate(p, x) == evaluate(q, x),
{
    let size = coset.size as nat;
    let padded_p = p + Seq::new((size - p.len()) as nat, |k: int| F::zero_value());
    let padded_q = q + Seq::new((size - q.len()) as nat, |k: int| F::zero_value());
    lemma_evaluate_padded(p, (size - p.len()) as nat, x);
    lemma_evaluate_padded(q, (size - q.len()) as nat, x);
    assert forall|index: nat| index < size implies evaluate(
        padded_p,
        #[trigger] coset.point(index),
    ) == evaluate(padded_q, coset.point(index)) by {
        let at = coset.point(index);
        law_coset_points_share_a_power(coset.shift, size, index);
        lemma_evaluate_padded(p, (size - p.len()) as nat, at);
        lemma_evaluate_padded(q, (size - q.len()) as nat, at);
    }
    law_values_on_a_coset_determine_the_polynomial(padded_p, padded_q, coset);
}

} // verus!
