//! A quotient polynomial that is split over cosets, and that recomposes from its chunks.
use crate::domain::{
    is_domain_size, law_coset_points_share_a_power, law_vanishing_polynomial_vanishes,
    lemma_pow2_is_pow2, Coset, TwoAdicField,
};
use crate::field::{
    all_valid, dot, evaluate, lemma_power_adds, lemma_power_of_one, lemma_power_of_power,
    lemma_power_of_product, lemma_power_of_square, lemma_power_valid, lemma_product_of_difference,
    lemma_product_zero, power, Field,
};
use crate::interpolation::{
    agree_on, law_values_on_a_coset_determine_all_values,
    law_values_on_a_coset_determine_the_polynomial, lemma_minus_one_squared, lemma_power_is_square,
};
use crate::quotient::vanishing_at;
use crate::recomposition::{
    lemma_evaluate_concatenation, lemma_evaluate_difference, lemma_evaluate_scaled,
    lemma_evaluate_valid, lemma_evaluate_zeros, lemma_product_of_others, lemma_product_valid,
    lemma_sums_interchange, product_of, product_of_others, selectors,
};
use crate::selectors::{
    lemma_vanishing_values_valid, normalizes, others_at_first_point, recomposed, selectors_exist,
    vanishing_values,
};
use vstd::arithmetic::div_mod::*;
use vstd::arithmetic::mul::*;
use vstd::arithmetic::power::*;
use vstd::arithmetic::power2::*;
use vstd::prelude::*;

verus! {

/// The `n` cosets `domains` split `coset`: each has an `n`-th of its points, and the one with index
/// `i` begins with its point of index `i`.
pub open spec fn split<F: TwoAdicField>(domains: Seq<Coset<F>>, coset: Coset<F>) -> bool {
    &&& coset.well_formed()
    &&& domains.len() > 0
    &&& forall|i: int|
        0 <= i < domains.len() ==> {
            &&& (#[trigger] domains[i]).well_formed()
            &&& domains[i].shift == coset.point(i as nat)
            &&& domains.len() * domains[i].size == coset.size
        }
}

/// The coefficients of `(leading X^size - 1) p`.
proof fn lemma_vanishing_multiple<F: Field>(p: Seq<F>, leading: F, size: nat) -> (r: Seq<F>)
    requires
        all_valid(p),
        leading.valid(),
    ensures
        r.len() == p.len() + size,
        all_valid(r),
        forall|x: F|
            x.valid() ==> #[trigger] evaluate(r, x) == vanishing_at(leading, size, x).product(
                evaluate(p, x),
            ),
{
    let (zero, one) = (F::zero_value(), F::one_value());
    F::constants_are_valid();
    let zeros = Seq::new(size, |k: int| F::zero_value());
    let scaled = Seq::new(p.len(), |k: int| leading.product(p[k]));
    assert forall|k: int| 0 <= k < p.len() implies (#[trigger] scaled[k]).valid() by {
        F::ring_laws(leading, p[k], zero);
    }
    let (a, b) = (zeros + scaled, p + zeros);
    assert(all_valid(a)) by {
        assert forall|k: int| 0 <= k < a.len() implies (#[trigger] a[k]).valid() by {
            if k >= size {
                assert(scaled[k - size].valid());
            }
        }
    }
    assert(all_valid(b)) by {
        assert forall|k: int| 0 <= k < b.len() implies (#[trigger] b[k]).valid() by {
            if k < p.len() {
                assert(p[k].valid());
            }
        }
    }
    let r = Seq::new(a.len(), |k: int| a[k].difference(b[k]));
    assert forall|k: int| 0 <= k < r.len() implies (#[trigger] r[k]).valid() by {
        assert(a[k].valid() && b[k].valid());
        F::ring_laws(a[k], b[k], zero);
    }
    assert forall|x: F| x.valid() implies #[trigger] evaluate(r, x) == vanishing_at(
        leading,
        size,
        x,
    ).product(evaluate(p, x)) by {
        let v = evaluate(p, x);
        let (high, low) = (power(x, size), power(x, p.len()));
        lemma_evaluate_valid(p, x);
        lemma_power_valid(x, size);
        lemma_power_valid(x, p.len());
        lemma_evaluate_difference(a, b, x);
        lemma_evaluate_concatenation(zeros, scaled, x);
        lemma_evaluate_concatenation(p, zeros, x);
        lemma_evaluate_zeros::<F>(size, x);
        lemma_evaluate_scaled(leading, p, x);
        lemma_product_zero(low);
        F::ring_laws(v, zero, zero);
        F::ring_laws(leading, v, zero);
        let lifted = high.product(leading.product(v));
        F::ring_laws(high, leading.product(v), zero);
        F::ring_laws(zero, lifted, zero);
        F::ring_laws(lifted, zero, zero);
        assert(evaluate(r, x) == lifted.difference(v));
        // (x^size (leading v)) - v = ((leading x^size) - 1) v
        let factor = leading.product(high);
        F::ring_laws(high, leading, v);
        F::ring_laws(leading, high, v);
        lemma_product_of_difference(v, factor, one);
        F::ring_laws(v, factor, one);
        F::ring_laws(v, one, one);
        F::ring_laws(factor, one, one);
        F::ring_laws(v, factor.difference(one), one);
        F::ring_laws(factor, v, one);
    }
    r
}

/// The values at `x` of the polynomials `leading_i X^size - 1`.
spec fn vanishing_all<F: Field>(leading: Seq<F>, size: nat, x: F) -> Seq<F> {
    Seq::new(leading.len(), |i: int| vanishing_at(leading[i], size, x))
}

/// The polynomials `leading_i X^size - 1` have valid values.
proof fn lemma_vanishing_all_valid<F: Field>(leading: Seq<F>, size: nat, x: F)
    requires
        all_valid(leading),
        x.valid(),
    ensures
        all_valid(vanishing_all(leading, size, x)),
{
    let values = vanishing_all(leading, size, x);
    F::constants_are_valid();
    lemma_power_valid(x, size);
    assert forall|i: int| 0 <= i < values.len() implies (#[trigger] values[i]).valid() by {
        F::ring_laws(leading[i], power(x, size), x);
        F::ring_laws(leading[i].product(power(x, size)), F::one_value(), x);
    }
}

/// The coefficients of the product of `p` and all `leading_i X^size - 1`.
proof fn lemma_vanishing_products<F: Field>(p: Seq<F>, leading: Seq<F>, size: nat) -> (r: Seq<F>)
    requires
        all_valid(p),
        all_valid(leading),
    ensures
        r.len() == p.len() + leading.len() * size,
        all_valid(r),
        forall|x: F|
            x.valid() ==> #[trigger] evaluate(r, x) == product_of(
                vanishing_all(leading, size, x),
            ).product(evaluate(p, x)),
    decreases leading.len(),
{
    F::constants_are_valid();
    if leading.len() == 0 {
        assert forall|x: F| x.valid() implies #[trigger] evaluate(p, x) == product_of(
            vanishing_all(leading, size, x),
        ).product(evaluate(p, x)) by {
            lemma_evaluate_valid(p, x);
            F::ring_laws(evaluate(p, x), F::one_value(), x);
        }
        p
    } else {
        let fewer = leading.drop_last();
        let last = leading.last();
        let made = lemma_vanishing_products(p, fewer, size);
        let r = lemma_vanishing_multiple(made, last, size);
        lemma_mul_is_distributive_add_other_way(size as int, fewer.len() as int, 1);
        assert forall|x: F| x.valid() implies #[trigger] evaluate(r, x) == product_of(
            vanishing_all(leading, size, x),
        ).product(evaluate(p, x)) by {
            let all = vanishing_all(leading, size, x);
            let before = vanishing_all(fewer, size, x);
            assert(all.drop_last() =~= before);
            lemma_vanishing_all_valid(leading, size, x);
            lemma_vanishing_all_valid(fewer, size, x);
            lemma_product_valid(before);
            lemma_evaluate_valid(p, x);
            let (z, b, v) = (all.last(), product_of(before), evaluate(p, x));
            assert(z.valid());
            assert(evaluate(made, x) == b.product(v));
            F::ring_laws(z, b, v);
            F::ring_laws(b, z, v);
        }
        r
    }
}

/// Sums of coefficients give sums of values.
proof fn lemma_evaluate_sum<F: Field>(a: Seq<F>, b: Seq<F>, x: F)
    requires
        all_valid(a),
        all_valid(b),
        a.len() == b.len(),
        x.valid(),
    ensures
        evaluate(Seq::new(a.len(), |k: int| a[k].sum(b[k])), x) == evaluate(a, x).sum(
            evaluate(b, x),
        ),
    decreases a.len(),
{
    F::constants_are_valid();
    let both = Seq::new(a.len(), |k: int| a[k].sum(b[k]));
    if a.len() == 0 {
        F::ring_laws(F::zero_value(), F::zero_value(), x);
    } else {
        let (ra, rb) = (a.skip(1), b.skip(1));
        assert(both.skip(1) =~= Seq::new(ra.len(), |k: int| ra[k].sum(rb[k])));
        lemma_evaluate_sum(ra, rb, x);
        lemma_evaluate_valid(ra, x);
        lemma_evaluate_valid(rb, x);
        let (va, vb) = (evaluate(ra, x), evaluate(rb, x));
        F::ring_laws(x, va, vb);
        F::ring_laws(x, vb, va);
        lemma_sums_interchange(a[0], b[0], x.product(va), x.product(vb));
    }
}

/// The leading coefficients of the cosets' vanishing polynomials.
spec fn leading_of<F: TwoAdicField>(domains: Seq<Coset<F>>) -> Seq<F> {
    Seq::new(domains.len(), |i: int| domains[i].leading())
}

/// The coefficients of one chunk, selected: `c_i q_i` times the other chunks' vanishing polynomials.
proof fn lemma_selected_chunk<F: TwoAdicField>(
    normalizer: F,
    domains: Seq<Coset<F>>,
    size: nat,
    p: Seq<F>,
    i: int,
) -> (r: Seq<F>)
    requires
        normalizer.valid(),
        all_valid(p),
        p.len() == size,
        0 <= i < domains.len(),
        forall|j: int|
            0 <= j < domains.len() ==> (#[trigger] domains[j]).well_formed() && domains[j].size
                == size,
    ensures
        r.len() == domains.len() * size,
        all_valid(r),
        forall|x: F|
            x.valid() ==> #[trigger] evaluate(r, x) == normalizer.product(
                product_of_others(vanishing_values(domains, x), i),
            ).product(evaluate(p, x)),
{
    let leading = leading_of(domains);
    let n = domains.len();
    assert forall|j: int| 0 <= j < n implies (#[trigger] leading[j]).valid() by {
        assert(domains[j].well_formed());
        lemma_power_valid(domains[j].shift_inverse, size);
    }
    let (before, after) = (leading.take(i), leading.skip(i + 1));
    let inner = lemma_vanishing_products(p, after, size);
    let outer = lemma_vanishing_products(inner, before, size);
    let r = Seq::new(outer.len(), |k: int| normalizer.product(outer[k]));
    assert(r.len() == n * size) by (nonlinear_arith)
        requires
            r.len() == size + (n - (i + 1)) * size + i * size,
    ;
    assert forall|k: int| 0 <= k < r.len() implies (#[trigger] r[k]).valid() by {
        F::ring_laws(normalizer, outer[k], normalizer);
    }
    assert forall|x: F| x.valid() implies #[trigger] evaluate(r, x) == normalizer.product(
        product_of_others(vanishing_values(domains, x), i),
    ).product(evaluate(p, x)) by {
        let values = vanishing_values(domains, x);
        assert forall|j: int| 0 <= j < n implies #[trigger] values[j] == vanishing_at(
            leading[j],
            size,
            x,
        ) by {
            assert(domains[j].size == size);
        }
        assert(values.take(i) =~= vanishing_all(before, size, x));
        assert(values.skip(i + 1) =~= vanishing_all(after, size, x));
        lemma_vanishing_all_valid(before, size, x);
        lemma_vanishing_all_valid(after, size, x);
        lemma_product_valid(values.take(i));
        lemma_product_valid(values.skip(i + 1));
        lemma_evaluate_valid(p, x);
        let (b, a, v) = (
            product_of(values.take(i)),
            product_of(values.skip(i + 1)),
            evaluate(p, x),
        );
        lemma_evaluate_scaled(normalizer, outer, x);
        assert(evaluate(inner, x) == a.product(v));
        assert(evaluate(outer, x) == b.product(evaluate(inner, x)));
        F::ring_laws(b, a, v);
        F::ring_laws(normalizer, b.product(a), v);
    }
    r
}

/// The values at `x` of several polynomials.
pub open spec fn values_of<F: Field>(chunks: Seq<Seq<F>>, x: F) -> Seq<F> {
    Seq::new(chunks.len(), |i: int| evaluate(chunks[i], x))
}

/// The coefficients of the polynomial that the first `count` chunks, selected, sum to.
proof fn lemma_recomposition_is_a_polynomial<F: TwoAdicField>(
    normalizers: Seq<F>,
    domains: Seq<Coset<F>>,
    size: nat,
    chunks: Seq<Seq<F>>,
    count: nat,
) -> (r: Seq<F>)
    requires
        all_valid(normalizers),
        normalizers.len() == domains.len(),
        chunks.len() == domains.len(),
        count <= domains.len(),
        forall|j: int|
            0 <= j < domains.len() ==> (#[trigger] domains[j]).well_formed() && domains[j].size
                == size,
        forall|j: int|
            0 <= j < chunks.len() ==> (#[trigger] chunks[j]).len() == size && all_valid(chunks[j]),
    ensures
        r.len() == domains.len() * size,
        all_valid(r),
        forall|x: F|
            x.valid() ==> #[trigger] evaluate(r, x) == dot(
                selectors(normalizers, vanishing_values(domains, x)),
                values_of(chunks, x),
                count,
            ),
    decreases count,
{
    F::constants_are_valid();
    if count == 0 {
        let r = Seq::new(domains.len() * size, |k: int| F::zero_value());
        assert forall|x: F| x.valid() implies #[trigger] evaluate(r, x) == dot(
            selectors(normalizers, vanishing_values(domains, x)),
            values_of(chunks, x),
            count,
        ) by {
            lemma_evaluate_zeros::<F>(domains.len() * size, x);
        }
        r
    } else {
        let i = count - 1;
        let fewer = lemma_recomposition_is_a_polynomial(
            normalizers,
            domains,
            size,
            chunks,
            (count - 1) as nat,
        );
        assert(chunks[i].len() == size);
        let last = lemma_selected_chunk(normalizers[i], domains, size, chunks[i], i);
        let r = Seq::new(fewer.len(), |k: int| fewer[k].sum(last[k]));
        assert forall|k: int| 0 <= k < r.len() implies (#[trigger] r[k]).valid() by {
            F::ring_laws(fewer[k], last[k], fewer[k]);
        }
        assert forall|x: F| x.valid() implies #[trigger] evaluate(r, x) == dot(
            selectors(normalizers, vanishing_values(domains, x)),
            values_of(chunks, x),
            count,
        ) by {
            lemma_evaluate_sum(fewer, last, x);
            assert(evaluate(fewer, x) == dot(
                selectors(normalizers, vanishing_values(domains, x)),
                values_of(chunks, x),
                (count - 1) as nat,
            ));
            assert(evaluate(last, x) == selectors(normalizers, vanishing_values(domains, x))[i].product(
            values_of(chunks, x)[i]));
        }
        r
    }
}

/// A product with a zero among its factors is zero.
proof fn lemma_product_with_a_zero<F: Field>(values: Seq<F>, index: int)
    requires
        all_valid(values),
        0 <= index < values.len(),
        values[index] == F::zero_value(),
    ensures
        product_of(values) == F::zero_value(),
{
    lemma_product_of_others(values, index);
    lemma_product_zero(product_of_others(values, index));
}

/// The product of all elements but one is zero where another of them is.
proof fn lemma_others_with_a_zero<F: Field>(values: Seq<F>, index: int, zero_at: int)
    requires
        all_valid(values),
        0 <= index < values.len(),
        0 <= zero_at < values.len(),
        index != zero_at,
        values[zero_at] == F::zero_value(),
    ensures
        product_of_others(values, index) == F::zero_value(),
{
    let (before, after) = (values.take(index), values.skip(index + 1));
    lemma_product_valid(before);
    lemma_product_valid(after);
    if zero_at < index {
        lemma_product_with_a_zero(before, zero_at);
        lemma_product_zero(product_of(after));
    } else {
        lemma_product_with_a_zero(after, zero_at - (index + 1));
        lemma_product_zero(product_of(before));
    }
}

/// Weights of which one is one and the others are zero pick out its value.
proof fn lemma_dot_of_an_indicator<F: Field>(weights: Seq<F>, values: Seq<F>, at: int, count: nat)
    requires
        all_valid(values),
        count <= values.len(),
        count <= weights.len(),
        0 <= at < values.len(),
        forall|j: int|
            0 <= j < count ==> #[trigger] weights[j] == if j == at {
                F::one_value()
            } else {
                F::zero_value()
            },
    ensures
        dot(weights, values, count) == if at < count {
            values[at]
        } else {
            F::zero_value()
        },
    decreases count,
{
    let zero = F::zero_value();
    F::constants_are_valid();
    if count > 0 {
        let last = count - 1;
        lemma_dot_of_an_indicator(weights, values, at, last as nat);
        let v = values[last];
        lemma_product_zero(v);
        F::ring_laws(v, F::one_value(), zero);
        F::ring_laws(v, zero, zero);
        F::ring_laws(zero, v, zero);
        F::ring_laws(zero, zero, zero);
        if at < last {
            F::ring_laws(values[at], zero, zero);
        }
    }
}

/// The cosets that split a coset all have the same size.
proof fn lemma_split_sizes<F: TwoAdicField>(domains: Seq<Coset<F>>, coset: Coset<F>)
    requires
        split(domains, coset),
    ensures
        domains[0].size > 0,
        domains.len() * domains[0].size == coset.size,
        forall|j: int|
            0 <= j < domains.len() ==> (#[trigger] domains[j]).well_formed() && domains[j].size
                == domains[0].size,
{
    let n = domains.len();
    let size = domains[0].size as nat;
    assert(domains[0].well_formed());
    reveal(is_pow2);
    assert forall|j: int| 0 <= j < n implies (#[trigger] domains[j]).well_formed()
        && domains[j].size == size by {
        assert(domains[j].size == size) by (nonlinear_arith)
            requires
                n * domains[j].size == n * size,
                n > 0,
        ;
    }
}

/// Each index below `n size` belongs to one of `n` parts and to a row of it.
proof fn lemma_index_in_a_part(index: nat, n: nat, size: nat) -> (r: (int, nat))
    requires
        index < n * size,
        n > 0,
    ensures
        0 <= r.0 < n,
        r.1 < size,
        index == r.0 + n * r.1,
{
    let (i, row) = ((index % n) as int, index / n);
    lemma_fundamental_div_mod(index as int, n as int);
    lemma_mod_bound(index as int, n as int);
    assert(row < size) by (nonlinear_arith)
        requires
            index == n * row + i,
            0 <= i,
            index < n * size,
    ;
    (i, row)
}

/// On one of several cosets of one size, its own vanishing polynomial is zero, and all of them take
/// the values that they take at its first point.
proof fn lemma_vanishing_on_a_part<F: TwoAdicField>(
    domains: Seq<Coset<F>>,
    size: nat,
    i: int,
    index: nat,
)
    requires
        0 <= i < domains.len(),
        forall|j: int|
            0 <= j < domains.len() ==> (#[trigger] domains[j]).well_formed() && domains[j].size
                == size,
    ensures
        domains[i].point(index).valid(),
        all_valid(vanishing_values(domains, domains[i].point(index))),
        vanishing_values(domains, domains[i].point(index)) == vanishing_values(
            domains,
            domains[i].shift,
        ),
        vanishing_values(domains, domains[i].point(index))[i] == F::zero_value(),
{
    assert(domains[i].well_formed() && domains[i].size == size);
    let x = domains[i].point(index);
    let first = domains[i].shift;
    law_coset_points_share_a_power(first, size, index);
    law_vanishing_polynomial_vanishes(domains[i], index);
    let vanishing = vanishing_values(domains, x);
    assert(vanishing =~= vanishing_values(domains, first)) by {
        assert forall|j: int| 0 <= j < domains.len() implies #[trigger] vanishing[j]
            == vanishing_values(domains, first)[j] by {
            assert(domains[j].size == size);
        }
    }
    lemma_vanishing_values_valid(domains, x);
}

/// On a chunk's own domain, chunks recompose to that chunk.
pub proof fn law_chunks_recompose_to_each_chunk_on_its_domain<F: TwoAdicField>(
    normalizers: Seq<F>,
    domains: Seq<Coset<F>>,
    size: nat,
    values: Seq<F>,
    i: int,
    index: nat,
)
    requires
        normalizes(normalizers, domains),
        all_valid(values),
        values.len() == domains.len(),
        0 <= i < domains.len(),
        forall|j: int|
            0 <= j < domains.len() ==> (#[trigger] domains[j]).well_formed() && domains[j].size
                == size,
    ensures
        recomposed(values, domains, normalizers, domains[i].point(index)) == values[i],
{
    let n = domains.len();
    lemma_vanishing_on_a_part(domains, size, i, index);
    let vanishing = vanishing_values(domains, domains[i].point(index));
    let weights = selectors(normalizers, vanishing);
    assert forall|j: int| 0 <= j < n implies #[trigger] weights[j] == if j == i {
        F::one_value()
    } else {
        F::zero_value()
    } by {
        assert(normalizers[j].valid());
        if j == i {
            assert(product_of_others(vanishing, i) == others_at_first_point(domains, i));
        } else {
            lemma_others_with_a_zero(vanishing, j, i);
            lemma_product_zero(normalizers[j]);
        }
    }
    lemma_dot_of_an_indicator(weights, values, i, n);
}

/// The generator of the subgroup of order `2^(a + c)` to the power `2^c` is that of the subgroup of
/// order `2^a`.
proof fn lemma_power_of_a_root<F: TwoAdicField>(a: nat, c: nat)
    requires
        pow2(a + c) <= F::max_order(),
    ensures
        power(F::root_of_unity(pow2(a + c) as usize), pow2(c)) == F::root_of_unity(
            pow2(a) as usize,
        ),
    decreases c,
{
    let root = F::root_of_unity(pow2(a + c) as usize);
    lemma_pow2_is_pow2(a + c);
    F::root_laws(pow2(a + c) as usize);
    if c == 0 {
        lemma2_to64();
        F::ring_laws(root, root, root);
        assert(power(root, 1) == root.product(power(root, 0)));
    } else {
        let fewer = (c - 1) as nat;
        lemma_pow2_unfold(a + c);
        lemma_pow2_unfold(c);
        lemma_pow2_pos(a + fewer);
        assert((a + c - 1) as nat == a + fewer);
        lemma_power_of_square(root, pow2(fewer));
        lemma_power_of_a_root::<F>(a, fewer);
    }
}

/// The points of the cosets that split a coset are its points: those of the `i`-th are every `n`-th
/// from the one with index `i` on.
pub proof fn law_split_cosets_share_the_points<F: TwoAdicField>(
    domains: Seq<Coset<F>>,
    coset: Coset<F>,
    i: int,
    row: nat,
)
    requires
        split(domains, coset),
        0 <= i < domains.len(),
    ensures
        domains[i].point(row) == coset.point(i as nat + domains.len() * row),
{
    let n = domains.len();
    let size = domains[i].size as nat;
    assert(domains[i].well_formed());
    is_pow2_equiv(size as int);
    is_pow2_equiv(coset.size as int);
    let a = choose|a: nat| pow(2, a) == size;
    let b = choose|b: nat| pow(2, b) == coset.size;
    lemma_pow2(a);
    lemma_pow2(b);
    if a > b {
        lemma_pow2_strictly_increases(b, a);
        lemma_mul_inequality(1, n as int, size as int);
    }
    let c = (b - a) as nat;
    lemma_pow2_adds(a, c);
    lemma_pow2_pos(a);
    assert(n == pow2(c)) by (nonlinear_arith)
        requires
            n * size == pow2(a) * pow2(c),
            size == pow2(a),
            size > 0,
    ;
    assert(a + c == b);
    lemma_power_of_a_root::<F>(a, c);
    let root = F::root_of_unity(coset.size);
    F::root_laws(coset.size);
    lemma_power_of_power(root, n, row);
    lemma_power_adds(root, i as nat, n * row);
    lemma_power_valid(root, i as nat);
    lemma_power_valid(root, n * row);
    F::ring_laws(coset.shift, power(root, i as nat), power(root, n * row));
}

/// A quotient recomposes from its chunks.
///
/// Where the chunks' domains split a coset that has a point for each coefficient of the quotient
/// polynomial, and each chunk is the polynomial, with a coefficient for each point of its domain,
/// that takes the quotient's values there, the chunks, selected and summed at any point of the
/// field, give the quotient's value at that point.
pub proof fn law_chunks_recompose_to_the_quotient<F: TwoAdicField>(
    normalizers: Seq<F>,
    domains: Seq<Coset<F>>,
    coset: Coset<F>,
    quotient: Seq<F>,
    chunks: Seq<Seq<F>>,
    z: F,
)
    requires
        split(domains, coset),
        normalizes(normalizers, domains),
        all_valid(quotient),
        quotient.len() <= coset.size,
        chunks.len() == domains.len(),
        forall|i: int|
            0 <= i < chunks.len() ==> {
                &&& (#[trigger] chunks[i]).len() == domains[i].size
                &&& all_valid(chunks[i])
                &&& agree_on(chunks[i], quotient, domains[i])
            },
        z.valid(),
    ensures
        recomposed(values_of(chunks, z), domains, normalizers, z) == evaluate(quotient, z),
{
    let n = domains.len();
    let size = domains[0].size as nat;
    lemma_split_sizes(domains, coset);
    assert forall|j: int| 0 <= j < n implies (#[trigger] chunks[j]).len() == size && all_valid(
        chunks[j],
    ) by {
        assert(domains[j].size == size);
    }
    let made = lemma_recomposition_is_a_polynomial(normalizers, domains, size, chunks, n);
    assert forall|index: nat| index < coset.size implies evaluate(
        made,
        #[trigger] coset.point(index),
    ) == evaluate(quotient, coset.point(index)) by {
        let (i, row) = lemma_index_in_a_part(index, n, size);
        let x = coset.point(index);
        law_split_cosets_share_the_points(domains, coset, i, row);
        assert(x == domains[i].point(row));
        law_coset_points_share_a_power(coset.shift, coset.size as nat, index);
        let values = values_of(chunks, x);
        assert forall|j: int| 0 <= j < n implies (#[trigger] values[j]).valid() by {
            assert(chunks[j].len() == size);
            lemma_evaluate_valid(chunks[j], x);
        }
        law_chunks_recompose_to_each_chunk_on_its_domain(
            normalizers,
            domains,
            size,
            values,
            i,
            row,
        );
        assert(chunks[i].len() == domains[i].size);
        assert(agree_on(chunks[i], quotient, domains[i]));
        assert(domains[i].size == size);
        assert(values[i] == evaluate(quotient, x));
    }
    law_values_on_a_coset_determine_all_values(made, quotient, coset, z);
}

/// One is not zero.
proof fn lemma_one_is_not_zero<F: TwoAdicField>(size: nat)
    requires
        is_domain_size::<F>(size),
    ensures
        F::one_value() != F::zero_value(),
{
    let generator = F::generator_value();
    F::root_laws(size as usize);
    F::constants_are_valid();
    F::ring_laws(generator, F::one_value(), generator);
    lemma_product_zero(generator);
}

/// The product of elements with the square one has the square one.
proof fn lemma_product_of_signs<F: Field>(values: Seq<F>)
    requires
        all_valid(values),
        forall|i: int| 0 <= i < values.len() ==> power(#[trigger] values[i], 2) == F::one_value(),
    ensures
        power(product_of(values), 2) == F::one_value(),
    decreases values.len(),
{
    F::constants_are_valid();
    if values.len() == 0 {
        lemma_power_of_one::<F>(2);
    } else {
        lemma_product_of_signs(values.drop_last());
        lemma_product_valid(values.drop_last());
        assert(power(values[values.len() - 1], 2) == F::one_value());
        lemma_power_of_product(product_of(values.drop_last()), values.last(), 2);
        F::ring_laws(F::one_value(), F::one_value(), F::one_value());
    }
}

/// At zero, the vanishing polynomials of cosets multiply to one or minus one.
proof fn lemma_others_at_zero<F: TwoAdicField>(domains: Seq<Coset<F>>, i: int)
    requires
        0 <= i < domains.len(),
        forall|j: int| 0 <= j < domains.len() ==> (#[trigger] domains[j]).well_formed(),
    ensures
        product_of_others(vanishing_values(domains, F::zero_value()), i) != F::zero_value(),
{
    let (zero, one) = (F::zero_value(), F::one_value());
    let values = vanishing_values(domains, zero);
    F::constants_are_valid();
    assert forall|j: int| 0 <= j < values.len() implies (#[trigger] values[j]).valid() && power(
        values[j],
        2,
    ) == one by {
        let domain = domains[j];
        assert(domain.well_formed());
        let size = domain.size as nat;
        reveal(is_pow2);
        lemma_power_valid(domain.shift_inverse, size);
        lemma_power_valid(zero, (size - 1) as nat);
        lemma_product_zero(power(zero, (size - 1) as nat));
        lemma_product_zero(domain.leading());
        F::ring_laws(zero, one, zero);
        lemma_minus_one_squared(values[j]);
        lemma_power_is_square(values[j]);
    }
    let (before, after) = (values.take(i), values.skip(i + 1));
    assert forall|j: int| 0 <= j < before.len() implies (#[trigger] before[j]).valid() && power(
        before[j],
        2,
    ) == one by {
        assert(before[j] == values[j]);
    }
    assert forall|j: int| 0 <= j < after.len() implies (#[trigger] after[j]).valid() && power(
        after[j],
        2,
    ) == one by {
        assert(after[j] == values[i + 1 + j]);
    }
    lemma_product_of_signs(before);
    lemma_product_of_signs(after);
    lemma_product_valid(before);
    lemma_product_valid(after);
    lemma_power_of_product(product_of(before), product_of(after), 2);
    F::ring_laws(one, one, one);
    assert(domains[i].well_formed());
    lemma_one_is_not_zero::<F>(domains[i].size as nat);
    lemma_power_is_square(zero);
    lemma_product_zero(zero);
}

/// The cosets that split a coset are disjoint: their selectors exist.
pub proof fn law_split_cosets_have_selectors<F: TwoAdicField>(
    domains: Seq<Coset<F>>,
    coset: Coset<F>,
)
    requires
        split(domains, coset),
    ensures
        selectors_exist(domains),
{
    let (zero, one) = (F::zero_value(), F::one_value());
    F::constants_are_valid();
    let n = domains.len();
    let size = domains[0].size as nat;
    lemma_split_sizes(domains, coset);
    assert forall|i: int| 0 <= i < n implies #[trigger] others_at_first_point(domains, i)
        != zero by {
        if others_at_first_point(domains, i) == zero {
            // the product of the others' vanishing polynomials would be zero on the whole coset
            let unit = Seq::new(size, |k: int| if k == 0 { one } else { zero });
            let made = lemma_selected_chunk(one, domains, size, unit, i);
            let none = Seq::new(coset.size as nat, |k: int| zero);
            assert(n * domains[i].size == coset.size);
            assert forall|index: nat| index < coset.size implies evaluate(
                made,
                #[trigger] coset.point(index),
            ) == evaluate(none, coset.point(index)) by {
                let x = coset.point(index);
                law_coset_points_share_a_power(coset.shift, coset.size as nat, index);
                let (j, row) = lemma_index_in_a_part(index, n, size);
                law_split_cosets_share_the_points(domains, coset, j, row);
                lemma_vanishing_on_a_part(domains, size, j, row);
                let values = vanishing_values(domains, x);
                if j == i {
                    assert(product_of_others(values, i) == zero);
                } else {
                    lemma_others_with_a_zero(values, i, j);
                }
                lemma_evaluate_zeros::<F>(coset.size as nat, x);
                lemma_evaluate_valid(unit, x);
                lemma_product_zero(one);
                lemma_product_zero(evaluate(unit, x));
            }
            law_values_on_a_coset_determine_the_polynomial(made, none, coset);
            lemma_evaluate_zeros::<F>(coset.size as nat, zero);
            lemma_others_at_zero(domains, i);
            // at zero, the unit polynomial is one
            lemma_evaluate_valid(unit.skip(1), zero);
            lemma_product_zero(evaluate(unit.skip(1), zero));
            F::ring_laws(one, zero, zero);
            assert(evaluate(unit, zero) == one);
            let others = product_of_others(vanishing_values(domains, zero), i);
            lemma_vanishing_values_valid(domains, zero);
            lemma_product_of_others(vanishing_values(domains, zero), i);
            F::ring_laws(one, others, one);
            F::ring_laws(others, one, one);
            assert(evaluate(made, zero) == one.product(others).product(evaluate(unit, zero)));
        }
    }
}

/// Where a coset begins with a point of another one, there are no selectors.
pub proof fn law_overlapping_cosets_have_no_selectors<F: TwoAdicField>(
    domains: Seq<Coset<F>>,
    i: int,
    j: int,
    index: nat,
)
    requires
        forall|k: int| 0 <= k < domains.len() ==> (#[trigger] domains[k]).well_formed(),
        0 <= i < domains.len(),
        0 <= j < domains.len(),
        i != j,
        domains[i].shift == domains[j].point(index),
    ensures
        !selectors_exist(domains),
{
    assert(domains[i].well_formed() && domains[j].well_formed());
    let values = vanishing_values(domains, domains[i].shift);
    lemma_vanishing_values_valid(domains, domains[i].shift);
    law_vanishing_polynomial_vanishes(domains[j], index);
    lemma_others_with_a_zero(values, i, j);
    assert(others_at_first_point(domains, i) == F::zero_value());
}

} // verus!
