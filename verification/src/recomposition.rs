//! What the randomization of quotient chunks keeps: the quotient that the chunks recompose to.
use crate::field::{
    all_valid, dot, evaluate, lemma_difference_is_unique, lemma_power_valid,
    lemma_product_of_difference, lemma_product_zero, power, Field,
};
use crate::quotient::{
    across_chunks, column_of, lemma_dot_valid, randomized_coefficients, vanishing_at,
};
use vstd::prelude::*;

verus! {

/// `(a + b) + (c + d) = (a + c) + (b + d)`.
pub proof fn lemma_sums_interchange<F: Field>(a: F, b: F, c: F, d: F)
    requires
        a.valid(),
        b.valid(),
        c.valid(),
        d.valid(),
    ensures
        a.sum(b).sum(c.sum(d)) == a.sum(c).sum(b.sum(d)),
{
    F::ring_laws(c, d, a);
    F::ring_laws(b, d, a);
    F::ring_laws(a, b, c.sum(d));
    F::ring_laws(a, c, b.sum(d));
    F::ring_laws(b, c, d);
    F::ring_laws(c, b, d);
}

/// Values of polynomials are valid.
pub proof fn lemma_evaluate_valid<F: Field>(coefficients: Seq<F>, x: F)
    requires
        all_valid(coefficients),
        x.valid(),
    ensures
        evaluate(coefficients, x).valid(),
    decreases coefficients.len(),
{
    F::constants_are_valid();
    if coefficients.len() > 0 {
        let rest = evaluate(coefficients.skip(1), x);
        lemma_evaluate_valid(coefficients.skip(1), x);
        F::ring_laws(x, rest, x);
        F::ring_laws(coefficients[0], x.product(rest), x);
    }
}

/// `(a + b X^|a|)(x) = a(x) + x^|a| b(x)`.
pub proof fn lemma_evaluate_concatenation<F: Field>(a: Seq<F>, b: Seq<F>, x: F)
    requires
        all_valid(a),
        all_valid(b),
        x.valid(),
    ensures
        evaluate(a + b, x) == evaluate(a, x).sum(power(x, a.len()).product(evaluate(b, x))),
    decreases a.len(),
{
    F::constants_are_valid();
    lemma_evaluate_valid(b, x);
    let vb = evaluate(b, x);
    if a.len() == 0 {
        assert(a + b =~= b);
        F::ring_laws(F::one_value(), vb, vb);
        F::ring_laws(vb, F::one_value(), vb);
        F::ring_laws(F::zero_value(), vb, vb);
        F::ring_laws(vb, F::zero_value(), vb);
    } else {
        let rest = a.skip(1);
        assert((a + b).skip(1) =~= rest + b);
        lemma_evaluate_concatenation(rest, b, x);
        lemma_evaluate_valid(rest, x);
        let va = evaluate(rest, x);
        let p = power(x, rest.len());
        lemma_power_valid(x, rest.len());
        F::ring_laws(p, vb, x);
        F::ring_laws(x, va, p.product(vb));
        F::ring_laws(x, p, vb);
        F::ring_laws(x, p.product(vb), x);
        F::ring_laws(a[0], x.product(va), x.product(p.product(vb)));
        assert((a + b)[0] == a[0]);
        assert(rest.len() == (a.len() - 1) as nat);
    }
}

/// Differences of coefficients give differences of values.
pub proof fn lemma_evaluate_difference<F: Field>(a: Seq<F>, b: Seq<F>, x: F)
    requires
        all_valid(a),
        all_valid(b),
        a.len() == b.len(),
        x.valid(),
    ensures
        evaluate(Seq::new(a.len(), |k: int| a[k].difference(b[k])), x) == evaluate(a, x).difference(
            evaluate(b, x),
        ),
    decreases a.len(),
{
    F::constants_are_valid();
    let both = Seq::new(a.len(), |k: int| a[k].difference(b[k]));
    if a.len() == 0 {
        F::ring_laws(F::zero_value(), F::zero_value(), x);
        lemma_difference_is_unique(F::zero_value(), F::zero_value(), F::zero_value());
    } else {
        let (ra, rb) = (a.skip(1), b.skip(1));
        assert(both.skip(1) =~= Seq::new(ra.len(), |k: int| ra[k].difference(rb[k])));
        lemma_evaluate_difference(ra, rb, x);
        lemma_evaluate_valid(ra, x);
        lemma_evaluate_valid(rb, x);
        let (va, vb) = (evaluate(ra, x), evaluate(rb, x));
        let (xa, xb) = (x.product(va), x.product(vb));
        let d0 = a[0].difference(b[0]);
        let dx = xa.difference(xb);
        lemma_product_of_difference(x, va, vb);
        F::ring_laws(x, va, x);
        F::ring_laws(x, vb, x);
        F::ring_laws(a[0], b[0], x);
        F::ring_laws(xa, xb, x);
        lemma_sums_interchange(d0, dx, b[0], xb);
        F::ring_laws(a[0], xa, x);
        F::ring_laws(b[0], xb, x);
        F::ring_laws(d0, dx, x);
        lemma_difference_is_unique(a[0].sum(xa), b[0].sum(xb), d0.sum(dx));
    }
}

/// Scaled coefficients give scaled values.
pub proof fn lemma_evaluate_scaled<F: Field>(scale: F, a: Seq<F>, x: F)
    requires
        scale.valid(),
        all_valid(a),
        x.valid(),
    ensures
        evaluate(Seq::new(a.len(), |k: int| scale.product(a[k])), x) == scale.product(
            evaluate(a, x),
        ),
    decreases a.len(),
{
    F::constants_are_valid();
    let scaled = Seq::new(a.len(), |k: int| scale.product(a[k]));
    if a.len() == 0 {
        lemma_product_zero(scale);
    } else {
        let rest = a.skip(1);
        assert(scaled.skip(1) =~= Seq::new(rest.len(), |k: int| scale.product(rest[k])));
        lemma_evaluate_scaled(scale, rest, x);
        lemma_evaluate_valid(rest, x);
        let v = evaluate(rest, x);
        F::ring_laws(x, v, scale);
        F::ring_laws(scale, a[0], x.product(v));
        F::ring_laws(scale, x, v);
        F::ring_laws(x, scale, v);
    }
}

/// Zeros give zero.
pub proof fn lemma_evaluate_zeros<F: Field>(count: nat, x: F)
    requires
        x.valid(),
    ensures
        evaluate(Seq::new(count, |k: int| F::zero_value()), x) == F::zero_value(),
    decreases count,
{
    F::constants_are_valid();
    if count > 0 {
        let zeros = Seq::new(count, |k: int| F::zero_value());
        let fewer = Seq::new((count - 1) as nat, |k: int| F::zero_value());
        assert(zeros.skip(1) =~= fewer);
        lemma_evaluate_zeros((count - 1) as nat, x);
        lemma_product_zero(x);
        F::ring_laws(F::zero_value(), F::zero_value(), x);
    }
}

/// The randomized coefficients are those of `q + Z t`, where `Z = leading X^h - 1`.
pub proof fn law_randomized_coefficients_evaluate<F: Field>(
    q: Seq<F>,
    t: Seq<F>,
    leading: F,
    rows: nat,
    x: F,
)
    requires
        all_valid(q),
        all_valid(t),
        leading.valid(),
        x.valid(),
        q.len() == t.len(),
        2 * q.len() <= rows,
    ensures
        evaluate(randomized_coefficients(q, t, leading, rows), x) == evaluate(q, x).sum(
            vanishing_at(leading, q.len(), x).product(evaluate(t, x)),
        ),
{
    F::constants_are_valid();
    let h = q.len();
    let low = Seq::new(h, |k: int| q[k].difference(t[k]));
    let high = Seq::new(h, |k: int| leading.product(t[k]));
    let zeros = Seq::new((rows - 2 * h) as nat, |k: int| F::zero_value());
    assert(randomized_coefficients(q, t, leading, rows) =~= low + (high + zeros));
    assert forall|k: int| 0 <= k < h implies (#[trigger] low[k]).valid() by {
        F::ring_laws(q[k], t[k], x);
    }
    assert forall|k: int| 0 <= k < h implies (#[trigger] high[k]).valid() by {
        F::ring_laws(leading, t[k], x);
    }
    assert(all_valid(low) && all_valid(high) && all_valid(zeros) && all_valid(high + zeros));
    lemma_evaluate_concatenation(low, high + zeros, x);
    lemma_evaluate_concatenation(high, zeros, x);
    lemma_evaluate_zeros::<F>((rows - 2 * h) as nat, x);
    lemma_evaluate_difference(q, t, x);
    lemma_evaluate_scaled(leading, t, x);
    lemma_evaluate_valid(q, x);
    lemma_evaluate_valid(t, x);
    lemma_power_valid(x, h);
    let (vq, vt, p, one) = (evaluate(q, x), evaluate(t, x), power(x, h), F::one_value());
    lemma_product_zero(p);
    F::ring_laws(leading, vt, x);
    F::ring_laws(leading.product(vt), F::zero_value(), x);
    // a = x^h (leading t(x)) = (leading x^h) t(x)
    let a = p.product(leading.product(vt));
    F::ring_laws(p, leading, vt);
    F::ring_laws(leading, p, vt);
    F::ring_laws(p, leading.product(vt), x);
    assert(a == leading.product(p).product(vt));
    // Z(x) t(x) = a - t(x)
    let z = vanishing_at(leading, h, x);
    F::ring_laws(leading.product(p), one, x);
    F::ring_laws(z, vt, x);
    F::ring_laws(vt, leading.product(p), x);
    F::ring_laws(vt, one, x);
    lemma_product_of_difference(vt, leading.product(p), one);
    F::ring_laws(leading.product(p), vt, x);
    assert(z.product(vt) == a.difference(vt));
    // (q - t) + a = (q - t) + ((a - t) + t) = q + (a - t)
    let (e, d) = (vq.difference(vt), a.difference(vt));
    F::ring_laws(vq, vt, x);
    F::ring_laws(a, vt, x);
    F::ring_laws(d, vt, e);
    F::ring_laws(vt, d, e);
    F::ring_laws(e, vt, d);
}

/// The product of all elements.
pub open spec fn product_of<F: Field>(values: Seq<F>) -> F
    decreases values.len(),
{
    if values.len() == 0 {
        F::one_value()
    } else {
        product_of(values.drop_last()).product(values.last())
    }
}

/// The product of all elements but the one at `index`.
pub open spec fn product_of_others<F: Field>(values: Seq<F>, index: int) -> F {
    product_of(values.take(index)).product(product_of(values.skip(index + 1)))
}

/// Products are valid.
pub proof fn lemma_product_valid<F: Field>(values: Seq<F>)
    requires
        all_valid(values),
    ensures
        product_of(values).valid(),
    decreases values.len(),
{
    F::constants_are_valid();
    if values.len() > 0 {
        lemma_product_valid(values.drop_last());
        F::ring_laws(product_of(values.drop_last()), values.last(), values.last());
    }
}

/// The product of a concatenation is that of the two products.
proof fn lemma_product_of_concatenation<F: Field>(a: Seq<F>, b: Seq<F>)
    requires
        all_valid(a),
        all_valid(b),
    ensures
        product_of(a + b) == product_of(a).product(product_of(b)),
    decreases b.len(),
{
    F::constants_are_valid();
    lemma_product_valid(a);
    if b.len() == 0 {
        assert(a + b =~= a);
        F::ring_laws(product_of(a), F::one_value(), F::one_value());
    } else {
        assert((a + b).drop_last() =~= a + b.drop_last());
        lemma_product_of_concatenation(a, b.drop_last());
        lemma_product_valid(b.drop_last());
        F::ring_laws(product_of(a), product_of(b.drop_last()), b.last());
    }
}

/// An element times the product of the others is the product of all.
pub proof fn lemma_product_of_others<F: Field>(values: Seq<F>, index: int)
    requires
        all_valid(values),
        0 <= index < values.len(),
    ensures
        product_of_others(values, index).valid(),
        product_of_others(values, index).product(values[index]) == product_of(values),
{
    let (before, after) = (values.take(index), values.skip(index + 1));
    lemma_product_valid(before);
    lemma_product_valid(after);
    let here = values[index];
    assert(values =~= before.push(here) + after);
    assert(before.push(here).drop_last() =~= before);
    lemma_product_of_concatenation(before.push(here), after);
    let (p, q) = (product_of(before), product_of(after));
    F::ring_laws(p, q, here);
    F::ring_laws(p, here, q);
    F::ring_laws(q, here, p);
}

/// The selectors of the chunks at a point where the chunks' vanishing polynomials take the values
/// `vanishing`: the selector of a chunk is its normalizer times the other chunks' values.
pub open spec fn selectors<F: Field>(normalizers: Seq<F>, vanishing: Seq<F>) -> Seq<F> {
    Seq::new(
        normalizers.len(),
        |i: int| normalizers[i].product(product_of_others(vanishing, i)),
    )
}

/// Chunk values with `Z_i t_i` added, selected and summed, differ from the bare ones by
/// `(prod Z_j) sum c_i t_i`.
proof fn lemma_selected_sum<F: Field>(
    normalizers: Seq<F>,
    vanishing: Seq<F>,
    q: Seq<F>,
    t: Seq<F>,
    count: nat,
)
    requires
        all_valid(normalizers),
        all_valid(vanishing),
        all_valid(q),
        all_valid(t),
        normalizers.len() == vanishing.len() == q.len() == t.len(),
        count <= q.len(),
    ensures
        all_valid(selectors(normalizers, vanishing)),
        dot(
            selectors(normalizers, vanishing),
            Seq::new(q.len(), |i: int| q[i].sum(vanishing[i].product(t[i]))),
            count,
        ) == dot(selectors(normalizers, vanishing), q, count).sum(
            product_of(vanishing).product(dot(normalizers, t, count)),
        ),
    decreases count,
{
    F::constants_are_valid();
    let s = selectors(normalizers, vanishing);
    let all = product_of(vanishing);
    lemma_product_valid(vanishing);
    assert forall|i: int| 0 <= i < s.len() implies (#[trigger] s[i]).valid() by {
        lemma_product_of_others(vanishing, i);
        F::ring_laws(normalizers[i], product_of_others(vanishing, i), all);
    }
    let mixed = Seq::new(q.len(), |i: int| q[i].sum(vanishing[i].product(t[i])));
    if count == 0 {
        lemma_product_zero(all);
        F::ring_laws(F::zero_value(), F::zero_value(), all);
    } else {
        let fewer = (count - 1) as nat;
        let i = count - 1;
        lemma_selected_sum(normalizers, vanishing, q, t, fewer);
        lemma_dot_valid(s, q, fewer);
        lemma_dot_valid(normalizers, t, fewer);
        lemma_product_of_others(vanishing, i);
        let (c, others, z) = (normalizers[i], product_of_others(vanishing, i), vanishing[i]);
        let (sq, ct) = (dot(s, q, fewer), dot(normalizers, t, fewer));
        // s z t = (c others) (z t) = (others z) (c t) = all (c t)
        let zt = z.product(t[i]);
        F::ring_laws(z, t[i], all);
        F::ring_laws(c, others, zt);
        F::ring_laws(others, z, t[i]);
        F::ring_laws(c, all, t[i]);
        F::ring_laws(all, c, t[i]);
        let term = c.product(t[i]);
        F::ring_laws(c, t[i], all);
        assert(s[i].product(zt) == all.product(term));
        F::ring_laws(s[i], q[i], zt);
        F::ring_laws(all, ct, term);
        F::ring_laws(all, term, ct);
        lemma_sums_interchange(sq, all.product(ct), s[i].product(q[i]), all.product(term));
    }
}

/// `sum c_i (a_i + x b_i) = sum c_i a_i + x sum c_i b_i`.
proof fn lemma_dot_is_linear<F: Field>(c: Seq<F>, a: Seq<F>, b: Seq<F>, x: F, count: nat)
    requires
        all_valid(c),
        all_valid(a),
        all_valid(b),
        x.valid(),
        c.len() == a.len() == b.len(),
        count <= c.len(),
    ensures
        dot(c, Seq::new(c.len(), |i: int| a[i].sum(x.product(b[i]))), count) == dot(c, a, count).sum(
            x.product(dot(c, b, count)),
        ),
    decreases count,
{
    F::constants_are_valid();
    if count == 0 {
        lemma_product_zero(x);
        F::ring_laws(F::zero_value(), F::zero_value(), x);
    } else {
        let fewer = (count - 1) as nat;
        let i = count - 1;
        lemma_dot_is_linear(c, a, b, x, fewer);
        lemma_dot_valid(c, a, fewer);
        lemma_dot_valid(c, b, fewer);
        let (da, db) = (dot(c, a, fewer), dot(c, b, fewer));
        let (ca, cb) = (c[i].product(a[i]), c[i].product(b[i]));
        F::ring_laws(x, b[i], c[i]);
        F::ring_laws(c[i], a[i], x.product(b[i]));
        F::ring_laws(c[i], x, b[i]);
        F::ring_laws(x, c[i], b[i]);
        F::ring_laws(c[i], b[i], x);
        F::ring_laws(x, db, cb);
        F::ring_laws(x, cb, db);
        lemma_sums_interchange(da, x.product(db), ca, x.product(cb));
    }
}

/// The `k`-th coefficients of several polynomials.
spec fn coefficients_at<F: Field>(t: Seq<Seq<F>>, k: int) -> Seq<F> {
    Seq::new(t.len(), |i: int| t[i][k])
}

/// Polynomials whose coefficients, weighted by `c`, sum to zero have values that do.
proof fn lemma_balanced_values<F: Field>(c: Seq<F>, t: Seq<Seq<F>>, size: nat, x: F)
    requires
        all_valid(c),
        t.len() == c.len(),
        x.valid(),
        forall|i: int| 0 <= i < t.len() ==> (#[trigger] t[i]).len() == size && all_valid(t[i]),
        forall|k: int|
            0 <= k < size ==> dot(c, #[trigger] coefficients_at(t, k), c.len())
                == F::zero_value(),
    ensures
        dot(c, Seq::new(c.len(), |i: int| evaluate(t[i], x)), c.len()) == F::zero_value(),
    decreases size,
{
    F::constants_are_valid();
    let n = c.len();
    let values = Seq::new(n, |i: int| evaluate(t[i], x));
    if size == 0 {
        lemma_dot_of_zeros(c, values, n);
    } else {
        let rest = Seq::new(n, |i: int| t[i].skip(1));
        let heads = Seq::new(n, |i: int| t[i][0]);
        let tails = Seq::new(n, |i: int| evaluate(rest[i], x));
        assert forall|k: int| 0 <= k < size - 1 implies dot(
            c,
            #[trigger] coefficients_at(rest, k),
            n,
        ) == F::zero_value() by {
            assert(coefficients_at(rest, k) =~= coefficients_at(t, k + 1));
        }
        assert forall|i: int| 0 <= i < n implies (#[trigger] rest[i]).len() == size - 1
            && all_valid(rest[i]) by {
            assert(t[i].len() == size);
        }
        lemma_balanced_values(c, rest, (size - 1) as nat, x);
        assert forall|i: int| 0 <= i < n implies (#[trigger] tails[i]).valid() by {
            assert(rest[i].len() == size - 1);
            lemma_evaluate_valid(rest[i], x);
        }
        assert forall|i: int| 0 <= i < n implies (#[trigger] heads[i]).valid() by {
            assert(t[i].len() == size);
        }
        assert(heads =~= coefficients_at(t, 0));
        assert(values =~= Seq::new(n, |i: int| heads[i].sum(x.product(tails[i])))) by {
            assert forall|i: int| 0 <= i < n implies #[trigger] values[i] == heads[i].sum(
                x.product(tails[i]),
            ) by {
                assert(t[i].len() == size);
            }
        }
        lemma_dot_is_linear(c, heads, tails, x, n);
        lemma_product_zero(x);
        F::ring_laws(F::zero_value(), F::zero_value(), x);
    }
}

/// Weighted zeros sum to zero.
proof fn lemma_dot_of_zeros<F: Field>(c: Seq<F>, zeros: Seq<F>, count: nat)
    requires
        all_valid(c),
        count <= c.len(),
        count <= zeros.len(),
        forall|i: int| 0 <= i < count ==> zeros[i] == F::zero_value(),
    ensures
        dot(c, zeros, count) == F::zero_value(),
    decreases count,
{
    F::constants_are_valid();
    if count > 0 {
        lemma_dot_of_zeros(c, zeros, (count - 1) as nat);
        lemma_product_zero(c[count - 1]);
        F::ring_laws(F::zero_value(), F::zero_value(), F::zero_value());
    }
}

/// Adding `Z_i t_i` to the quotient chunks leaves the polynomial that they recompose to unchanged
/// at every point, where the randomizers are balanced: at every coefficient position
/// `sum_i c_i t_i = 0`.
///
/// `chunks` holds for each chunk the coefficients of its polynomial in the given column,
/// `randomizers` those of all `t_i`, chunk by chunk and row by row.
pub proof fn law_randomization_preserves_recomposition<F: Field>(
    normalizers: Seq<F>,
    chunks: Seq<Seq<F>>,
    randomizers: Seq<F>,
    leading: Seq<F>,
    size: nat,
    width: nat,
    column: int,
    rows: nat,
    x: F,
)
    requires
        all_valid(normalizers),
        all_valid(randomizers),
        all_valid(leading),
        x.valid(),
        chunks.len() == normalizers.len(),
        leading.len() == normalizers.len(),
        randomizers.len() == normalizers.len() * (size * width),
        0 <= column < width,
        2 * size <= rows,
        forall|i: int|
            0 <= i < chunks.len() ==> (#[trigger] chunks[i]).len() == size && all_valid(chunks[i]),
        forall|position: int|
            0 <= position < size * width ==> dot(
                normalizers,
                #[trigger] across_chunks(
                    randomizers,
                    size * width,
                    position,
                    normalizers.len(),
                ),
                normalizers.len(),
            ) == F::zero_value(),
    ensures
        dot(
            selectors(
                normalizers,
                Seq::new(normalizers.len(), |i: int| vanishing_at(leading[i], size, x)),
            ),
            Seq::new(
                normalizers.len(),
                |i: int|
                    evaluate(
                        randomized_coefficients(
                            chunks[i],
                            column_of(randomizers, i * (size * width), width, column, size),
                            leading[i],
                            rows,
                        ),
                        x,
                    ),
            ),
            normalizers.len(),
        ) == dot(
            selectors(
                normalizers,
                Seq::new(normalizers.len(), |i: int| vanishing_at(leading[i], size, x)),
            ),
            Seq::new(normalizers.len(), |i: int| evaluate(chunks[i], x)),
            normalizers.len(),
        ),
{
    F::constants_are_valid();
    let n = normalizers.len();
    let per = size * width;
    let t = Seq::new(n, |i: int| column_of(randomizers, i * per, width, column, size));
    let z = Seq::new(n, |i: int| vanishing_at(leading[i], size, x));
    let vq = Seq::new(n, |i: int| evaluate(chunks[i], x));
    let vt = Seq::new(n, |i: int| evaluate(t[i], x));
    assert forall|i: int| 0 <= i < n implies (#[trigger] t[i]).len() == size && all_valid(t[i]) by {
        assert forall|k: int| 0 <= k < size implies (#[trigger] t[i][k]).valid() by {
            lemma_entry_index(i, k, column, size as int, width as int, n as int);
        }
    }
    assert forall|i: int| 0 <= i < n implies (#[trigger] z[i]).valid() by {
        lemma_power_valid(x, size);
        F::ring_laws(leading[i], power(x, size), x);
        F::ring_laws(leading[i].product(power(x, size)), F::one_value(), x);
    }
    assert forall|i: int| 0 <= i < n implies (#[trigger] vq[i]).valid() by {
        assert(chunks[i].len() == size);
        lemma_evaluate_valid(chunks[i], x);
    }
    assert forall|i: int| 0 <= i < n implies (#[trigger] vt[i]).valid() by {
        assert(t[i].len() == size);
        lemma_evaluate_valid(t[i], x);
    }
    assert forall|k: int| 0 <= k < size implies dot(
        normalizers,
        #[trigger] coefficients_at(t, k),
        n,
    ) == F::zero_value() by {
        let position = k * width + column;
        lemma_entry_index(0, k, column, size as int, width as int, 1);
        let row = coefficients_at(t, k);
        assert(row =~= across_chunks(randomizers, per, position, n)) by {
            assert forall|i: int| 0 <= i < n implies #[trigger] row[i] == across_chunks(
                randomizers,
                per,
                position,
                n,
            )[i] by {
                assert(i * per + k * width + column == i * per + position);
            }
        }
    }
    lemma_balanced_values(normalizers, t, size, x);
    let mixed = Seq::new(n, |i: int| vq[i].sum(z[i].product(vt[i])));
    let randomized = Seq::new(
        n,
        |i: int|
            evaluate(
                randomized_coefficients(
                    chunks[i],
                    column_of(randomizers, i * (size * width), width, column, size),
                    leading[i],
                    rows,
                ),
                x,
            ),
    );
    assert(randomized =~= mixed) by {
        assert forall|i: int| 0 <= i < n implies #[trigger] randomized[i] == mixed[i] by {
            assert(chunks[i].len() == size);
            assert(t[i].len() == size);
            law_randomized_coefficients_evaluate(chunks[i], t[i], leading[i], rows, x);
        }
    }
    lemma_selected_sum(normalizers, z, vq, vt, n);
    let s = selectors(normalizers, z);
    lemma_dot_valid(s, vq, n);
    lemma_product_valid(z);
    lemma_product_zero(product_of(z));
    F::ring_laws(dot(s, vq, n), F::zero_value(), x);
}

/// The entry of a chunk's row and column lies among the values of all chunks.
proof fn lemma_entry_index(chunk: int, row: int, column: int, size: int, width: int, count: int)
    requires
        0 <= chunk < count,
        0 <= row < size,
        0 <= column < width,
    ensures
        0 <= row * width + column < size * width,
        0 <= chunk * (size * width) + row * width + column < count * (size * width),
{
    assert(0 <= row * width && row * width + width <= size * width) by (nonlinear_arith)
        requires
            0 <= row < size,
            0 <= column < width,
    ;
    let per = size * width;
    assert(0 <= chunk * per && chunk * per + per <= count * per) by (nonlinear_arith)
        requires
            0 <= chunk < count,
            0 <= per,
    ;
}

} // verus!
