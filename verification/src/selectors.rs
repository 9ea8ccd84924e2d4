//! The selectors by which quotient chunks on disjoint cosets recompose to one polynomial.
use crate::domain::{Coset, TwoAdicField};
use crate::field::{all_valid, dot, lemma_power_valid, lemma_product_zero, power};
use crate::recomposition::{lemma_product_of_others, product_of, product_of_others, selectors};
use vstd::prelude::*;

verus! {

/// The values at `x` of the vanishing polynomials of several cosets.
pub open spec fn vanishing_values<F: TwoAdicField>(domains: Seq<Coset<F>>, x: F) -> Seq<F> {
    Seq::new(
        domains.len(),
        |i: int| domains[i].vanishing(x),
    )
}

/// What the other cosets' vanishing polynomials multiply to at the first point of coset `i`.
pub open spec fn others_at_first_point<F: TwoAdicField>(domains: Seq<Coset<F>>, i: int) -> F {
    product_of_others(vanishing_values(domains, domains[i].shift), i)
}

/// There are cosets, and none of them begins with a point of another.
pub open spec fn selectors_exist<F: TwoAdicField>(domains: Seq<Coset<F>>) -> bool {
    &&& domains.len() > 0
    &&& forall|i: int|
        0 <= i < domains.len() ==> #[trigger] others_at_first_point(domains, i) != F::zero_value()
}

/// `normalizers[i]` scales the product of the other cosets' vanishing polynomials to one at the
/// first point of coset `i`.
pub open spec fn normalizes<F: TwoAdicField>(normalizers: Seq<F>, domains: Seq<Coset<F>>) -> bool {
    &&& normalizers.len() == domains.len()
    &&& all_valid(normalizers)
    &&& forall|i: int|
        0 <= i < domains.len() ==> (#[trigger] normalizers[i]) != F::zero_value()
            && normalizers[i].product(others_at_first_point(domains, i)) == F::one_value()
}

/// The value at `x` of the polynomial that chunks with the given values at `x` recompose to.
pub open spec fn recomposed<F: TwoAdicField>(
    values: Seq<F>,
    domains: Seq<Coset<F>>,
    normalizers: Seq<F>,
    x: F,
) -> F {
    dot(selectors(normalizers, vanishing_values(domains, x)), values, values.len())
}

/// All cosets are well-formed.
pub open spec fn all_well_formed<F: TwoAdicField>(domains: Seq<Coset<F>>) -> bool {
    forall|i: int| 0 <= i < domains.len() ==> (#[trigger] domains[i]).well_formed()
}

/// The vanishing polynomials of cosets have valid values.
pub proof fn lemma_vanishing_values_valid<F: TwoAdicField>(domains: Seq<Coset<F>>, x: F)
    requires
        all_well_formed(domains),
        x.valid(),
    ensures
        all_valid(vanishing_values(domains, x)),
{
    let vanishing = vanishing_values(domains, x);
    F::constants_are_valid();
    assert forall|j: int| 0 <= j < vanishing.len() implies (#[trigger] vanishing[j]).valid() by {
        assert(domains[j].well_formed());
        let p = power(x, domains[j].size as nat);
        lemma_power_valid(domains[j].shift_inverse, domains[j].size as nat);
        lemma_power_valid(x, domains[j].size as nat);
        F::ring_laws(domains[j].leading(), p, x);
        F::ring_laws(domains[j].leading().product(p), F::one_value(), x);
    }
}

/// What the other cosets' vanishing polynomials multiply to at the first point of a coset is valid.
pub proof fn lemma_others_valid<F: TwoAdicField>(domains: Seq<Coset<F>>, i: int)
    requires
        all_well_formed(domains),
        0 <= i < domains.len(),
    ensures
        others_at_first_point(domains, i).valid(),
{
    assert(domains[i].well_formed());
    lemma_vanishing_values_valid(domains, domains[i].shift);
    lemma_product_of_others(vanishing_values(domains, domains[i].shift), i);
}

/// The product of the vanishing polynomials with index in `from..to` at `x`.
fn product_of_vanishing_values<F: TwoAdicField>(
    domains: &[Coset<F>],
    x: F,
    from: usize,
    to: usize,
) -> (r: F)
    requires
        all_well_formed(domains@),
        x.valid(),
        from <= to <= domains@.len(),
    ensures
        r == product_of(vanishing_values(domains@, x).subrange(from as int, to as int)),
        r.valid(),
{
    let ghost values = vanishing_values(domains@, x);
    proof {
        F::constants_are_valid();
        assert(values.subrange(from as int, from as int).len() == 0);
    }
    let mut product: F = F::one();
    let mut i: usize = from;
    while i < to
        invariant
            from <= i <= to <= domains@.len(),
            all_well_formed(domains@),
            x.valid(),
            values == vanishing_values(domains@, x),
            product == product_of(values.subrange(from as int, i as int)),
            product.valid(),
        decreases to - i,
    {
        assert(domains@[i as int].well_formed());
        let value: F = domains[i].vanishing_polynomial_at(x);
        proof {
            let longer = values.subrange(from as int, i + 1);
            assert(longer.drop_last() =~= values.subrange(from as int, i as int));
            F::ring_laws(product, value, value);
        }
        product = product.times(value);
        i = i + 1;
    }
    product
}

/// The normalizers of the quotient chunk selectors: `c_i` is the inverse of what the other chunks'
/// vanishing polynomials multiply to at the first point of chunk `i`. Nothing where there are no
/// domains, or where two of them are not disjoint, so that some product is zero.
pub fn quotient_chunk_selector_normalizers<F: TwoAdicField>(domains: &[Coset<F>]) -> (r: Option<
    Vec<F>,
>)
    requires
        all_well_formed(domains@),
    ensures
        r is Some <==> selectors_exist(domains@),
        r matches Some(normalizers) ==> normalizes(normalizers@, domains@),
{
    let count: usize = domains.len();
    if count == 0 {
        return None;
    }
    let mut normalizers: Vec<F> = Vec::new();
    let mut i: usize = 0;
    while i < count
        invariant
            0 < count,
            i <= count,
            count == domains@.len(),
            all_well_formed(domains@),
            normalizers@.len() == i,
            all_valid(normalizers@),
            forall|j: int|
                0 <= j < i ==> #[trigger] others_at_first_point(domains@, j) != F::zero_value(),
            forall|j: int|
                0 <= j < i ==> (#[trigger] normalizers@[j]) != F::zero_value()
                    && normalizers@[j].product(others_at_first_point(domains@, j))
                    == F::one_value(),
        decreases count - i,
    {
        assert(domains@[i as int].well_formed());
        let x: F = domains[i].shift;
        let before: F = product_of_vanishing_values(domains, x, 0, i);
        let after: F = product_of_vanishing_values(domains, x, i + 1, count);
        proof {
            F::ring_laws(before, after, before);
            let values = vanishing_values(domains@, x);
            assert(values.subrange(0, i as int) =~= values.take(i as int));
            assert(values.subrange(i + 1, count as int) =~= values.skip(i + 1));
        }
        let others: F = before.times(after);
        assert(others == others_at_first_point(domains@, i as int));
        match others.try_inverse() {
            Some(inverse) => {
                proof {
                    F::ring_laws(others, inverse, others);
                    lemma_product_zero(others);
                    lemma_product_zero(x);
                    F::ring_laws(x, x, x);
                }
                normalizers.push(inverse);
            },
            None => {
                return None;
            },
        }
        i = i + 1;
    }
    Some(normalizers)
}

} // verus!
