//! What the randomized quotient recomposes to.
use crate::domain::{
    law_coset_points_share_a_power, lemma_pow2_is_pow2, polynomial, Coset, TwoAdicField,
};
use crate::field::{all_valid, evaluate, lemma_power_valid, power, Field};
use crate::hiding_pcs::{
    are_balanced_randomizers, are_randomized_ldes, chunk_columns, chunk_domains, chunks_are_valid,
    chunks_fill_their_domains, chunks_have_one_shape, is_randomized_quotient,
    quotient_random_values,
};
use crate::interpolation::{
    agree_on, law_values_on_a_coset_determine_all_values,
    law_values_on_a_coset_determine_the_polynomial, lemma_opposite_point,
};
use crate::matrix::{lemma_every_index_is_reversed, reversed_bits, RowMajorMatrix};
use crate::quotient::column_of;
use crate::quotient_lde::{
    chunk_entry, extends_randomized, interpolates_chunk, is_extended, is_randomized_lde,
    law_randomization_keeps_the_chunk_on_its_domain,
    law_randomized_polynomials_preserve_recomposition, lde_point, lemma_column_valid,
    lemma_randomized_polynomial_is_extended, randomized_polynomial, randomized_value,
};
use crate::recomposition::law_randomized_coefficients_evaluate;
use crate::selectors::{
    all_well_formed, lemma_others_valid, normalizes, others_at_first_point, recomposed,
};
use crate::split_quotient::{law_chunks_recompose_to_the_quotient, split, values_of};
use vstd::arithmetic::mul::*;
use vstd::arithmetic::power2::*;
use vstd::prelude::*;

verus! {

/// At every point of the field, and in every column, the given polynomials of the chunks, selected
/// and summed, give what those with the given coefficients give.
pub open spec fn recompose_alike<F: TwoAdicField>(
    polynomials: Seq<Seq<Seq<F>>>,
    coefficients: Seq<RowMajorMatrix<F>>,
    width: nat,
    domains: Seq<Coset<F>>,
    normalizers: Seq<F>,
) -> bool {
    forall|column: int, z: F|
        0 <= column < width && z.valid() ==> recomposed(
            #[trigger] column_values(polynomials, column, z),
            domains,
            normalizers,
            z,
        ) == recomposed(values_at(coefficients, column, z), domains, normalizers, z)
}

/// The values at `x` of the polynomials that the chunks have in one column.
pub open spec fn column_values<F: Field>(
    polynomials: Seq<Seq<Seq<F>>>,
    column: int,
    x: F,
) -> Seq<F> {
    Seq::new(polynomials.len(), |i: int| evaluate(polynomials[i][column], x))
}

/// Column by column, the extension holds the values of polynomials with `2 size` coefficients.
pub open spec fn extends_polynomials<F: TwoAdicField>(
    lde: RowMajorMatrix<F>,
    log_height: nat,
    polynomials: Seq<Seq<F>>,
    size: nat,
    width: nat,
) -> bool {
    &&& lde.width == width
    &&& lde.height == pow2(log_height)
    &&& polynomials.len() == width
    &&& forall|column: int|
        0 <= column < width ==> is_extended(
            #[trigger] polynomials[column],
            lde,
            log_height,
            size,
            column,
        )
}

/// The values at `x` of the polynomials in one column of several coefficient matrices.
pub open spec fn values_at<F: Field>(
    coefficients: Seq<RowMajorMatrix<F>>,
    column: int,
    x: F,
) -> Seq<F> {
    Seq::new(coefficients.len(), |i: int| evaluate(polynomial(coefficients[i], column), x))
}

/// Every extension is that of its chunk's polynomials.
pub open spec fn extend_polynomials<F: TwoAdicField>(
    ldes: Seq<RowMajorMatrix<F>>,
    log_height: nat,
    polynomials: Seq<Seq<Seq<F>>>,
    size: nat,
    width: nat,
) -> bool {
    &&& polynomials.len() == ldes.len()
    &&& forall|i: int|
        0 <= i < ldes.len() ==> extends_polynomials(
            #[trigger] ldes[i],
            log_height,
            polynomials[i],
            size,
            width,
        )
}

/// The coefficients are those of polynomials that take the chunks' values, random columns
/// included, on the chunks' domains.
pub open spec fn interpolate_chunks<F: TwoAdicField>(
    coefficients: Seq<RowMajorMatrix<F>>,
    chunks: Seq<(Coset<F>, RowMajorMatrix<F>)>,
    codewords: nat,
    drawn: Seq<F>,
) -> bool {
    &&& coefficients.len() == chunks.len()
    &&& forall|i: int|
        0 <= i < chunks.len() ==> interpolates_chunk(
            #[trigger] coefficients[i],
            chunks[i].0,
            chunks[i].1,
            chunk_columns(drawn, chunks[0].1.height as nat, codewords, i),
            codewords,
        )
}

/// The randomized quotient recomposes, at every point of the field, to what the chunks with their
/// random columns recompose to.
///
/// The extensions hold the values of polynomials with twice as many coefficients as a chunk has
/// rows. Selected and summed at any point, these give what the polynomials give that take the
/// chunks' values on the chunks' domains.
pub proof fn law_randomized_quotient_recomposes<F: TwoAdicField>(
    ldes: Seq<RowMajorMatrix<F>>,
    chunks: Seq<(Coset<F>, RowMajorMatrix<F>)>,
    codewords: nat,
    log_blowup: nat,
    drawn: Seq<F>,
)
    requires
        chunks.len() > 0,
        chunks_are_valid(chunks),
        chunks_have_one_shape(chunks),
        chunks_fill_their_domains(chunks),
        chunks[0].1.height as nat * pow2(log_blowup + 1) <= F::max_order(),
        is_randomized_quotient(ldes, chunks, codewords, log_blowup, drawn),
    ensures
        exists|
            normalizers: Seq<F>,
            coefficients: Seq<RowMajorMatrix<F>>,
            polynomials: Seq<Seq<Seq<F>>>,
            log_height: nat,
        |
            {
                &&& normalizes(normalizers, chunk_domains(chunks))
                &&& #[trigger] interpolate_chunks(coefficients, chunks, codewords, drawn)
                &&& pow2(log_height) == chunks[0].1.height as nat * pow2(log_blowup + 1)
                &&& #[trigger] extend_polynomials(
                    ldes,
                    log_height,
                    polynomials,
                    chunks[0].1.height as nat,
                    chunks[0].1.width as nat + codewords,
                )
                &&& #[trigger] recompose_alike(
                    polynomials,
                    coefficients,
                    chunks[0].1.width as nat + codewords,
                    chunk_domains(chunks),
                    normalizers,
                )
            },
{
    let size = chunks[0].1.height as nat;
    let width = chunks[0].1.width as nat + codewords;
    let n = chunks.len();
    let per = size * width;
    let domains = chunk_domains(chunks);
    let (normalizers, randomizers, log_height) = choose|
        normalizers: Seq<F>,
        randomizers: Seq<F>,
        log_height: nat,
    |
        {
            &&& #[trigger] are_balanced_randomizers(
                randomizers,
                normalizers,
                chunks,
                codewords,
                drawn,
            )
            &&& pow2(log_height) == chunks[0].1.height as nat * pow2(log_blowup + 1)
            &&& #[trigger] are_randomized_ldes(
                ldes,
                log_height,
                chunks,
                codewords,
                drawn,
                randomizers,
            )
        };
    let coefficients = Seq::new(
        n,
        |i: int|
            choose|c: RowMajorMatrix<F>|
                {
                    &&& interpolates_chunk(
                        c,
                        chunks[i].0,
                        chunks[i].1,
                        chunk_columns(drawn, size, codewords, i),
                        codewords,
                    )
                    &&& #[trigger] extends_randomized(
                        ldes[i],
                        log_height,
                        chunks[i].0,
                        c,
                        randomizers,
                        i * per,
                    )
                },
    );
    assert forall|i: int| 0 <= i < n implies interpolates_chunk(
        #[trigger] coefficients[i],
        chunks[i].0,
        chunks[i].1,
        chunk_columns(drawn, size, codewords, i),
        codewords,
    ) && extends_randomized(
        ldes[i],
        log_height,
        chunks[i].0,
        coefficients[i],
        randomizers,
        i * per,
    ) by {
        assert(is_randomized_lde(
            ldes[i],
            log_height,
            chunks[i].0,
            chunks[i].1,
            chunk_columns(drawn, size, codewords, i),
            codewords,
            randomizers,
            i * per,
        ));
    }
    lemma_pow2_is_pow2(log_height);
    assert forall|i: int| 0 <= i < n implies (#[trigger] domains[i]).well_formed() && domains[i].size
        == size by {
        assert(chunks[i].0.size == chunks[i].1.height);
        assert(chunks[i].1.height == chunks[0].1.height);
    }
    assert forall|i: int| 0 <= i < n implies (#[trigger] coefficients[i]).well_formed()
        && coefficients[i].height == size && coefficients[i].width == width && all_valid(
        coefficients[i].values@,
    ) by {
        assert(chunks[i].1.height == chunks[0].1.height);
    }
    assert forall|i: int| 0 <= i < n implies extends_randomized(
        #[trigger] ldes[i],
        log_height,
        domains[i],
        coefficients[i],
        randomizers,
        i * (size * width),
    ) by {
        assert(coefficients[i].well_formed());
    }
    let polynomials = Seq::new(
        n,
        |i: int|
            Seq::new(
                width,
                |column: int|
                    randomized_polynomial(
                        domains[i],
                        coefficients[i],
                        randomizers,
                        i * (size * width),
                        column,
                    ),
            ),
    );
    assert forall|i: int| 0 <= i < n implies extends_polynomials(
        #[trigger] ldes[i],
        log_height,
        polynomials[i],
        size,
        width,
    ) by {
        assert(coefficients[i].height == size && coefficients[i].width == width);
        assert(domains[i].size == size);
        assert(0 <= i * per && i * per + per <= n * per) by (nonlinear_arith)
            requires
                0 <= i < n,
                0 <= per,
        ;
        assert forall|column: int| 0 <= column < width implies is_extended(
            #[trigger] polynomials[i][column],
            ldes[i],
            log_height,
            size,
            column,
        ) by {
            lemma_randomized_polynomial_is_extended(
                ldes[i],
                log_height,
                domains[i],
                coefficients[i],
                randomizers,
                i * per,
                column,
            );
        }
    }
    assert forall|column: int, z: F| 0 <= column < width && z.valid() implies recomposed(
        #[trigger] column_values(polynomials, column, z),
        domains,
        normalizers,
        z,
    ) == recomposed(values_at(coefficients, column, z), domains, normalizers, z) by {
        law_randomized_polynomials_preserve_recomposition(
            normalizers,
            domains,
            coefficients,
            randomizers,
            size,
            width,
            column,
            z,
        );
        assert(column_values(polynomials, column, z) =~= Seq::new(
            n,
            |i: int|
                evaluate(
                    randomized_polynomial(
                        domains[i],
                        coefficients[i],
                        randomizers,
                        i * (size * width),
                        column,
                    ),
                    z,
                ),
        ));
        assert(values_at(coefficients, column, z) =~= Seq::new(
            n,
            |i: int| evaluate(polynomial(coefficients[i], column), z),
        ));
    }
    assert(interpolate_chunks(coefficients, chunks, codewords, drawn));
    assert(extend_polynomials(ldes, log_height, polynomials, size, width));
    assert(recompose_alike(polynomials, coefficients, width, domains, normalizers));
}

/// Each chunk holds, in the given column, the quotient's values on its own domain.
pub open spec fn chunks_hold<F: TwoAdicField>(
    chunks: Seq<(Coset<F>, RowMajorMatrix<F>)>,
    column: int,
    quotient: Seq<F>,
) -> bool {
    forall|i: int, row: int|
        0 <= i < chunks.len() && 0 <= row < chunks[i].1.height ==> #[trigger] chunks[i].1.at(
            row,
            column,
        ) == evaluate(quotient, chunks[i].0.point(row as nat))
}

/// The polynomials have no more coefficients than the extensions have rows, and their values are
/// what one column of the extensions holds.
pub open spec fn interpolate_column<F: TwoAdicField>(
    polynomials: Seq<Seq<Seq<F>>>,
    ldes: Seq<RowMajorMatrix<F>>,
    log_height: nat,
    column: int,
) -> bool {
    &&& polynomials.len() == ldes.len()
    &&& forall|i: int|
        0 <= i < ldes.len() ==> (#[trigger] polynomials[i][column]).len() <= ldes[i].height
            && all_valid(polynomials[i][column])
    &&& forall|i: int, row: int|
        0 <= i < ldes.len() && 0 <= row < ldes[i].height ==> #[trigger] ldes[i].at(row, column)
            == evaluate(polynomials[i][column], lde_point(log_height, row))
}

/// The randomized quotient recomposes to the quotient itself.
///
/// The domains of the chunks split a coset that has a point for each coefficient of the quotient
/// polynomial, and the chunks hold the quotient's values on their domains. Then polynomials that
/// take the values of the extensions, whichever they are, give, selected and summed at any point of
/// the field, the quotient's value at that point.
pub proof fn law_randomized_quotient_recomposes_to_the_quotient<F: TwoAdicField>(
    ldes: Seq<RowMajorMatrix<F>>,
    chunks: Seq<(Coset<F>, RowMajorMatrix<F>)>,
    codewords: nat,
    log_blowup: nat,
    drawn: Seq<F>,
    coset: Coset<F>,
    quotient: Seq<F>,
    normalizers: Seq<F>,
    log_height: nat,
    polynomials: Seq<Seq<Seq<F>>>,
    column: int,
    z: F,
)
    requires
        chunks_are_valid(chunks),
        chunks_have_one_shape(chunks),
        chunks_fill_their_domains(chunks),
        chunks[0].1.height as nat * pow2(log_blowup + 1) <= F::max_order(),
        is_randomized_quotient(ldes, chunks, codewords, log_blowup, drawn),
        split(chunk_domains(chunks), coset),
        all_valid(quotient),
        quotient.len() <= coset.size,
        0 <= column < chunks[0].1.width,
        chunks_hold(chunks, column, quotient),
        normalizes(normalizers, chunk_domains(chunks)),
        pow2(log_height) == chunks[0].1.height as nat * pow2(log_blowup + 1),
        interpolate_column(polynomials, ldes, log_height, column),
        z.valid(),
    ensures
        recomposed(
            column_values(polynomials, column, z),
            chunk_domains(chunks),
            normalizers,
            z,
        ) == evaluate(quotient, z),
{
    let size = chunks[0].1.height as nat;
    let width = chunks[0].1.width as nat + codewords;
    let domains = chunk_domains(chunks);
    law_randomized_quotient_recomposes(ldes, chunks, codewords, log_blowup, drawn);
    let (scales, coefficients, made, log) = choose|
        scales: Seq<F>,
        coefficients: Seq<RowMajorMatrix<F>>,
        made: Seq<Seq<Seq<F>>>,
        log: nat,
    |
        {
            &&& normalizes(scales, domains)
            &&& #[trigger] interpolate_chunks(coefficients, chunks, codewords, drawn)
            &&& pow2(log) == chunks[0].1.height as nat * pow2(log_blowup + 1)
            &&& #[trigger] extend_polynomials(ldes, log, made, size, width)
            &&& #[trigger] recompose_alike(made, coefficients, width, domains, scales)
        };
    lemma_normalizers_are_unique(scales, normalizers, domains);
    lemma_pow2_is_injective(log, log_height);
    assert(column_values(polynomials, column, z) =~= column_values(made, column, z)) by {
        assert forall|i: int| 0 <= i < ldes.len() implies evaluate(polynomials[i][column], z)
            == #[trigger] evaluate(made[i][column], z) by {
            assert(extends_polynomials(ldes[i], log, made[i], size, width));
            assert(is_extended(made[i][column], ldes[i], log, size, column));
            lemma_pow2_unfold(log_blowup + 1);
            lemma_pow2_pos(log_blowup);
            lemma_mul_inequality(2, pow2(log_blowup + 1) as int, size as int);
            lemma_mul_is_commutative(pow2(log_blowup + 1) as int, size as int);
            lemma_column_determines_values(
                polynomials[i][column],
                made[i][column],
                ldes[i],
                log,
                column,
                z,
            );
        }
    }
    let bare = Seq::new(chunks.len(), |i: int| polynomial(coefficients[i], column));
    assert forall|i: int| 0 <= i < bare.len() implies {
        &&& (#[trigger] bare[i]).len() == domains[i].size
        &&& all_valid(bare[i])
        &&& agree_on(bare[i], quotient, domains[i])
    } by {
        assert(interpolates_chunk(
            coefficients[i],
            chunks[i].0,
            chunks[i].1,
            chunk_columns(drawn, size, codewords, i),
            codewords,
        ));
        assert(chunks[i].1.height == size && chunks[i].1.width == chunks[0].1.width);
        assert(chunks[i].0.size == chunks[i].1.height);
        lemma_column_valid(coefficients[i].values@, 0, width, column, size);
        assert forall|index: nat| index < domains[i].size implies evaluate(
            bare[i],
            #[trigger] domains[i].point(index),
        ) == evaluate(quotient, domains[i].point(index)) by {
            assert(chunk_entry(
                chunks[i].1,
                chunk_columns(drawn, size, codewords, i),
                codewords,
                index as int,
                column,
            ) == evaluate(polynomial(coefficients[i], column), chunks[i].0.point(index)));
            assert(chunks[i].1.at(index as int, column) == evaluate(
                quotient,
                chunks[i].0.point(index),
            ));
        }
    }
    law_chunks_recompose_to_the_quotient(normalizers, domains, coset, quotient, bare, z);
    assert(values_at(coefficients, column, z) =~= values_of(bare, z));
}

/// Polynomials with no more coefficients than an extension has rows take the same values everywhere
/// where they both take those of one of its columns.
proof fn lemma_column_determines_values<F: TwoAdicField>(
    p: Seq<F>,
    q: Seq<F>,
    lde: RowMajorMatrix<F>,
    log_height: nat,
    column: int,
    z: F,
)
    requires
        lde.height == pow2(log_height),
        pow2(log_height) <= F::max_order(),
        all_valid(p),
        all_valid(q),
        p.len() <= lde.height,
        q.len() <= lde.height,
        forall|row: int|
            0 <= row < lde.height ==> #[trigger] lde.at(row, column) == evaluate(
                p,
                lde_point(log_height, row),
            ),
        forall|row: int|
            0 <= row < lde.height ==> #[trigger] lde.at(row, column) == evaluate(
                q,
                lde_point(log_height, row),
            ),
        z.valid(),
    ensures
        evaluate(p, z) == evaluate(q, z),
{
    let generator = F::generator_value();
    lemma_pow2_is_pow2(log_height);
    F::root_laws(lde.height);
    let inverse = choose|inverse: F| #[trigger]
        inverse.valid() && generator.product(inverse) == F::one_value();
    let coset = Coset { shift: generator, shift_inverse: inverse, size: lde.height };
    assert forall|index: nat| index < coset.size implies evaluate(p, #[trigger] coset.point(index))
        == evaluate(q, coset.point(index)) by {
        let row = lemma_every_index_is_reversed(index, log_height);
        assert(lde.at(row as int, column) == evaluate(p, lde_point(log_height, row as int)));
        assert(coset.point(index) == lde_point::<F>(log_height, row as int));
    }
    law_values_on_a_coset_determine_all_values(p, q, coset, z);
}

/// The domains fix their selectors' normalizers.
proof fn lemma_normalizers_are_unique<F: TwoAdicField>(
    a: Seq<F>,
    b: Seq<F>,
    domains: Seq<Coset<F>>,
)
    requires
        normalizes(a, domains),
        normalizes(b, domains),
        all_well_formed(domains),
    ensures
        a == b,
{
    assert forall|i: int| 0 <= i < domains.len() implies a[i] == b[i] by {
        let others = others_at_first_point(domains, i);
        let one = F::one_value();
        assert(domains[i].well_formed());
        lemma_others_valid(domains, i);
        assert(a[i].valid() && b[i].valid());
        // a = a (b others) = b (a others) = b
        F::ring_laws(a[i], b[i], others);
        F::ring_laws(b[i], a[i], others);
        F::ring_laws(a[i], one, one);
        F::ring_laws(b[i], one, one);
    }
    assert(a =~= b);
}

/// Powers of two are equal only for equal exponents.
proof fn lemma_pow2_is_injective(a: nat, b: nat)
    requires
        pow2(a) == pow2(b),
    ensures
        a == b,
{
    if a < b {
        lemma_pow2_strictly_increases(a, b);
    } else if b < a {
        lemma_pow2_strictly_increases(b, a);
    }
}

/// The polynomial of an extension's column is `q + Z t` for a chunk's interpolant `q` and randomizer
/// `t`: the coefficients of `q` and the randomizers of all chunks.
proof fn lemma_extension_polynomial<F: TwoAdicField>(
    ldes: Seq<RowMajorMatrix<F>>,
    chunks: Seq<(Coset<F>, RowMajorMatrix<F>)>,
    codewords: nat,
    log_blowup: nat,
    drawn: Seq<F>,
    log_height: nat,
    polynomials: Seq<Seq<Seq<F>>>,
    i: int,
    column: int,
    z: F,
) -> (r: (RowMajorMatrix<F>, Seq<F>))
    requires
        chunks_are_valid(chunks),
        chunks_have_one_shape(chunks),
        chunks_fill_their_domains(chunks),
        chunks[0].1.height as nat * pow2(log_blowup + 1) <= F::max_order(),
        is_randomized_quotient(ldes, chunks, codewords, log_blowup, drawn),
        pow2(log_height) == chunks[0].1.height as nat * pow2(log_blowup + 1),
        interpolate_column(polynomials, ldes, log_height, column),
        0 <= i < chunks.len(),
        0 <= column < chunks[0].1.width + codewords,
        z.valid(),
    ensures
        interpolates_chunk(
            r.0,
            chunks[i].0,
            chunks[i].1,
            chunk_columns(drawn, chunks[0].1.height as nat, codewords, i),
            codewords,
        ),
        all_valid(polynomial(r.0, column)),
        all_valid(
            column_of(
                r.1,
                i * (chunks[0].1.height as nat * (chunks[0].1.width as nat + codewords)),
                chunks[0].1.width as nat + codewords,
                column,
                chunks[0].1.height as nat,
            ),
        ),
        exists|normalizers: Seq<F>|
            are_balanced_randomizers(r.1, normalizers, chunks, codewords, drawn),
        evaluate(polynomials[i][column], z) == randomized_value(
            chunks[i].0,
            polynomial(r.0, column),
            column_of(
                r.1,
                i * (chunks[0].1.height as nat * (chunks[0].1.width as nat + codewords)),
                chunks[0].1.width as nat + codewords,
                column,
                chunks[0].1.height as nat,
            ),
            z,
        ),
{
    let size = chunks[0].1.height as nat;
    let width = chunks[0].1.width as nat + codewords;
    let n = chunks.len();
    let per = size * width;
    let (normalizers, randomizers, log) = choose|
        normalizers: Seq<F>,
        randomizers: Seq<F>,
        log: nat,
    |
        {
            &&& #[trigger] are_balanced_randomizers(
                randomizers,
                normalizers,
                chunks,
                codewords,
                drawn,
            )
            &&& pow2(log) == chunks[0].1.height as nat * pow2(log_blowup + 1)
            &&& #[trigger] are_randomized_ldes(ldes, log, chunks, codewords, drawn, randomizers)
        };
    lemma_pow2_is_injective(log, log_height);
    let lde = ldes[i];
    assert(is_randomized_lde(
        lde,
        log,
        chunks[i].0,
        chunks[i].1,
        chunk_columns(drawn, size, codewords, i),
        codewords,
        randomizers,
        i * per,
    ));
    let coefficients = choose|c: RowMajorMatrix<F>|
        {
            &&& interpolates_chunk(
                c,
                chunks[i].0,
                chunks[i].1,
                chunk_columns(drawn, size, codewords, i),
                codewords,
            )
            &&& #[trigger] extends_randomized(lde, log, chunks[i].0, c, randomizers, i * per)
        };
    assert(chunks[i].1.height == size && chunks[i].1.width == chunks[0].1.width);
    assert(chunks[i].0.size == size && chunks[i].0.well_formed());
    assert(0 <= i * per && i * per + per <= n * per) by (nonlinear_arith)
        requires
            0 <= i < n,
            0 <= per,
    ;
    lemma_pow2_is_pow2(log);
    lemma_randomized_polynomial_is_extended(
        lde,
        log,
        chunks[i].0,
        coefficients,
        randomizers,
        i * per,
        column,
    );
    lemma_pow2_unfold(log_blowup + 1);
    lemma_pow2_pos(log_blowup);
    lemma_mul_inequality(2, pow2(log_blowup + 1) as int, size as int);
    lemma_mul_is_commutative(pow2(log_blowup + 1) as int, size as int);
    let made = randomized_polynomial(chunks[i].0, coefficients, randomizers, i * per, column);
    lemma_column_determines_values(polynomials[i][column], made, lde, log, column, z);
    lemma_column_valid(coefficients.values@, 0, width, column, size);
    lemma_column_valid(randomizers, i * per, width, column, size);
    lemma_power_valid(chunks[i].0.shift_inverse, size);
    law_randomized_coefficients_evaluate(
        polynomial(coefficients, column),
        column_of(randomizers, i * per, width, column, size),
        chunks[i].0.leading(),
        2 * size,
        z,
    );
    (coefficients, randomizers)
}

/// On a chunk's own domain the extension's polynomials take the chunk's values, and behind them, in
/// the random columns, the random values that were drawn for that chunk, row by row: every one of the
/// first `n h c` random values stands at one place of one chunk.
pub proof fn law_extensions_hold_chunk_and_random_columns<F: TwoAdicField>(
    ldes: Seq<RowMajorMatrix<F>>,
    chunks: Seq<(Coset<F>, RowMajorMatrix<F>)>,
    codewords: nat,
    log_blowup: nat,
    drawn: Seq<F>,
    log_height: nat,
    polynomials: Seq<Seq<Seq<F>>>,
    i: int,
    row: int,
    column: int,
)
    requires
        chunks_are_valid(chunks),
        chunks_have_one_shape(chunks),
        chunks_fill_their_domains(chunks),
        chunks[0].1.height as nat * pow2(log_blowup + 1) <= F::max_order(),
        is_randomized_quotient(ldes, chunks, codewords, log_blowup, drawn),
        drawn.len() >= chunks.len() * (chunks[0].1.height * codewords),
        pow2(log_height) == chunks[0].1.height as nat * pow2(log_blowup + 1),
        interpolate_column(polynomials, ldes, log_height, column),
        0 <= i < chunks.len(),
        0 <= row < chunks[0].1.height,
        0 <= column < chunks[0].1.width + codewords,
    ensures
        ({
            let (h, w) = (chunks[0].1.height as int, chunks[0].1.width as int);
            evaluate(polynomials[i][column], chunks[i].0.point(row as nat)) == if column < w {
                chunks[i].1.values@[row * w + column]
            } else {
                drawn[(i * h + row) * codewords + (column - w)]
            }
        }),
{
    let (h, w) = (chunks[0].1.height as int, chunks[0].1.width as int);
    let c = codewords as int;
    assert(chunks[i].0.well_formed() && chunks[i].0.size == chunks[i].1.height);
    assert(chunks[i].1.height == h && chunks[i].1.width == w);
    let x = chunks[i].0.point(row as nat);
    law_coset_points_share_a_power(chunks[i].0.shift, chunks[i].0.size as nat, row as nat);
    let (coefficients, randomizers) = lemma_extension_polynomial(
        ldes,
        chunks,
        codewords,
        log_blowup,
        drawn,
        log_height,
        polynomials,
        i,
        column,
        x,
    );
    let t = column_of(
        randomizers,
        i * (h as nat * (w as nat + codewords)),
        w as nat + codewords,
        column,
        h as nat,
    );
    law_randomization_keeps_the_chunk_on_its_domain(
        chunks[i].0,
        polynomial(coefficients, column),
        t,
        row as nat,
    );
    let extra = chunk_columns(drawn, h as nat, codewords, i);
    assert(chunk_entry(chunks[i].1, extra, codewords, row, column) == evaluate(
        polynomial(coefficients, column),
        x,
    ));
    if column >= w {
        let per = h * c;
        let at = row * c + (column - w);
        assert(0 <= i * per && (i + 1) * per <= chunks.len() * per && (i + 1) * per == i * per + per)
            by (nonlinear_arith)
            requires
                0 <= i < chunks.len(),
                0 <= per,
                per == h * c,
        ;
        assert(0 <= at < per) by (nonlinear_arith)
            requires
                0 <= row < h,
                0 <= column - w < c,
                at == row * c + (column - w),
                per == h * c,
        ;
        assert((i * h + row) * c + (column - w) == i * per + at) by (nonlinear_arith)
            requires
                per == h * c,
                at == row * c + (column - w),
        ;
        assert(extra[at] == drawn[i * per + at]);
    }
}

/// All chunks but the last are randomized with the drawn values as they come: the extension's
/// polynomial is `q + Z t`, where `q` is the polynomial that takes the values of the chunk's column on
/// its domain, `Z = (x / g)^h - 1`, and `t` has for coefficients the column's entries of the next
/// `h (w + c)` random values behind those of all random columns.
pub proof fn law_drawn_values_randomize_all_chunks_but_the_last<F: TwoAdicField>(
    ldes: Seq<RowMajorMatrix<F>>,
    chunks: Seq<(Coset<F>, RowMajorMatrix<F>)>,
    codewords: nat,
    log_blowup: nat,
    drawn: Seq<F>,
    log_height: nat,
    polynomials: Seq<Seq<Seq<F>>>,
    q: Seq<F>,
    t: Seq<F>,
    i: int,
    column: int,
    z: F,
)
    requires
        chunks_are_valid(chunks),
        chunks_have_one_shape(chunks),
        chunks_fill_their_domains(chunks),
        chunks[0].1.height as nat * pow2(log_blowup + 1) <= F::max_order(),
        is_randomized_quotient(ldes, chunks, codewords, log_blowup, drawn),
        drawn.len() == quotient_random_values(
            chunks.len(),
            chunks[0].1.height as nat,
            chunks[0].1.width as nat,
            codewords,
        ),
        pow2(log_height) == chunks[0].1.height as nat * pow2(log_blowup + 1),
        interpolate_column(polynomials, ldes, log_height, column),
        0 <= i < chunks.len() - 1,
        0 <= column < chunks[0].1.width,
        all_valid(q),
        q.len() == chunks[0].1.height,
        forall|row: int|
            0 <= row < chunks[0].1.height ==> evaluate(q, #[trigger] chunks[i].0.point(row as nat))
                == chunks[i].1.values@[row * chunks[0].1.width + column],
        t.len() == chunks[0].1.height,
        forall|k: int|
            0 <= k < t.len() ==> #[trigger] t[k] == drawn[chunks.len() * (chunks[0].1.height
                * codewords) + (i * chunks[0].1.height + k) * (chunks[0].1.width + codewords)
                + column],
        z.valid(),
    ensures
        evaluate(polynomials[i][column], z) == evaluate(q, z).sum(
            power(chunks[i].0.shift_inverse, chunks[0].1.height as nat).product(
                power(z, chunks[0].1.height as nat),
            ).difference(F::one_value()).product(evaluate(t, z)),
        ),
{
    let (h, w) = (chunks[0].1.height as int, chunks[0].1.width as int);
    let c = codewords as int;
    let n = chunks.len() as int;
    let per = h * (w + c);
    let domain = chunks[i].0;
    assert(domain.well_formed() && domain.size == chunks[i].1.height);
    assert(chunks[i].1.height == h && chunks[i].1.width == w);
    let (coefficients, randomizers) = lemma_extension_polynomial(
        ldes,
        chunks,
        codewords,
        log_blowup,
        drawn,
        log_height,
        polynomials,
        i,
        column,
        z,
    );
    let normalizers = choose|normalizers: Seq<F>|
        are_balanced_randomizers(randomizers, normalizers, chunks, codewords, drawn);
    let p = polynomial(coefficients, column);
    let extra = chunk_columns(drawn, h as nat, codewords, i);
    assert forall|index: nat| index < domain.size implies evaluate(p, #[trigger] domain.point(index))
        == evaluate(q, domain.point(index)) by {
        assert(chunk_entry(chunks[i].1, extra, codewords, index as int, column) == evaluate(
            p,
            domain.point(index),
        ));
        assert(chunks[i].1.at(index as int, column) == chunks[i].1.values@[index as int * w
            + column]);
        assert(domain.point(index) == chunks[i].0.point(index as int as nat));
    }
    law_values_on_a_coset_determine_the_polynomial(p, q, domain);
    let made = column_of(
        randomizers,
        i * (h as nat * (w as nat + codewords)),
        w as nat + codewords,
        column,
        h as nat,
    );
    let start = n * (h * c);
    assert(made =~= t) by {
        assert forall|k: int| 0 <= k < h implies #[trigger] made[k] == t[k] by {
            let at = i * per + k * (w + c) + column;
            assert(0 <= at < (n - 1) * per && (i * h + k) * (w + c) + column == at) by (nonlinear_arith)
                requires
                    0 <= i < n - 1,
                    0 <= k < h,
                    0 <= column < w,
                    0 <= c,
                    per == h * (w + c),
                    at == i * per + k * (w + c) + column,
            ;
            assert(randomizers.take((n - 1) * per)[at] == drawn.skip(start)[at]);
            assert(0 <= start && drawn.len() == start + (n - 1) * per);
            assert(drawn.skip(start)[at] == drawn[start + at]);
            assert((n - 1) * per <= n * per) by (nonlinear_arith)
                requires
                    per == h * (w + c),
                    h >= 0,
                    w + c >= 0,
            ;
            assert(made[k] == randomizers[at]);
            assert(t[k] == drawn[start + at]);
        }
    }
}

/// Each chunk has one extension, as wide as the chunk with its random columns and `2 2^b` times as
/// high.
pub proof fn law_extensions_have_the_announced_shape<F: TwoAdicField>(
    ldes: Seq<RowMajorMatrix<F>>,
    chunks: Seq<(Coset<F>, RowMajorMatrix<F>)>,
    codewords: nat,
    log_blowup: nat,
    drawn: Seq<F>,
    i: int,
)
    requires
        chunks_have_one_shape(chunks),
        is_randomized_quotient(ldes, chunks, codewords, log_blowup, drawn),
        0 <= i < chunks.len(),
    ensures
        ldes.len() == chunks.len(),
        ldes[i].width == chunks[i].1.width + codewords,
        ldes[i].height == 2 * (chunks[i].1.height * pow2(log_blowup)),
        ldes[i].values@.len() == ldes[i].height * ldes[i].width,
{
    let size = chunks[0].1.height as nat;
    let per = size * (chunks[0].1.width as nat + codewords);
    let (normalizers, randomizers, log) = choose|
        normalizers: Seq<F>,
        randomizers: Seq<F>,
        log: nat,
    |
        {
            &&& #[trigger] are_balanced_randomizers(
                randomizers,
                normalizers,
                chunks,
                codewords,
                drawn,
            )
            &&& pow2(log) == chunks[0].1.height as nat * pow2(log_blowup + 1)
            &&& #[trigger] are_randomized_ldes(ldes, log, chunks, codewords, drawn, randomizers)
        };
    assert(is_randomized_lde(
        ldes[i],
        log,
        chunks[i].0,
        chunks[i].1,
        chunk_columns(drawn, size, codewords, i),
        codewords,
        randomizers,
        i * per,
    ));
    assert(chunks[i].1.height == size);
    lemma_pow2_unfold(log_blowup + 1);
    let p = pow2(log_blowup) as int;
    assert(size * (2 * p) == 2 * (size * p)) by (nonlinear_arith);
}

/// The rows of an extension belong to the points of the generator's coset in bit-reversed order: the
/// first to the generator, and each pair of neighbouring rows to two opposite points.
pub proof fn law_neighbouring_rows_belong_to_opposite_points<F: TwoAdicField>(
    log_height: nat,
    pair: int,
)
    requires
        log_height >= 1,
        pow2(log_height) <= F::max_order(),
        0 <= pair,
    ensures
        lde_point::<F>(log_height, 0) == F::generator_value(),
        lde_point::<F>(log_height, 2 * pair).sum(lde_point::<F>(log_height, 2 * pair + 1))
            == F::zero_value(),
{
    let generator = F::generator_value();
    let size = pow2(log_height);
    lemma_pow2_is_pow2(log_height);
    lemma_pow2_unfold(log_height);
    lemma_pow2_pos((log_height - 1) as nat);
    F::root_laws(size as usize);
    F::constants_are_valid();
    lemma_reversed_zero(log_height);
    F::ring_laws(generator, F::one_value(), generator);
    let half = pow2((log_height - 1) as nat);
    let rest = reversed_bits(pair as nat, (log_height - 1) as nat);
    let (even, odd) = ((2 * pair) as nat, (2 * pair + 1) as nat);
    assert(even % 2 == 0 && even / 2 == pair && odd % 2 == 1 && odd / 2 == pair);
    assert(0 * half == 0 && 1 * half == half) by (nonlinear_arith);
    assert(reversed_bits(even, log_height) == rest);
    assert(reversed_bits(odd, log_height) == rest + half);
    lemma_opposite_point(generator, size, rest);
}

/// Zero has the reversal zero.
proof fn lemma_reversed_zero(bits: nat)
    ensures
        reversed_bits(0, bits) == 0,
    decreases bits,
{
    if bits > 0 {
        lemma_reversed_zero((bits - 1) as nat);
        assert(0 * pow2((bits - 1) as nat) == 0) by (nonlinear_arith);
    }
}

} // verus!
