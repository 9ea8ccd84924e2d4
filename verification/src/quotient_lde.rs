//! The low-degree extension of one randomized quotient chunk.
use crate::domain::{
    coset_point, is_domain_size, law_coset_points_share_a_power, law_vanishing_polynomial_vanishes,
    polynomial, Coset, CosetDft, TwoAdicField,
};
use crate::field::{all_valid, dot, evaluate, lemma_power_valid, lemma_product_zero, Field};
use crate::matrix::{
    append_columns, bit_reverse_rows, cell, lemma_cell_index, lemma_reversed_bits_bound,
    reversed_bits, RowMajorMatrix,
};
use crate::quotient::{
    across_chunks, column_of, randomize_chunk_coefficients, randomized_coefficients, vanishing_at,
};
use crate::recomposition::{
    law_randomization_preserves_recomposition, law_randomized_coefficients_evaluate,
    lemma_evaluate_valid, selectors,
};
use crate::selectors::vanishing_values;
use vstd::arithmetic::mul::*;
use vstd::arithmetic::power2::*;
use vstd::prelude::*;

verus! {

/// The value of a quotient chunk in one row: that of the chunk itself, or of one of the `codewords`
/// random columns that `extra` holds row by row.
pub open spec fn chunk_entry<F: Field>(
    evaluations: RowMajorMatrix<F>,
    extra: Seq<F>,
    codewords: nat,
    row: int,
    column: int,
) -> F {
    if column < evaluations.width {
        evaluations.at(row, column)
    } else {
        cell(extra, codewords, row, column - evaluations.width)
    }
}

/// The value at `x` of `q + Z t`, where `Z` vanishes on the chunk's domain.
pub open spec fn randomized_value<F: TwoAdicField>(domain: Coset<F>, q: Seq<F>, t: Seq<F>, x: F) -> F {
    evaluate(q, x).sum(
        domain.vanishing(x).product(evaluate(t, x)),
    )
}

/// The point of the extension's coset that its row in bit-reversed order belongs to.
pub open spec fn lde_point<F: TwoAdicField>(log_height: nat, row: int) -> F {
    coset_point(
        F::generator_value(),
        pow2(log_height),
        reversed_bits(row as nat, log_height),
    )
}

/// `coefficients` are those of the polynomials `q` that take the chunk's values, random columns
/// included, on its domain.
pub open spec fn interpolates_chunk<F: TwoAdicField>(
    coefficients: RowMajorMatrix<F>,
    domain: Coset<F>,
    evaluations: RowMajorMatrix<F>,
    extra: Seq<F>,
    codewords: nat,
) -> bool {
    &&& coefficients.well_formed()
    &&& coefficients.height == evaluations.height
    &&& coefficients.width == evaluations.width + codewords
    &&& all_valid(coefficients.values@)
    &&& forall|row: int, column: int|
        0 <= row < coefficients.height && 0 <= column < coefficients.width
            ==> #[trigger] chunk_entry(evaluations, extra, codewords, row, column) == evaluate(
            polynomial(coefficients, column),
            domain.point(row as nat),
        )
}

/// `lde` holds, in bit-reversed row order, the values of `q + Z t` on the coset of the field's
/// generator, where `q` has the given coefficients and `t` those that `randomizers` holds from
/// `start` on.
pub open spec fn extends_randomized<F: TwoAdicField>(
    lde: RowMajorMatrix<F>,
    log_height: nat,
    domain: Coset<F>,
    coefficients: RowMajorMatrix<F>,
    randomizers: Seq<F>,
    start: int,
) -> bool {
    &&& lde.well_formed()
    &&& lde.height == pow2(log_height)
    &&& lde.width == coefficients.width
    &&& all_valid(lde.values@)
    &&& forall|row: int, column: int|
        0 <= row < lde.height && 0 <= column < lde.width ==> #[trigger] lde.at(row, column)
            == randomized_value(
            domain,
            polynomial(coefficients, column),
            column_of(
                randomizers,
                start,
                coefficients.width as nat,
                column,
                coefficients.height as nat,
            ),
            lde_point(log_height, row),
        )
}

/// `lde` is the extension of the chunk with its random columns, randomized.
pub open spec fn is_randomized_lde<F: TwoAdicField>(
    lde: RowMajorMatrix<F>,
    log_height: nat,
    domain: Coset<F>,
    evaluations: RowMajorMatrix<F>,
    extra: Seq<F>,
    codewords: nat,
    randomizers: Seq<F>,
    start: int,
) -> bool {
    exists|coefficients: RowMajorMatrix<F>|
        {
            &&& interpolates_chunk(coefficients, domain, evaluations, extra, codewords)
            &&& #[trigger] extends_randomized(
                lde,
                log_height,
                domain,
                coefficients,
                randomizers,
                start,
            )
        }
}

/// The columns of a valid matrix are valid.
pub proof fn lemma_column_valid<F: Field>(
    values: Seq<F>,
    start: int,
    width: nat,
    column: int,
    height: nat,
)
    requires
        all_valid(values),
        0 <= start,
        start + height * width <= values.len(),
        0 <= column < width,
    ensures
        all_valid(column_of(values, start, width, column, height)),
{
    let taken = column_of(values, start, width, column, height);
    assert forall|row: int| 0 <= row < taken.len() implies (#[trigger] taken[row]).valid() by {
        lemma_cell_index(row, column, width as int, height as int);
    }
}

/// The randomized low-degree extension of quotient chunk `chunk`.
///
/// The chunk gets the random columns `extra`, is interpolated on its domain, gets `Z t` added,
/// where `t` has the coefficients that `randomizers` holds for the chunk, and is evaluated on the
/// coset of the field's generator.
pub fn randomized_chunk_lde<F: TwoAdicField, D: CosetDft<F>>(
    dft: &D,
    domain: Coset<F>,
    evaluations: &RowMajorMatrix<F>,
    extra: &[F],
    codewords: usize,
    randomizers: &[F],
    chunk: usize,
    log_height: usize,
    lde_height: usize,
) -> (r: RowMajorMatrix<F>)
    requires
        domain.well_formed(),
        evaluations.well_formed(),
        all_valid(evaluations.values@),
        all_valid(extra@),
        all_valid(randomizers@),
        domain.size == evaluations.height,
        extra@.len() == evaluations.height * codewords,
        (chunk + 1) * (evaluations.height * (evaluations.width + codewords)) <= randomizers@.len(),
        lde_height == pow2(log_height as nat),
        is_domain_size::<F>(lde_height as nat),
        2 * evaluations.height <= lde_height,
        evaluations.width + codewords <= usize::MAX,
        lde_height * (evaluations.width + codewords) <= usize::MAX,
    ensures
        is_randomized_lde(
            r,
            log_height as nat,
            domain,
            *evaluations,
            extra@,
            codewords as nat,
            randomizers@,
            chunk * (evaluations.height * (evaluations.width + codewords)),
        ),
{
    let h: usize = evaluations.height;
    let w: usize = evaluations.width + codewords;
    let value_count: usize = evaluations.values.len();
    let randomizer_count: usize = randomizers.len();
    proof {
        reveal(is_pow2);
        assert(h > 0);
        lemma_mul_inequality(h as int, lde_height as int, w as int);
        F::root_laws(lde_height);
    }
    let extended: RowMajorMatrix<F> = append_columns(evaluations, extra, codewords);
    proof {
        lemma_extended_valid(extended, *evaluations, extra@, codewords as nat);
    }
    let coefficients: RowMajorMatrix<F> = dft.coset_idft_batch(&extended, domain.shift);
    let leading: F = domain.vanishing_leading_coefficient();
    let values: Vec<F> = randomize_chunk_coefficients(
        &coefficients.values,
        randomizers,
        chunk,
        h,
        w,
        lde_height,
        leading,
    );
    let randomized: RowMajorMatrix<F> = RowMajorMatrix { values, width: w, height: lde_height };
    let lde: RowMajorMatrix<F> = dft.coset_dft_batch(&randomized, F::generator());
    let reversed: RowMajorMatrix<F> = bit_reverse_rows(&lde, log_height);
    proof {
        let start = chunk * (h * w);
        let log = log_height as nat;
        assert(start >= 0 && start + h * w <= randomizers@.len()) by (nonlinear_arith)
            requires
                start == chunk * (h * w),
                (chunk + 1) * (h * w) <= randomizers@.len(),
                chunk >= 0,
                h * w >= 0,
        ;
        assert forall|row: int, column: int|
            0 <= row < coefficients.height && 0 <= column < coefficients.width implies #[trigger] chunk_entry(
            *evaluations, extra@, codewords as nat, row, column) == evaluate(
            polynomial(coefficients, column),
            domain.point(row as nat),
        ) by {
            assert(extended.at(row, column) == chunk_entry(
                *evaluations,
                extra@,
                codewords as nat,
                row,
                column,
            ));
        }
        assert(interpolates_chunk(coefficients, domain, *evaluations, extra@, codewords as nat));
        assert forall|row: int, column: int|
            0 <= row < reversed.height && 0 <= column < reversed.width implies #[trigger] reversed.at(
            row,
            column,
        ) == randomized_value(
            domain,
            polynomial(coefficients, column),
            column_of(randomizers@, start, w as nat, column, h as nat),
            lde_point(log, row),
        ) by {
            let source = reversed_bits(row as nat, log);
            lemma_reversed_bits_bound(row as nat, log);
            let x = lde_point::<F>(log, row);
            assert(reversed.at(row, column) == lde.at(source as int, column));
            assert(lde.at(source as int, column) == evaluate(polynomial(randomized, column), x));
            let q = polynomial(coefficients, column);
            let t = column_of(randomizers@, start, w as nat, column, h as nat);
            assert(polynomial(randomized, column) == randomized_coefficients(
                q,
                t,
                leading,
                lde_height as nat,
            ));
            lemma_column_valid(coefficients.values@, 0, w as nat, column, h as nat);
            lemma_column_valid(randomizers@, start, w as nat, column, h as nat);
            law_coset_points_share_a_power::<F>(F::generator_value(), lde_height as nat, source);
            law_randomized_coefficients_evaluate(q, t, leading, lde_height as nat, x);
        }
        lemma_reversed_valid(reversed, lde, log);
        assert(extends_randomized(reversed, log, domain, coefficients, randomizers@, start));
    }
    reversed
}

/// A matrix of entries of a valid matrix is valid.
proof fn lemma_reversed_valid<F: Field>(
    reversed: RowMajorMatrix<F>,
    source: RowMajorMatrix<F>,
    log_height: nat,
)
    requires
        reversed.well_formed(),
        source.well_formed(),
        all_valid(source.values@),
        reversed.height == source.height,
        reversed.width == source.width,
        source.height == pow2(log_height),
        forall|row: int, column: int|
            0 <= row < reversed.height && 0 <= column < reversed.width ==> #[trigger] reversed.at(
                row,
                column,
            ) == source.at(reversed_bits(row as nat, log_height) as int, column),
    ensures
        all_valid(reversed.values@),
{
    assert forall|i: int| 0 <= i < reversed.values@.len() implies (#[trigger] reversed.values@[i]).valid()
        by {
        let (row, column) = lemma_index_is_a_cell(
            i,
            reversed.width as int,
            reversed.height as int,
        );
        assert(reversed.values@[i] == reversed.at(row, column));
        let from = reversed_bits(row as nat, log_height) as int;
        lemma_reversed_bits_bound(row as nat, log_height);
        lemma_cell_index(from, column, source.width as int, source.height as int);
    }
}

/// A valid matrix with valid columns appended is valid.
proof fn lemma_extended_valid<F: Field>(
    extended: RowMajorMatrix<F>,
    matrix: RowMajorMatrix<F>,
    extra: Seq<F>,
    codewords: nat,
)
    requires
        extended.well_formed(),
        matrix.well_formed(),
        all_valid(matrix.values@),
        all_valid(extra),
        extended.height == matrix.height,
        extended.width == matrix.width + codewords,
        extra.len() == matrix.height * codewords,
        forall|row: int, column: int|
            0 <= row < extended.height && 0 <= column < extended.width ==> #[trigger] extended.at(
                row,
                column,
            ) == if column < matrix.width {
                matrix.at(row, column)
            } else {
                cell(extra, codewords, row, column - matrix.width)
            },
    ensures
        all_valid(extended.values@),
{
    assert forall|i: int| 0 <= i < extended.values@.len() implies (#[trigger] extended.values@[i]).valid()
        by {
        let (row, column) = lemma_index_is_a_cell(
            i,
            extended.width as int,
            extended.height as int,
        );
        assert(extended.values@[i] == extended.at(row, column));
        if column < matrix.width {
            lemma_cell_index(row, column, matrix.width as int, matrix.height as int);
        } else {
            lemma_cell_index(row, column - matrix.width, codewords as int, matrix.height as int);
        }
    }
}

/// Every index of a row-major matrix is that of a cell.
proof fn lemma_index_is_a_cell(index: int, width: int, height: int) -> (r: (int, int))
    requires
        0 <= index < height * width,
        0 <= width,
        0 <= height,
    ensures
        0 <= r.0 < height,
        0 <= r.1 < width,
        index == r.0 * width + r.1,
{
    if width == 0 {
        assert(height * width == 0) by (nonlinear_arith)
            requires
                width == 0,
        ;
    }
    let (row, column) = (index / width, index % width);
    vstd::arithmetic::div_mod::lemma_fundamental_div_mod(index, width);
    vstd::arithmetic::div_mod::lemma_mod_bound(index, width);
    assert(0 <= row < height) by (nonlinear_arith)
        requires
            index == width * row + column,
            0 <= column < width,
            0 <= index < height * width,
    ;
    lemma_mul_is_commutative(width, row);
    (row, column)
}

/// A randomized chunk takes the values of the chunk on the chunk's own domain.
pub proof fn law_randomization_keeps_the_chunk_on_its_domain<F: TwoAdicField>(
    domain: Coset<F>,
    q: Seq<F>,
    t: Seq<F>,
    index: nat,
)
    requires
        domain.well_formed(),
        all_valid(q),
        all_valid(t),
    ensures
        randomized_value(domain, q, t, domain.point(index)) == evaluate(q, domain.point(index)),
{
    let x = domain.point(index);
    law_coset_points_share_a_power(domain.shift, domain.size as nat, index);
    law_vanishing_polynomial_vanishes(domain, index);
    lemma_evaluate_valid(q, x);
    lemma_evaluate_valid(t, x);
    lemma_product_zero(evaluate(t, x));
    F::ring_laws(evaluate(q, x), x, x);
}

/// The `2 h` coefficients of `q + Z t` in one column of a chunk, where `q` has the given
/// coefficients and `t` those that `randomizers` holds from `start` on.
pub open spec fn randomized_polynomial<F: TwoAdicField>(
    domain: Coset<F>,
    coefficients: RowMajorMatrix<F>,
    randomizers: Seq<F>,
    start: int,
    column: int,
) -> Seq<F> {
    randomized_coefficients(
        polynomial(coefficients, column),
        column_of(
            randomizers,
            start,
            coefficients.width as nat,
            column,
            coefficients.height as nat,
        ),
        domain.leading(),
        2 * coefficients.height as nat,
    )
}

/// The polynomial has `2 h` coefficients and its values are what the column of the extension holds.
pub open spec fn is_extended<F: TwoAdicField>(
    polynomial: Seq<F>,
    lde: RowMajorMatrix<F>,
    log_height: nat,
    size: nat,
    column: int,
) -> bool {
    &&& polynomial.len() == 2 * size
    &&& all_valid(polynomial)
    &&& forall|row: int|
        0 <= row < lde.height ==> #[trigger] lde.at(row, column) == evaluate(
            polynomial,
            lde_point(log_height, row),
        )
}

/// The extension of a randomized chunk is that of its randomized polynomials.
pub proof fn lemma_randomized_polynomial_is_extended<F: TwoAdicField>(
    lde: RowMajorMatrix<F>,
    log_height: nat,
    domain: Coset<F>,
    coefficients: RowMajorMatrix<F>,
    randomizers: Seq<F>,
    start: int,
    column: int,
)
    requires
        domain.well_formed(),
        domain.size == coefficients.height,
        coefficients.well_formed(),
        all_valid(coefficients.values@),
        all_valid(randomizers),
        0 <= start,
        start + coefficients.height * coefficients.width <= randomizers.len(),
        is_domain_size::<F>(pow2(log_height)),
        extends_randomized(lde, log_height, domain, coefficients, randomizers, start),
        0 <= column < coefficients.width,
    ensures
        is_extended(
            randomized_polynomial(domain, coefficients, randomizers, start, column),
            lde,
            log_height,
            coefficients.height as nat,
            column,
        ),
{
    let size = coefficients.height as nat;
    let width = coefficients.width as nat;
    let q = polynomial(coefficients, column);
    let t = column_of(randomizers, start, width, column, size);
    let made = randomized_polynomial(domain, coefficients, randomizers, start, column);
    F::constants_are_valid();
    F::root_laws(pow2(log_height) as usize);
    lemma_power_valid(domain.shift_inverse, size);
    lemma_column_valid(coefficients.values@, 0, width, column, size);
    lemma_column_valid(randomizers, start, width, column, size);
    assert forall|k: int| 0 <= k < made.len() implies (#[trigger] made[k]).valid() by {
        if k < size {
            F::ring_laws(q[k], t[k], q[k]);
        } else {
            F::ring_laws(domain.leading(), t[k - size], t[k - size]);
        }
    }
    assert forall|row: int| 0 <= row < lde.height implies #[trigger] lde.at(row, column) == evaluate(
        made,
        lde_point(log_height, row),
    ) by {
        let x = lde_point::<F>(log_height, row);
        law_coset_points_share_a_power::<F>(
            F::generator_value(),
            pow2(log_height),
            reversed_bits(row as nat, log_height),
        );
        law_randomized_coefficients_evaluate(q, t, domain.leading(), 2 * size, x);
    }
}

/// The randomized polynomials of the chunks recompose, at every point, to what the bare ones
/// recompose to there, where the randomizers are balanced.
pub proof fn law_randomized_polynomials_preserve_recomposition<F: TwoAdicField>(
    normalizers: Seq<F>,
    domains: Seq<Coset<F>>,
    coefficients: Seq<RowMajorMatrix<F>>,
    randomizers: Seq<F>,
    size: nat,
    width: nat,
    column: int,
    x: F,
)
    requires
        all_valid(normalizers),
        all_valid(randomizers),
        x.valid(),
        domains.len() == normalizers.len(),
        coefficients.len() == normalizers.len(),
        randomizers.len() == normalizers.len() * (size * width),
        forall|i: int|
            0 <= i < domains.len() ==> (#[trigger] domains[i]).well_formed() && domains[i].size
                == size,
        forall|i: int|
            0 <= i < domains.len() ==> (#[trigger] coefficients[i]).well_formed()
                && coefficients[i].height == size && coefficients[i].width == width && all_valid(
                coefficients[i].values@,
            ),
        forall|position: int|
            0 <= position < size * width ==> dot(
                normalizers,
                #[trigger] across_chunks(randomizers, size * width, position, normalizers.len()),
                normalizers.len(),
            ) == F::zero_value(),
        0 <= column < width,
    ensures
        dot(
            selectors(normalizers, vanishing_values(domains, x)),
            Seq::new(
                normalizers.len(),
                |i: int|
                    evaluate(
                        randomized_polynomial(
                            domains[i],
                            coefficients[i],
                            randomizers,
                            i * (size * width),
                            column,
                        ),
                        x,
                    ),
            ),
            normalizers.len(),
        ) == dot(
            selectors(normalizers, vanishing_values(domains, x)),
            Seq::new(
                normalizers.len(),
                |i: int| evaluate(polynomial(coefficients[i], column), x),
            ),
            normalizers.len(),
        ),
{
    let n = normalizers.len();
    let chunks = Seq::new(n, |i: int| polynomial(coefficients[i], column));
    let leading = Seq::new(n, |i: int| domains[i].leading());
    let rows = 2 * size;
    assert forall|i: int| 0 <= i < n implies (#[trigger] chunks[i]).len() == size && all_valid(
        chunks[i],
    ) by {
        assert(coefficients[i].height == size);
        lemma_column_valid(coefficients[i].values@, 0, width, column, size);
    }
    assert forall|i: int| 0 <= i < n implies (#[trigger] leading[i]).valid() by {
        assert(domains[i].well_formed());
        lemma_power_valid(domains[i].shift_inverse, size);
    }
    law_randomization_preserves_recomposition(
        normalizers,
        chunks,
        randomizers,
        leading,
        size,
        width,
        column,
        rows,
        x,
    );
    let z = vanishing_values(domains, x);
    assert(z =~= Seq::new(n, |i: int| vanishing_at(leading[i], size, x))) by {
        assert forall|i: int| 0 <= i < n implies #[trigger] z[i] == vanishing_at(
            leading[i],
            size,
            x,
        ) by {
            assert(domains[i].size == size);
        }
    }
    let made = Seq::new(
        n,
        |i: int|
            evaluate(
                randomized_polynomial(
                    domains[i],
                    coefficients[i],
                    randomizers,
                    i * (size * width),
                    column,
                ),
                x,
            ),
    );
    let randomized = Seq::new(
        n,
        |i: int|
            evaluate(
                randomized_coefficients(
                    chunks[i],
                    column_of(randomizers, i * (size * width), width, column, size),
                    leading[i],
                    rows,
                ),
                x,
            ),
    );
    assert(made =~= randomized) by {
        assert forall|i: int| 0 <= i < n implies #[trigger] made[i] == randomized[i] by {
            assert(coefficients[i].height == size);
        }
    }
    let bare = Seq::new(n, |i: int| evaluate(polynomial(coefficients[i], column), x));
    assert(bare =~= Seq::new(n, |i: int| evaluate(chunks[i], x)));
}

} // verus!
