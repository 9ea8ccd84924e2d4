//! How a hiding commitment scheme widens and interleaves the matrices that it commits to.
use crate::field::Field;
use crate::matrix::{
    append_columns, cell, lemma_cell_index, lemma_row_bounds, row_of, RowMajorMatrix,
};
use vstd::arithmetic::mul::*;
use vstd::prelude::*;

verus! {

/// Why a trace cannot be randomized.
#[derive(Clone, Copy, Debug, PartialEq, Eq)]
pub enum TraceError {
    /// The ZK trace height must fit the word.
    HeightOverflow,
    /// The ZK trace domain must have exactly twice the unrandomized trace height.
    DomainSizeMismatch,
    /// The width of the randomized trace, or the number of its values, exceeds the word.
    SizeOverflow,
    /// There are not as many random values as the randomized trace takes.
    RandomValueCountMismatch,
}

/// How many random values each row of a trace gets: its successor row and twice the random
/// codewords.
pub open spec fn random_values_per_row(width: nat, codewords: nat) -> nat {
    width + 2 * codewords
}

/// Why a trace of this shape cannot be randomized, whatever the random values, if it cannot.
pub open spec fn trace_shape_failure(
    domain_size: nat,
    height: nat,
    width: nat,
    codewords: nat,
) -> Option<TraceError> {
    if 2 * height > usize::MAX {
        Some(TraceError::HeightOverflow)
    } else if domain_size != 2 * height {
        Some(TraceError::DomainSizeMismatch)
    } else if width + random_values_per_row(width, codewords) > usize::MAX || height * (width
        + random_values_per_row(width, codewords)) > usize::MAX {
        Some(TraceError::SizeOverflow)
    } else {
        None
    }
}

/// Why a trace of this shape cannot be randomized with that many random values, if it cannot.
pub open spec fn trace_failure(
    domain_size: nat,
    height: nat,
    width: nat,
    codewords: nat,
    random_value_count: nat,
) -> Option<TraceError> {
    match trace_shape_failure(domain_size, height, width, codewords) {
        Some(error) => Some(error),
        None => if random_value_count != height * random_values_per_row(width, codewords) {
            Some(TraceError::RandomValueCountMismatch)
        } else {
            None
        },
    }
}

/// `randomized` interleaves the rows of `matrix`, each followed by `codewords` random values, with
/// random rows.
pub open spec fn is_randomized_trace<T>(
    randomized: RowMajorMatrix<T>,
    matrix: RowMajorMatrix<T>,
    codewords: nat,
    random_values: Seq<T>,
) -> bool {
    let per_row = random_values_per_row(matrix.width as nat, codewords);
    &&& randomized.well_formed()
    &&& randomized.height == 2 * matrix.height
    &&& randomized.width == matrix.width + codewords
    &&& forall|row: int, column: int|
        0 <= row < randomized.height && 0 <= column < randomized.width ==> #[trigger] randomized.at(
            row,
            column,
        ) == if row % 2 == 1 {
            cell(random_values, per_row, row / 2, codewords + column)
        } else if column < matrix.width {
            matrix.at(row / 2, column)
        } else {
            cell(random_values, per_row, row / 2, column - matrix.width)
        }
}

/// The rows of a matrix of even width, halved.
proof fn lemma_halved_rows(row: int, column: int, half: int)
    ensures
        (2 * row) * half + column == row * (2 * half) + column,
        (2 * row + 1) * half + column == row * (2 * half) + (half + column),
{
    assert((2 * row) * half == row * (2 * half) && (2 * row + 1) * half == row * (2 * half) + half)
        by (nonlinear_arith);
}

/// The randomized trace of a matrix of height `h` and width `w`: height `2h`, width
/// `w + codewords`.
///
/// Each row gets `w + 2 codewords` random values on its right, and is then cut in two.
pub fn randomize_trace<T: Copy>(
    domain_size: usize,
    matrix: &RowMajorMatrix<T>,
    codewords: usize,
    random_values: &[T],
) -> (r: Result<RowMajorMatrix<T>, TraceError>)
    requires
        matrix.well_formed(),
    ensures
        match r {
            Err(error) => trace_failure(
                domain_size as nat,
                matrix.height as nat,
                matrix.width as nat,
                codewords as nat,
                random_values@.len(),
            ) == Some(error),
            Ok(randomized) => trace_failure(
                domain_size as nat,
                matrix.height as nat,
                matrix.width as nat,
                codewords as nat,
                random_values@.len(),
            ) is None && is_randomized_trace(
                randomized,
                *matrix,
                codewords as nat,
                random_values@,
            ),
        },
{
    let height: usize = matrix.height;
    let width: usize = matrix.width;
    let value_count: usize = matrix.values.len();
    let random_value_count: usize = random_values.len();
    let taken: usize = match trace_random_value_count(domain_size, matrix, codewords) {
        Ok(taken) => taken,
        Err(error) => {
            return Err(error);
        },
    };
    if random_value_count != taken {
        return Err(TraceError::RandomValueCountMismatch);
    }
    let randomized_height: usize = 2 * height;
    let randomized_width: usize = width + codewords;
    let per_row: usize = width + 2 * codewords;
    let wide: RowMajorMatrix<T> = append_columns(matrix, random_values, per_row);
    proof {
        assert(height * (2 * randomized_width) == (2 * height) * randomized_width)
            by (nonlinear_arith);
        if randomized_width == 0 {
            assert(width == 0);
        }
    }
    let randomized: RowMajorMatrix<T> = RowMajorMatrix {
        values: wide.values,
        width: randomized_width,
        height: randomized_height,
    };
    proof {
        assert forall|row: int, column: int|
            0 <= row < randomized.height && 0 <= column < randomized.width implies #[trigger] randomized.at(
            row,
            column,
        ) == if row % 2 == 1 {
            cell(random_values@, per_row as nat, row / 2, codewords + column)
        } else if column < matrix.width {
            matrix.at(row / 2, column)
        } else {
            cell(random_values@, per_row as nat, row / 2, column - matrix.width)
        } by {
            lemma_halved_rows(row / 2, column, randomized_width as int);
            if row % 2 == 1 {
                assert(randomized.at(row, column) == wide.at(row / 2, randomized_width + column));
            } else {
                assert(randomized.at(row, column) == wide.at(row / 2, column));
            }
        }
    }
    Ok(randomized)
}

/// How many random values the randomized trace of a matrix on a domain of the given size takes, or
/// why it cannot be randomized.
pub fn trace_random_value_count<T>(
    domain_size: usize,
    matrix: &RowMajorMatrix<T>,
    codewords: usize,
) -> (r: Result<usize, TraceError>)
    ensures
        match r {
            Err(error) => trace_shape_failure(
                domain_size as nat,
                matrix.height as nat,
                matrix.width as nat,
                codewords as nat,
            ) == Some(error),
            Ok(count) => trace_shape_failure(
                domain_size as nat,
                matrix.height as nat,
                matrix.width as nat,
                codewords as nat,
            ) is None && count == matrix.height * random_values_per_row(
                matrix.width as nat,
                codewords as nat,
            ),
        },
{
    let height: usize = matrix.height;
    let width: usize = matrix.width;
    let randomized_height: usize = match height.checked_mul(2) {
        Some(doubled) => doubled,
        None => {
            return Err(TraceError::HeightOverflow);
        },
    };
    if domain_size != randomized_height {
        return Err(TraceError::DomainSizeMismatch);
    }
    let randomized_width: usize = match width.checked_add(codewords) {
        Some(sum) => sum,
        None => {
            return Err(TraceError::SizeOverflow);
        },
    };
    let widened: usize = match randomized_width.checked_mul(2) {
        Some(doubled) => doubled,
        None => {
            return Err(TraceError::SizeOverflow);
        },
    };
    if height.checked_mul(widened).is_none() {
        return Err(TraceError::SizeOverflow);
    }
    let per_row: usize = widened - width;
    proof {
        lemma_mul_inequality(per_row as int, widened as int, height as int);
        lemma_mul_is_commutative(per_row as int, height as int);
        lemma_mul_is_commutative(widened as int, height as int);
    }
    Ok(height * per_row)
}

/// `padded` interleaves the rows of `matrix` with rows of zeros.
pub open spec fn is_padded_preprocessing<F: Field>(
    padded: RowMajorMatrix<F>,
    matrix: RowMajorMatrix<F>,
) -> bool {
    &&& padded.well_formed()
    &&& padded.height == 2 * matrix.height
    &&& padded.width == matrix.width
    &&& forall|row: int, column: int|
        0 <= row < padded.height && 0 <= column < padded.width ==> #[trigger] padded.at(row, column)
            == if row % 2 == 1 {
            F::zero_value()
        } else {
            matrix.at(row / 2, column)
        }
}

/// The preprocessed matrix with a row of zeros after each of its rows, or nothing where the number
/// of values or the width of two rows exceeds the word.
pub fn pad_preprocessing<F: Field>(matrix: &RowMajorMatrix<F>) -> (r: Option<RowMajorMatrix<F>>)
    requires
        matrix.well_formed(),
    ensures
        r is Some <==> 2 * matrix.width <= usize::MAX && matrix.height * (2 * matrix.width)
            <= usize::MAX,
        r matches Some(padded) ==> is_padded_preprocessing(padded, *matrix),
{
    let height: usize = matrix.height;
    let width: usize = matrix.width;
    let value_count: usize = matrix.values.len();
    let widened: usize = width.checked_mul(2)?;
    let _: usize = height.checked_mul(widened)?;
    let mut zeros: Vec<F> = Vec::new();
    while zeros.len() < value_count
        invariant
            value_count == matrix.values@.len(),
            zeros@.len() <= value_count,
            forall|i: int| 0 <= i < zeros@.len() ==> #[trigger] zeros@[i] == F::zero_value(),
        decreases value_count - zeros@.len(),
    {
        zeros.push(F::zero());
    }
    let wide: RowMajorMatrix<F> = append_columns(matrix, &zeros, width);
    proof {
        assert(height * (2 * width) == (2 * height) * width) by (nonlinear_arith);
        if width > 0 {
            assert(2 * height <= (2 * height) * width) by (nonlinear_arith)
                requires
                    width >= 1,
                    height >= 0,
            ;
        }
    }
    let padded: RowMajorMatrix<F> = RowMajorMatrix {
        values: wide.values,
        width,
        height: height * 2,
    };
    proof {
        assert forall|row: int, column: int|
            0 <= row < padded.height && 0 <= column < padded.width implies #[trigger] padded.at(
            row,
            column,
        ) == if row % 2 == 1 {
            F::zero_value()
        } else {
            matrix.at(row / 2, column)
        } by {
            lemma_halved_rows(row / 2, column, width as int);
            lemma_cell_index(row / 2, column, width as int, height as int);
            if row % 2 == 1 {
                assert(padded.at(row, column) == wide.at(row / 2, width + column));
                assert(wide.at(row / 2, width + column) == cell(
                    zeros@,
                    width as nat,
                    row / 2,
                    column,
                ));
            } else {
                assert(padded.at(row, column) == wide.at(row / 2, column));
            }
        }
    }
    Some(padded)
}

/// What a randomized trace is, row by row, over the arguments of the call.
///
/// Two of its rows together are a row of the trace followed by the next `w + 2 c` random values, so
/// that every random value is used once, in order. A trace is randomized exactly where the domain has
/// twice as many points as the trace has rows, all values can be counted, and there are `h (w + 2 c)`
/// random values. Of several reasons against it the first is given: the height, the domain, the size,
/// the number of random values.
pub proof fn law_two_rows_hold_a_trace_row_and_fresh_values<T: Copy>(
    domain_size: usize,
    matrix: RowMajorMatrix<T>,
    codewords: usize,
    random_values: &[T],
    result: Result<RowMajorMatrix<T>, TraceError>,
    row: int,
)
    requires
        matrix.well_formed(),
        call_ensures(
            randomize_trace::<T>,
            (domain_size, &matrix, codewords, random_values),
            result,
        ),
        0 <= row < matrix.height,
    ensures
        ({
            let (h, w, c) = (matrix.height as int, matrix.width as int, codewords as int);
            &&& result is Ok <==> {
                &&& domain_size == h + h
                &&& 2 * (w + c) <= usize::MAX && (2 * h) * (w + c) <= usize::MAX
                &&& random_values@.len() + h * w == (2 * h) * (w + c)
            }
            &&& result matches Ok(randomized) ==> {
                let even = row_of(randomized.values@, (w + c) as nat, 2 * row);
                let odd = row_of(randomized.values@, (w + c) as nat, 2 * row + 1);
                &&& randomized.height == 2 * h && randomized.width == w + c
                &&& randomized.values@.len() == (2 * h) * (w + c)
                &&& even + odd == row_of(matrix.values@, w as nat, row) + row_of(
                    random_values@,
                    (w + 2 * c) as nat,
                    row,
                )
            }
            &&& result matches Err(error) ==> match error {
                TraceError::HeightOverflow => h + h > usize::MAX,
                TraceError::DomainSizeMismatch => h + h <= usize::MAX && domain_size != h + h,
                TraceError::SizeOverflow => domain_size == h + h && (2 * (w + c) > usize::MAX || (2
                    * h) * (w + c) > usize::MAX),
                TraceError::RandomValueCountMismatch => domain_size == h + h && 2 * (w + c)
                    <= usize::MAX && (2 * h) * (w + c) <= usize::MAX && random_values@.len() + h * w
                    != (2 * h) * (w + c),
            }
        }),
{
    let (h, w, c) = (matrix.height as int, matrix.width as int, codewords as int);
    let per = w + 2 * c;
    assert(h * (w + per) == (2 * h) * (w + c) && h * per + h * w == (2 * h) * (w + c))
        by (nonlinear_arith)
        requires
            per == w + 2 * c,
    ;
    if let Ok(randomized) = result {
        let half = w + c;
        let even = row_of(randomized.values@, half as nat, 2 * row);
        let odd = row_of(randomized.values@, half as nat, 2 * row + 1);
        let source = row_of(matrix.values@, w as nat, row);
        let fresh = row_of(random_values@, per as nat, row);
        lemma_row_bounds(2 * row, 2 * h, half);
        lemma_row_bounds(2 * row + 1, 2 * h, half);
        lemma_row_bounds(row, h, w);
        lemma_row_bounds(row, h, per);
        let (pair, parts) = (even + odd, source + fresh);
        assert forall|k: int| 0 <= k < 2 * half implies #[trigger] pair[k] == parts[k] by {
            if k < half {
                assert(pair[k] == randomized.at(2 * row, k));
                if k < w {
                    assert(parts[k] == matrix.at(row, k));
                } else {
                    assert(parts[k] == cell(random_values@, per as nat, row, k - w));
                }
            } else {
                assert(pair[k] == randomized.at(2 * row + 1, k - half));
                assert(parts[k] == cell(random_values@, per as nat, row, c + (k - half)));
            }
        }
        assert(pair =~= parts);
    }
}

/// The random values of a trace are what its randomized form has more than the trace itself.
pub proof fn law_random_values_fill_the_randomized_trace<T>(
    domain_size: usize,
    matrix: RowMajorMatrix<T>,
    codewords: usize,
    count: usize,
)
    requires
        call_ensures(
            trace_random_value_count::<T>,
            (domain_size, &matrix, codewords),
            Ok(count),
        ),
    ensures
        domain_size == 2 * matrix.height,
        count + matrix.height * matrix.width == domain_size * (matrix.width + codewords),
{
    let (h, w, c) = (matrix.height as int, matrix.width as int, codewords as int);
    assert(h * (w + 2 * c) + h * w == (2 * h) * (w + c)) by (nonlinear_arith);
}

/// Two rows of a padded matrix together are a row of the matrix followed by as many zeros.
pub proof fn law_two_rows_hold_a_row_and_zeros<F: Field>(
    matrix: RowMajorMatrix<F>,
    result: Option<RowMajorMatrix<F>>,
    row: int,
)
    requires
        matrix.well_formed(),
        call_ensures(pad_preprocessing::<F>, (&matrix,), result),
        0 <= row < matrix.height,
    ensures
        ({
            let (h, w) = (matrix.height as int, matrix.width as int);
            &&& result is Some <==> 2 * w <= usize::MAX && (2 * h) * w <= usize::MAX
            &&& result matches Some(padded) ==> {
                &&& padded.height == 2 * h && padded.width == w
                &&& row_of(padded.values@, w as nat, 2 * row) == row_of(
                    matrix.values@,
                    w as nat,
                    row,
                )
                &&& forall|k: int|
                    (2 * row + 1) * w <= k < (2 * row + 2) * w ==> #[trigger] padded.values@[k]
                        == F::zero_value()
            }
        }),
{
    let (h, w) = (matrix.height as int, matrix.width as int);
    assert(h * (2 * w) == (2 * h) * w) by (nonlinear_arith);
    if let Some(padded) = result {
        lemma_row_bounds(2 * row, 2 * h, w);
        lemma_row_bounds(2 * row + 1, 2 * h, w);
        lemma_row_bounds(row, h, w);
        let (even, source) = (
            row_of(padded.values@, w as nat, 2 * row),
            row_of(matrix.values@, w as nat, row),
        );
        assert forall|k: int| 0 <= k < w implies #[trigger] even[k] == source[k] by {
            assert(even[k] == padded.at(2 * row, k));
            assert(source[k] == matrix.at(row, k));
        }
        assert(even =~= source);
        assert forall|k: int|
            (2 * row + 1) * w <= k < (2 * row + 2) * w implies #[trigger] padded.values@[k]
            == F::zero_value() by {
            let column = k - (2 * row + 1) * w;
            assert(padded.values@[k] == padded.at(2 * row + 1, column));
        }
    }
}

} // verus!
