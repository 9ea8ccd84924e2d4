//! Row-major matrices.
use vstd::arithmetic::div_mod::*;
use vstd::arithmetic::mul::*;
use vstd::arithmetic::power2::*;
use vstd::prelude::*;

verus! {

/// The entry of a row-major matrix of the given width.
pub open spec fn cell<T>(values: Seq<T>, width: nat, row: int, column: int) -> T {
    values[row * width + column]
}

/// A matrix whose rows follow each other in `values`.
#[derive(Clone, Debug, PartialEq, Eq)]
pub struct RowMajorMatrix<T> {
    pub values: Vec<T>,
    pub width: usize,
    pub height: usize,
}

impl<T> RowMajorMatrix<T> {
    /// There are as many values as the shape asks for, and no rows without columns.
    pub open spec fn well_formed(self) -> bool {
        &&& self.values@.len() == self.height * self.width
        &&& self.width == 0 ==> self.height == 0
    }

    /// The entry in the given row and column.
    pub open spec fn at(self, row: int, column: int) -> T {
        cell(self.values@, self.width as nat, row, column)
    }

    /// The matrix with the given values, or nothing where they do not fill rows of that width.
    pub fn new(values: Vec<T>, width: usize) -> (r: Option<Self>)
        ensures
            r is Some <==> if width == 0 {
                values@.len() == 0
            } else {
                values@.len() % width as nat == 0
            },
            r matches Some(matrix) ==> matrix.well_formed() && matrix.values == values
                && matrix.width == width,
    {
        let count: usize = values.len();
        if width == 0 {
            if count == 0 {
                Some(RowMajorMatrix { values, width, height: 0 })
            } else {
                None
            }
        } else if count % width == 0 {
            let height: usize = count / width;
            proof {
                lemma_fundamental_div_mod(count as int, width as int);
                lemma_mul_is_commutative(width as int, height as int);
            }
            Some(RowMajorMatrix { values, width, height })
        } else {
            None
        }
    }
}

/// The entry of a cell lies among the values, before those of later rows.
pub proof fn lemma_cell_index(row: int, column: int, width: int, height: int)
    requires
        0 <= row < height,
        0 <= column < width,
    ensures
        0 <= row * width,
        row * width + column < (row + 1) * width,
        (row + 1) * width <= height * width,
        (row + 1) * width == row * width + width,
{
    assert(0 <= row * width && (row + 1) * width <= height * width && (row + 1) * width == row
        * width + width) by (nonlinear_arith)
        requires
            0 <= row < height,
            0 <= column < width,
    ;
}

/// An earlier cell, in row-major order, has a smaller index.
pub proof fn lemma_cell_order(row: int, column: int, later_row: int, later_column: int, width: int)
    requires
        0 <= row,
        0 <= column < width,
        0 <= later_column,
        row < later_row || (row == later_row && column < later_column),
    ensures
        0 <= row * width + column < later_row * width + later_column,
{
    assert(0 <= row * width + column) by (nonlinear_arith)
        requires
            0 <= row,
            0 <= column < width,
    ;
    if row < later_row {
        assert(row * width + width <= later_row * width) by (nonlinear_arith)
            requires
                row < later_row,
                0 < width,
        ;
    }
}

/// `matrix` with `extra_width` further columns on the right, whose entries `extra` holds row by row.
pub fn append_columns<T: Copy>(
    matrix: &RowMajorMatrix<T>,
    extra: &[T],
    extra_width: usize,
) -> (r: RowMajorMatrix<T>)
    requires
        matrix.well_formed(),
        extra@.len() == matrix.height * extra_width,
        matrix.width + extra_width <= usize::MAX,
        matrix.height * (matrix.width + extra_width) <= usize::MAX,
    ensures
        r.well_formed(),
        r.height == matrix.height,
        r.width == matrix.width + extra_width,
        forall|row: int, column: int|
            0 <= row < r.height && 0 <= column < r.width ==> #[trigger] r.at(row, column) == if column
                < matrix.width {
                matrix.at(row, column)
            } else {
                cell(extra@, extra_width as nat, row, column - matrix.width)
            },
{
    let width: usize = matrix.width + extra_width;
    let value_count: usize = matrix.values.len();
    let extra_count: usize = extra.len();
    let mut values: Vec<T> = Vec::new();
    let mut row: usize = 0;
    while row < matrix.height
        invariant
            row <= matrix.height,
            matrix.well_formed(),
            extra@.len() == matrix.height * extra_width,
            value_count == matrix.values@.len(),
            extra_count == extra@.len(),
            width == matrix.width + extra_width,
            matrix.height * width <= usize::MAX,
            values@.len() == row * width,
            forall|i: int, j: int|
                0 <= i < row && 0 <= j < width ==> #[trigger] cell(values@, width as nat, i, j)
                    == if j < matrix.width {
                    matrix.at(i, j)
                } else {
                    cell(extra@, extra_width as nat, i, j - matrix.width)
                },
        decreases matrix.height - row,
    {
        let mut column: usize = 0;
        while column < width
            invariant
                row < matrix.height,
                column <= width,
                matrix.well_formed(),
                extra@.len() == matrix.height * extra_width,
                value_count == matrix.values@.len(),
                extra_count == extra@.len(),
                width == matrix.width + extra_width,
                matrix.height * width <= usize::MAX,
                values@.len() == row * width + column,
                forall|i: int, j: int|
                    0 <= j < width && (0 <= i < row || (i == row && j < column)) ==> #[trigger] cell(
                        values@,
                        width as nat,
                        i,
                        j,
                    ) == if j < matrix.width {
                        matrix.at(i, j)
                    } else {
                        cell(extra@, extra_width as nat, i, j - matrix.width)
                    },
            decreases width - column,
        {
            let ghost before = values@;
            let value: T = if column < matrix.width {
                proof {
                    lemma_cell_index(
                        row as int,
                        column as int,
                        matrix.width as int,
                        matrix.height as int,
                    );
                }
                matrix.values[row * matrix.width + column]
            } else {
                proof {
                    lemma_cell_index(
                        row as int,
                        column - matrix.width,
                        extra_width as int,
                        matrix.height as int,
                    );
                }
                extra[row * extra_width + (column - matrix.width)]
            };
            values.push(value);
            proof {
                assert forall|i: int, j: int|
                    0 <= j < width && (0 <= i < row || (i == row && j < column + 1)) implies #[trigger] cell(
                    values@,
                    width as nat,
                    i,
                    j,
                ) == if j < matrix.width {
                    matrix.at(i, j)
                } else {
                    cell(extra@, extra_width as nat, i, j - matrix.width)
                } by {
                    if i < row || j < column {
                        lemma_cell_order(i, j, row as int, column as int, width as int);
                        assert(cell(values@, width as nat, i, j) == cell(
                            before,
                            width as nat,
                            i,
                            j,
                        ));
                    }
                }
            }
            column = column + 1;
        }
        proof {
            lemma_mul_is_distributive_add_other_way(width as int, row as int, 1);
        }
        row = row + 1;
    }
    RowMajorMatrix { values, width, height: matrix.height }
}

/// `value` with its lowest `bits` bits in the opposite order.
pub open spec fn reversed_bits(value: nat, bits: nat) -> nat
    decreases bits,
{
    if bits == 0 {
        0
    } else {
        (value % 2) * pow2((bits - 1) as nat) + reversed_bits(value / 2, (bits - 1) as nat)
    }
}

/// Reversed bits are as many.
pub proof fn lemma_reversed_bits_bound(value: nat, bits: nat)
    ensures
        reversed_bits(value, bits) < pow2(bits),
    decreases bits,
{
    if bits == 0 {
        lemma2_to64();
    } else {
        let fewer = (bits - 1) as nat;
        lemma_reversed_bits_bound(value / 2, fewer);
        lemma_pow2_unfold(bits);
        assert((value % 2) * pow2(fewer) <= pow2(fewer)) by (nonlinear_arith)
            requires
                0 <= value % 2 <= 1,
                0 <= pow2(fewer),
        ;
    }
}

/// Every number of `bits` bits is the reversal of one.
pub proof fn lemma_every_index_is_reversed(index: nat, bits: nat) -> (r: nat)
    requires
        index < pow2(bits),
    ensures
        r < pow2(bits),
        reversed_bits(r, bits) == index,
    decreases bits,
{
    if bits == 0 {
        lemma2_to64();
        0
    } else {
        let fewer = (bits - 1) as nat;
        let top = pow2(fewer);
        lemma_pow2_unfold(bits);
        let rest = if index < top {
            index
        } else {
            (index - top) as nat
        };
        let row = lemma_every_index_is_reversed(rest, fewer);
        let bit: nat = if index < top {
            0
        } else {
            1
        };
        let r = 2 * row + bit;
        assert(r % 2 == bit && r / 2 == row);
        assert(bit * top == if bit == 0 {
            0
        } else {
            top
        }) by (nonlinear_arith)
            requires
                bit <= 1,
        ;
        r
    }
}

/// `value` with its lowest `bits` bits in the opposite order.
fn reverse_bits(value: usize, bits: usize) -> (r: usize)
    requires
        pow2(bits as nat) <= usize::MAX,
    ensures
        r == reversed_bits(value as nat, bits as nat),
    decreases bits,
{
    if bits == 0 {
        return 0;
    }
    let fewer: usize = bits - 1;
    proof {
        lemma_pow2_unfold(bits as nat);
        lemma_reversed_bits_bound((value / 2) as nat, fewer as nat);
        lemma_mul_basics(pow2(fewer as nat) as int);
    }
    let rest: usize = reverse_bits(value / 2, fewer);
    if value % 2 == 1 {
        let high: usize = match crate::powers::checked_power_of_two(fewer) {
            Some(power) => power,
            None => 0,
        };
        high + rest
    } else {
        rest
    }
}

/// The matrix with its rows in bit-reversed order.
pub fn bit_reverse_rows<T: Copy>(matrix: &RowMajorMatrix<T>, log_height: usize) -> (r:
    RowMajorMatrix<T>)
    requires
        matrix.well_formed(),
        matrix.height == pow2(log_height as nat),
    ensures
        r.well_formed(),
        r.height == matrix.height,
        r.width == matrix.width,
        forall|row: int, column: int|
            0 <= row < r.height && 0 <= column < r.width ==> #[trigger] r.at(row, column)
                == matrix.at(reversed_bits(row as nat, log_height as nat) as int, column),
{
    let width: usize = matrix.width;
    let value_count: usize = matrix.values.len();
    let mut values: Vec<T> = Vec::new();
    let mut row: usize = 0;
    while row < matrix.height
        invariant
            row <= matrix.height,
            width == matrix.width,
            matrix.well_formed(),
            matrix.height == pow2(log_height as nat),
            value_count == matrix.values@.len(),
            values@.len() == row * width,
            forall|i: int, j: int|
                0 <= i < row && 0 <= j < width ==> #[trigger] cell(values@, width as nat, i, j)
                    == matrix.at(reversed_bits(i as nat, log_height as nat) as int, j),
        decreases matrix.height - row,
    {
        let source: usize = reverse_bits(row, log_height);
        proof {
            lemma_reversed_bits_bound(row as nat, log_height as nat);
        }
        let mut column: usize = 0;
        while column < width
            invariant
                row < matrix.height,
                column <= width,
                width == matrix.width,
                matrix.well_formed(),
                source == reversed_bits(row as nat, log_height as nat),
                source < matrix.height,
                value_count == matrix.values@.len(),
                values@.len() == row * width + column,
                forall|i: int, j: int|
                    0 <= j < width && (0 <= i < row || (i == row && j < column)) ==> #[trigger] cell(
                        values@,
                        width as nat,
                        i,
                        j,
                    ) == matrix.at(reversed_bits(i as nat, log_height as nat) as int, j),
            decreases width - column,
        {
            let ghost before = values@;
            proof {
                lemma_cell_index(
                    source as int,
                    column as int,
                    width as int,
                    matrix.height as int,
                );
            }
            values.push(matrix.values[source * width + column]);
            proof {
                assert forall|i: int, j: int|
                    0 <= j < width && (0 <= i < row || (i == row && j < column + 1)) implies #[trigger] cell(
                    values@,
                    width as nat,
                    i,
                    j,
                ) == matrix.at(reversed_bits(i as nat, log_height as nat) as int, j) by {
                    if i < row || j < column {
                        lemma_cell_order(i, j, row as int, column as int, width as int);
                        assert(cell(values@, width as nat, i, j) == cell(
                            before,
                            width as nat,
                            i,
                            j,
                        ));
                    }
                }
            }
            column = column + 1;
        }
        proof {
            lemma_mul_is_distributive_add_other_way(width as int, row as int, 1);
        }
        row = row + 1;
    }
    RowMajorMatrix { values, width, height: matrix.height }
}

/// Reversal moves each bit to the other end: bit `i` of the number is bit `bits - 1 - i` of its
/// reversal.
pub proof fn law_reversal_moves_each_bit_to_the_other_end(value: nat, bits: nat, i: nat)
    requires
        i < bits,
    ensures
        reversed_bits(value, bits) < pow2(bits),
        (value / pow2(i)) % 2 == (reversed_bits(value, bits) / pow2((bits - 1 - i) as nat)) % 2,
    decreases bits,
{
    lemma_reversed_bits_bound(value, bits);
    let fewer = (bits - 1) as nat;
    let bit = value % 2;
    let rest = reversed_bits(value / 2, fewer);
    lemma_reversed_bits_bound(value / 2, fewer);
    lemma_pow2_pos(fewer);
    let reversed = reversed_bits(value, bits);
    assert(reversed == bit * pow2(fewer) + rest);
    if i == 0 {
        lemma2_to64();
        lemma_div_basics(value as int);
        lemma_fundamental_div_mod_converse(
            reversed as int,
            pow2(fewer) as int,
            bit as int,
            rest as int,
        );
        lemma_mul_is_commutative(bit as int, pow2(fewer) as int);
    } else {
        let j = (bits - 1 - i) as nat;
        law_reversal_moves_each_bit_to_the_other_end(value / 2, fewer, (i - 1) as nat);
        lemma_pow2_unfold(i);
        lemma_pow2_pos((i - 1) as nat);
        lemma_div_denominator(value as int, 2, pow2((i - 1) as nat) as int);
        assert((fewer - 1 - (i - 1)) as nat == j);
        // reversed = 2^j (bit 2^i) + rest
        lemma_pow2_adds(j, i);
        lemma_pow2_pos(j);
        let high = bit * pow2((i - 1) as nat);
        assert(bit * pow2(fewer) == pow2(j) * (2 * high)) by (nonlinear_arith)
            requires
                pow2(fewer) == pow2(j) * (2 * pow2((i - 1) as nat)),
                high == bit * pow2((i - 1) as nat),
        ;
        lemma_hoist_over_denominator(rest as int, (2 * high) as int, pow2(j) as nat);
        assert(reversed / pow2(j) == rest / pow2(j) + 2 * high) by {
            lemma_mul_is_commutative(pow2(j) as int, (2 * high) as int);
        }
    }
}

/// One row of values that follow each other row by row.
pub open spec fn row_of<T>(values: Seq<T>, width: nat, row: int) -> Seq<T> {
    values.subrange(row * width, (row + 1) * width)
}

/// A matrix with columns appended has in each row the matrix's row followed by the columns' row.
pub proof fn law_appended_columns_follow_each_row<T: Copy>(
    matrix: RowMajorMatrix<T>,
    extra: &[T],
    extra_width: usize,
    result: RowMajorMatrix<T>,
    row: int,
)
    requires
        matrix.well_formed(),
        extra@.len() == matrix.height * extra_width,
        call_ensures(append_columns::<T>, (&matrix, extra, extra_width), result),
        0 <= row < matrix.height,
    ensures
        result.width == matrix.width + extra_width,
        result.height == matrix.height,
        result.values@.subrange(row * result.width, (row + 1) * result.width)
            == matrix.values@.subrange(row * matrix.width, (row + 1) * matrix.width)
            + extra@.subrange(row * extra_width, (row + 1) * extra_width),
{
    let (w, x) = (matrix.width as int, extra_width as int);
    lemma_row_bounds(row, matrix.height as int, w + x);
    lemma_row_bounds(row, matrix.height as int, w);
    lemma_row_bounds(row, matrix.height as int, x);
    let whole = result.values@.subrange(row * (w + x), (row + 1) * (w + x));
    let parts = matrix.values@.subrange(row * w, (row + 1) * w) + extra@.subrange(
        row * x,
        (row + 1) * x,
    );
    assert forall|column: int| 0 <= column < w + x implies #[trigger] whole[column]
        == parts[column] by {
        assert(whole[column] == result.at(row, column));
        if column < w {
            assert(parts[column] == matrix.at(row, column));
        } else {
            assert(parts[column] == cell(extra@, extra_width as nat, row, column - w));
        }
    }
    assert(whole =~= parts);
}

/// A row of a matrix lies within its values.
pub proof fn lemma_row_bounds(row: int, height: int, width: int)
    requires
        0 <= row < height,
        0 <= width,
    ensures
        0 <= row * width,
        (row + 1) * width == row * width + width,
        (row + 1) * width <= height * width,
{
    assert(0 <= row * width && (row + 1) * width == row * width + width && (row + 1) * width <= height
        * width) by (nonlinear_arith)
        requires
            0 <= row < height,
            0 <= width,
    ;
}

/// A matrix with its rows reordered has in each row the row whose number has the bits reversed.
pub proof fn law_rows_are_reordered_whole<T: Copy>(
    matrix: RowMajorMatrix<T>,
    log_height: usize,
    result: RowMajorMatrix<T>,
    row: int,
)
    requires
        matrix.well_formed(),
        matrix.height == pow2(log_height as nat),
        call_ensures(bit_reverse_rows::<T>, (&matrix, log_height), result),
        0 <= row < matrix.height,
    ensures
        result.width == matrix.width,
        result.height == matrix.height,
        row_of(result.values@, result.width as nat, row) == row_of(
            matrix.values@,
            matrix.width as nat,
            reversed_bits(row as nat, log_height as nat) as int,
        ),
{
    let source = reversed_bits(row as nat, log_height as nat) as int;
    let w = matrix.width as int;
    lemma_reversed_bits_bound(row as nat, log_height as nat);
    lemma_row_bounds(row, matrix.height as int, w);
    lemma_row_bounds(source, matrix.height as int, w);
    let (made, taken) = (
        row_of(result.values@, w as nat, row),
        row_of(matrix.values@, w as nat, source),
    );
    assert forall|column: int| 0 <= column < w implies #[trigger] made[column]
        == taken[column] by {
        assert(made[column] == result.at(row, column));
        assert(taken[column] == matrix.at(source, column));
    }
    assert(made =~= taken);
}

} // verus!
