//! Randomization of the quotient chunks of a hiding commitment, ePrint 2024/1037 Section 4.2.
//!
//! Every chunk `q_i` is replaced by `q_i + Z_i t_i`, where `Z_i` vanishes on the chunk's domain and
//! the `t_i` are random but for the last, which is chosen so that the quotient that the chunks
//! recompose to stays the same.
use crate::field::{all_valid, dot, lemma_product_zero, power, Field};
use crate::matrix::{cell, lemma_cell_index, lemma_cell_order};
use vstd::arithmetic::mul::*;
use vstd::prelude::*;

verus! {

/// The entries that `count` chunks of `per_chunk` values hold at one position of the chunk.
pub open spec fn across_chunks<F: Field>(
    values: Seq<F>,
    per_chunk: nat,
    position: int,
    count: nat,
) -> Seq<F> {
    Seq::new(count, |i: int| values[i * per_chunk + position])
}

/// There are at least two chunks, none empty, as many values as they hold, and the last selector
/// normalizer is invertible.
pub open spec fn can_balance<F: Field>(
    normalizers: Seq<F>,
    per_chunk: nat,
    value_count: nat,
) -> bool {
    &&& normalizers.len() >= 2
    &&& per_chunk > 0
    &&& normalizers.len() * per_chunk == value_count
    &&& normalizers.last() != F::zero_value()
}

pub proof fn lemma_dot_valid<F: Field>(a: Seq<F>, b: Seq<F>, count: nat)
    requires
        all_valid(a),
        all_valid(b),
        count <= a.len(),
        count <= b.len(),
    ensures
        dot(a, b, count).valid(),
    decreases count,
{
    F::constants_are_valid();
    if count > 0 {
        let fewer = (count - 1) as nat;
        lemma_dot_valid(a, b, fewer);
        F::ring_laws(a[fewer as int], b[fewer as int], a[fewer as int]);
        F::ring_laws(dot(a, b, fewer), a[fewer as int].product(b[fewer as int]), a[fewer as int]);
    }
}

proof fn lemma_dot_agrees<F: Field>(a: Seq<F>, b: Seq<F>, c: Seq<F>, count: nat)
    requires
        forall|i: int| 0 <= i < count ==> b[i] == c[i],
    ensures
        dot(a, b, count) == dot(a, c, count),
    decreases count,
{
    if count > 0 {
        lemma_dot_agrees(a, b, c, (count - 1) as nat);
    }
}

/// Subtracting `t (c / l)` from `x` takes `c t` from `l x`.
proof fn lemma_balance_step<F: Field>(l: F, inverse: F, c: F, t: F, x: F, s: F)
    requires
        l.valid(),
        inverse.valid(),
        c.valid(),
        t.valid(),
        x.valid(),
        s.valid(),
        l.product(inverse) == F::one_value(),
    ensures
        c.product(inverse).valid(),
        t.product(c.product(inverse)).valid(),
        x.difference(t.product(c.product(inverse))).valid(),
        l.product(x.difference(t.product(c.product(inverse)))).sum(s.sum(c.product(t)))
            == l.product(x).sum(s),
{
    let multiplier = c.product(inverse);
    F::ring_laws(c, inverse, l);
    let v = t.product(multiplier);
    F::ring_laws(t, multiplier, l);
    F::ring_laws(x, v, l);
    let y = x.difference(v);
    // l v = l (t (c inverse)) = (c t) (l inverse) = c t
    let ct = c.product(t);
    F::ring_laws(c, t, inverse);
    F::ring_laws(t, c, inverse);
    F::ring_laws(ct, inverse, l);
    F::ring_laws(ct, F::one_value(), l);
    F::ring_laws(inverse, l, ct);
    F::ring_laws(l, ct, inverse);
    F::ring_laws(l, v, y);
    F::ring_laws(l, y, v);
    assert(v == ct.product(inverse));
    assert(v.product(l) == ct.product(inverse.product(l)));
    assert(l.product(v) == ct);
    // l y + l v = l (y + v) = l x
    let ly = l.product(y);
    F::ring_laws(ly, ct, s);
    F::ring_laws(s, ct, ly);
    F::ring_laws(ly, ct, s);
    assert(ly.sum(ct) == l.product(x));
}

/// What the last chunk still owes at `position` after the first `done` chunks were settled.
spec fn settled<F: Field>(
    normalizers: Seq<F>,
    initial: Seq<F>,
    current: Seq<F>,
    per_chunk: nat,
    position: int,
    done: nat,
) -> bool {
    let last = normalizers.len() - 1;
    let l = normalizers[last];
    &&& current[last * per_chunk + position].valid()
    &&& l.product(current[last * per_chunk + position]).sum(
        dot(normalizers, across_chunks(initial, per_chunk, position, normalizers.len()), done),
    ) == l.product(initial[last * per_chunk + position])
}

proof fn lemma_chunk_index(chunk: int, per_chunk: int, position: int, count: int)
    requires
        0 <= chunk < count,
        0 <= position < per_chunk,
    ensures
        0 <= chunk * per_chunk + position < count * per_chunk,
        chunk < count - 1 ==> chunk * per_chunk + position < (count - 1) * per_chunk,
        chunk * per_chunk >= 0,
{
    assert(0 <= chunk * per_chunk && chunk * per_chunk + per_chunk <= count * per_chunk)
        by (nonlinear_arith)
        requires
            0 <= chunk < count,
            0 < per_chunk,
    ;
    if chunk < count - 1 {
        assert(chunk * per_chunk + per_chunk <= (count - 1) * per_chunk) by (nonlinear_arith)
            requires
                0 <= chunk < count - 1,
                0 < per_chunk,
        ;
    }
}

/// Fill the final quotient randomizer so the selector-weighted sum is zero.
///
/// If `c_i` are the quotient selector normalizers, this enforces
/// `sum_i c_i t_i = 0` at every coefficient position, whatever the final randomizer held.
/// Consequently adding `Z_{H_i} t_i` to chunk `i` preserves the recomposed quotient polynomial.
pub fn balance_quotient_randomizers<F: Field>(
    normalizers: &[F],
    values_per_chunk: usize,
    randomizers: &mut Vec<F>,
) -> (r: Option<()>)
    requires
        all_valid(normalizers@),
        all_valid(old(randomizers)@),
    ensures
        r is Some <==> can_balance(
            normalizers@,
            values_per_chunk as nat,
            old(randomizers)@.len(),
        ),
        r is None ==> final(randomizers)@ == old(randomizers)@,
        r is Some ==> {
            &&& final(randomizers)@.len() == old(randomizers)@.len()
            &&& all_valid(final(randomizers)@)
            &&& forall|i: int|
                0 <= i < (normalizers@.len() - 1) * values_per_chunk ==> #[trigger] final(randomizers)@[i]
                    == old(randomizers)@[i]
            &&& forall|position: int|
                0 <= position < values_per_chunk ==> dot(
                    normalizers@,
                    #[trigger] across_chunks(
                        final(randomizers)@,
                        values_per_chunk as nat,
                        position,
                        normalizers@.len(),
                    ),
                    normalizers@.len(),
                ) == F::zero_value()
        },
{
    let count: usize = normalizers.len();
    let available: usize = randomizers.len();
    if count < 2 || values_per_chunk == 0 {
        return None;
    }
    let total: usize = count.checked_mul(values_per_chunk)?;
    if total != available {
        return None;
    }
    let last_chunk: usize = count - 1;
    let last_normalizer_inv: F = normalizers[last_chunk].try_inverse()?;
    let ghost norms = normalizers@;
    let ghost per = values_per_chunk as nat;
    let ghost given = randomizers@;
    proof {
        F::constants_are_valid();
        lemma_mul_is_distributive_add_other_way(per as int, last_chunk as int, 1);
        lemma_mul_nonnegative(last_chunk as int, per as int);
    }
    let first: usize = last_chunk * values_per_chunk;
    let mut cleared: usize = first;
    while cleared < total
        invariant
            first <= cleared <= total,
            total == given.len(),
            randomizers@.len() == given.len(),
            all_valid(given),
            F::zero_value().valid(),
            forall|i: int| 0 <= i < first ==> #[trigger] randomizers@[i] == given[i],
            forall|i: int|
                first <= i < cleared ==> #[trigger] randomizers@[i] == F::zero_value(),
        decreases total - cleared,
    {
        randomizers.set(cleared, F::zero());
        cleared = cleared + 1;
    }
    let ghost initial = randomizers@;
    proof {
        assert forall|i: int| 0 <= i < initial.len() implies (#[trigger] initial[i]).valid() by {
            if i < first {
                assert(initial[i] == given[i]);
            }
        }
        assert forall|position: int| 0 <= position < per implies #[trigger] settled(
            norms,
            initial,
            initial,
            per,
            position,
            0,
        ) by {
            lemma_chunk_index(last_chunk as int, per as int, position, count as int);
            let x = initial[last_chunk * per + position];
            F::ring_laws(norms[last_chunk as int], x, x);
            F::ring_laws(norms[last_chunk as int].product(x), x, x);
        }
    }
    let mut chunk: usize = 0;
    while chunk < last_chunk
        invariant
            chunk <= last_chunk,
            count == normalizers@.len(),
            last_chunk == count - 1,
            norms == normalizers@,
            per == values_per_chunk,
            per > 0,
            all_valid(norms),
            all_valid(initial),
            initial.len() == count * values_per_chunk,
            randomizers@.len() == initial.len(),
            total == initial.len(),
            last_normalizer_inv.valid(),
            norms[last_chunk as int].product(last_normalizer_inv) == F::one_value(),
            forall|i: int| 0 <= i < last_chunk * per ==> #[trigger] randomizers@[i] == initial[i],
            forall|position: int|
                0 <= position < per ==> #[trigger] settled(
                    norms,
                    initial,
                    randomizers@,
                    per,
                    position,
                    chunk as nat,
                ),
        decreases last_chunk - chunk,
    {
        proof {
            F::ring_laws(norms[chunk as int], last_normalizer_inv, last_normalizer_inv);
        }
        let multiplier: F = normalizers[chunk].times(last_normalizer_inv);
        let mut offset: usize = 0;
        while offset < values_per_chunk
            invariant
                chunk < last_chunk,
                offset <= values_per_chunk,
                count == normalizers@.len(),
                last_chunk == count - 1,
                norms == normalizers@,
                per == values_per_chunk,
                per > 0,
                all_valid(norms),
                all_valid(initial),
                initial.len() == count * values_per_chunk,
                randomizers@.len() == initial.len(),
                total == initial.len(),
                last_normalizer_inv.valid(),
                multiplier == norms[chunk as int].product(last_normalizer_inv),
                multiplier.valid(),
                norms[last_chunk as int].product(last_normalizer_inv) == F::one_value(),
                forall|i: int|
                    0 <= i < last_chunk * per ==> #[trigger] randomizers@[i] == initial[i],
                forall|position: int|
                    0 <= position < offset ==> #[trigger] settled(
                        norms,
                        initial,
                        randomizers@,
                        per,
                        position,
                        (chunk + 1) as nat,
                    ),
                forall|position: int|
                    offset <= position < per ==> #[trigger] settled(
                        norms,
                        initial,
                        randomizers@,
                        per,
                        position,
                        chunk as nat,
                    ),
            decreases values_per_chunk - offset,
        {
            proof {
                lemma_chunk_index(chunk as int, per as int, offset as int, count as int);
                lemma_chunk_index(last_chunk as int, per as int, offset as int, count as int);
            }
            let source: usize = chunk * values_per_chunk + offset;
            let target: usize = last_chunk * values_per_chunk + offset;
            let ghost before = randomizers@;
            proof {
                assert(settled(norms, initial, before, per, offset as int, chunk as nat));
                let column = across_chunks(initial, per, offset as int, count as nat);
                assert forall|i: int| 0 <= i < column.len() implies (#[trigger] column[i]).valid() by {
                    lemma_chunk_index(i, per as int, offset as int, count as int);
                }
                lemma_dot_valid(norms, column, chunk as nat);
                lemma_balance_step(
                    norms[last_chunk as int],
                    last_normalizer_inv,
                    norms[chunk as int],
                    initial[source as int],
                    before[target as int],
                    dot(norms, column, chunk as nat),
                );
            }
            let value: F = randomizers[source].times(multiplier);
            let balanced: F = randomizers[target].minus(value);
            randomizers.set(target, balanced);
            proof {
                let column = across_chunks(initial, per, offset as int, count as nat);
                assert(dot(norms, column, (chunk + 1) as nat) == dot(
                    norms,
                    column,
                    chunk as nat,
                ).sum(norms[chunk as int].product(initial[source as int])));
                assert forall|position: int| 0 <= position < offset + 1 implies #[trigger] settled(
                    norms,
                    initial,
                    randomizers@,
                    per,
                    position,
                    (chunk + 1) as nat,
                ) by {
                    lemma_chunk_index(last_chunk as int, per as int, position, count as int);
                    if position < offset {
                        assert(settled(norms, initial, before, per, position, (chunk + 1) as nat));
                    }
                }
                assert forall|position: int| offset + 1 <= position < per implies #[trigger] settled(
                    norms,
                    initial,
                    randomizers@,
                    per,
                    position,
                    chunk as nat,
                ) by {
                    lemma_chunk_index(last_chunk as int, per as int, position, count as int);
                    assert(settled(norms, initial, before, per, position, chunk as nat));
                }
            }
            offset = offset + 1;
        }
        let ghost done = (chunk + 1) as nat;
        chunk = chunk + 1;
        assert forall|position: int| 0 <= position < per implies #[trigger] settled(
            norms,
            initial,
            randomizers@,
            per,
            position,
            chunk as nat,
        ) by {
            assert(settled(norms, initial, randomizers@, per, position, done));
        }
    }
    proof {
        assert forall|i: int| 0 <= i < randomizers@.len() implies (#[trigger] randomizers@[i]).valid()
            by {
            if i >= last_chunk * per {
                let position = i - last_chunk * per;
                lemma_mul_is_distributive_add_other_way(per as int, last_chunk as int, 1);
                assert(settled(norms, initial, randomizers@, per, position, last_chunk as nat));
            }
        }
        assert forall|position: int| 0 <= position < per implies dot(
            norms,
            #[trigger] across_chunks(randomizers@, per, position, norms.len()),
            norms.len(),
        ) == F::zero_value() by {
            lemma_chunk_index(last_chunk as int, per as int, position, count as int);
            assert(initial[last_chunk * per + position] == F::zero_value());
            lemma_product_zero(norms.last());
            assert(settled(norms, initial, randomizers@, per, position, last_chunk as nat));
            let was = across_chunks(initial, per, position, norms.len());
            let now = across_chunks(randomizers@, per, position, norms.len());
            assert forall|i: int| 0 <= i < last_chunk implies was[i] == now[i] by {
                lemma_chunk_index(i, per as int, position, count as int);
            }
            lemma_dot_agrees(norms, was, now, last_chunk as nat);
            assert forall|i: int| 0 <= i < was.len() implies (#[trigger] was[i]).valid() by {
                lemma_chunk_index(i, per as int, position, count as int);
            }
            lemma_dot_valid(norms, was, last_chunk as nat);
            let l = norms[last_chunk as int];
            let x = randomizers@[last_chunk * per + position];
            F::ring_laws(l, x, l);
            F::ring_laws(dot(norms, was, last_chunk as nat), l.product(x), l);
        }
    }
    Some(())
}

/// One column of a row-major matrix whose values begin at `start`.
pub open spec fn column_of<F: Field>(
    values: Seq<F>,
    start: int,
    width: nat,
    column: int,
    height: nat,
) -> Seq<F> {
    Seq::new(height, |row: int| values[start + row * width + column])
}

/// The coefficients of `q + (leading X^h - 1) t` for polynomials `q` and `t` of `h` coefficients,
/// filled up with zeros to `rows`.
pub open spec fn randomized_coefficients<F: Field>(
    q: Seq<F>,
    t: Seq<F>,
    leading: F,
    rows: nat,
) -> Seq<F> {
    Seq::new(
        rows,
        |k: int|
            if k < q.len() {
                q[k].difference(t[k])
            } else if k < 2 * q.len() {
                leading.product(t[k - q.len()])
            } else {
                F::zero_value()
            },
    )
}

/// The value at `x` of `leading X^size - 1`.
pub open spec fn vanishing_at<F: Field>(leading: F, size: nat, x: F) -> F {
    leading.product(power(x, size)).difference(F::one_value())
}

/// The coefficients of one randomized quotient chunk, filled up with zeros to `lde_height` rows.
///
/// `coefficients` holds the chunk's `chunk_size` coefficient rows, `randomizers` those of all
/// chunks. Column by column the result is `q(X) + (leading X^chunk_size - 1) t(X)`.
pub fn randomize_chunk_coefficients<F: Field>(
    coefficients: &[F],
    randomizers: &[F],
    chunk: usize,
    chunk_size: usize,
    width: usize,
    lde_height: usize,
    leading: F,
) -> (r: Vec<F>)
    requires
        all_valid(coefficients@),
        all_valid(randomizers@),
        leading.valid(),
        coefficients@.len() == chunk_size * width,
        (chunk + 1) * (chunk_size * width) <= randomizers@.len(),
        2 * chunk_size <= lde_height,
        lde_height * width <= usize::MAX,
    ensures
        r@.len() == lde_height * width,
        all_valid(r@),
        forall|column: int|
            0 <= column < width ==> #[trigger] column_of(
                r@,
                0,
                width as nat,
                column,
                lde_height as nat,
            ) == randomized_coefficients(
                column_of(coefficients@, 0, width as nat, column, chunk_size as nat),
                column_of(
                    randomizers@,
                    chunk * (chunk_size * width),
                    width as nat,
                    column,
                    chunk_size as nat,
                ),
                leading,
                lde_height as nat,
            ),
{
    let value_count: usize = coefficients.len();
    let randomizer_count: usize = randomizers.len();
    let ghost (w, h) = (width as nat, chunk_size as nat);
    let ghost start = chunk * (chunk_size * width);
    proof {
        assert(0 <= start && start + chunk_size * width <= randomizers@.len()) by (nonlinear_arith)
            requires
                start == chunk * (chunk_size * width),
                (chunk + 1) * (chunk_size * width) <= randomizers@.len(),
                chunk >= 0,
                chunk_size * width >= 0,
        ;
        F::constants_are_valid();
    }
    let first: usize = chunk * value_count;
    let mut values: Vec<F> = Vec::new();
    let mut row: usize = 0;
    while row < lde_height
        invariant
            row <= lde_height,
            all_valid(coefficients@),
            all_valid(randomizers@),
            leading.valid(),
            F::zero_value().valid(),
            w == width,
            h == chunk_size,
            first == start,
            value_count == coefficients@.len(),
            randomizer_count == randomizers@.len(),
            coefficients@.len() == chunk_size * width,
            0 <= start,
            start + chunk_size * width <= randomizers@.len(),
            2 * chunk_size <= lde_height,
            lde_height * width <= usize::MAX,
            values@.len() == row * width,
            all_valid(values@),
            forall|i: int, j: int|
                0 <= i < row && 0 <= j < width ==> #[trigger] cell(values@, w, i, j)
                    == randomized_coefficients(
                    column_of(coefficients@, 0, w, j, h),
                    column_of(randomizers@, start, w, j, h),
                    leading,
                    lde_height as nat,
                )[i],
        decreases lde_height - row,
    {
        let mut column: usize = 0;
        while column < width
            invariant
                row < lde_height,
                column <= width,
                all_valid(coefficients@),
                all_valid(randomizers@),
                leading.valid(),
                F::zero_value().valid(),
                w == width,
                h == chunk_size,
                first == start,
                value_count == coefficients@.len(),
                randomizer_count == randomizers@.len(),
                coefficients@.len() == chunk_size * width,
                0 <= start,
                start + chunk_size * width <= randomizers@.len(),
                2 * chunk_size <= lde_height,
                lde_height * width <= usize::MAX,
                values@.len() == row * width + column,
                all_valid(values@),
                forall|i: int, j: int|
                    0 <= j < width && (0 <= i < row || (i == row && j < column)) ==> #[trigger] cell(
                        values@,
                        w,
                        i,
                        j,
                    ) == randomized_coefficients(
                        column_of(coefficients@, 0, w, j, h),
                        column_of(randomizers@, start, w, j, h),
                        leading,
                        lde_height as nat,
                    )[i],
            decreases width - column,
        {
            let ghost before = values@;
            let value: F = if row < chunk_size {
                proof {
                    lemma_cell_index(row as int, column as int, width as int, chunk_size as int);
                    F::ring_laws(
                        coefficients@[row * width + column],
                        randomizers@[start + row * width + column],
                        leading,
                    );
                }
                let index: usize = row * width + column;
                coefficients[index].minus(randomizers[first + index])
            } else if row - chunk_size < chunk_size {
                proof {
                    lemma_cell_index(
                        row - chunk_size,
                        column as int,
                        width as int,
                        chunk_size as int,
                    );
                    F::ring_laws(
                        leading,
                        randomizers@[start + (row - chunk_size) * width + column],
                        leading,
                    );
                }
                let index: usize = (row - chunk_size) * width + column;
                leading.times(randomizers[first + index])
            } else {
                F::zero()
            };
            values.push(value);
            proof {
                assert forall|i: int, j: int|
                    0 <= j < width && (0 <= i < row || (i == row && j < column + 1)) implies #[trigger] cell(
                    values@,
                    w,
                    i,
                    j,
                ) == randomized_coefficients(
                    column_of(coefficients@, 0, w, j, h),
                    column_of(randomizers@, start, w, j, h),
                    leading,
                    lde_height as nat,
                )[i] by {
                    if i < row || j < column {
                        lemma_cell_order(i, j, row as int, column as int, width as int);
                        assert(cell(values@, w, i, j) == cell(before, w, i, j));
                    }
                }
            }
            column = column + 1;
        }
        proof {
            lemma_mul_is_distributive_add_other_way(width as int, row as int, 1);
        }
        row = row + 1;
    }
    proof {
        assert forall|column: int| 0 <= column < width implies #[trigger] column_of(
            values@,
            0,
            w,
            column,
            lde_height as nat,
        ) == randomized_coefficients(
            column_of(coefficients@, 0, w, column, h),
            column_of(randomizers@, start, w, column, h),
            leading,
            lde_height as nat,
        ) by {
            let made = column_of(values@, 0, w, column, lde_height as nat);
            let wanted = randomized_coefficients(
                column_of(coefficients@, 0, w, column, h),
                column_of(randomizers@, start, w, column, h),
                leading,
                lde_height as nat,
            );
            assert forall|i: int| 0 <= i < lde_height implies made[i] == wanted[i] by {
                assert(made[i] == cell(values@, w, i, column));
            }
            assert(made =~= wanted);
        }
    }
    values
}

/// Randomizers can be balanced exactly where there are two chunks or more, none is empty, there is a
/// value for each position of each chunk, and the last chunk's normalizer is not zero.
pub proof fn law_balancing_needs_two_full_chunks<F: Field>(
    normalizers: Seq<F>,
    per_chunk: nat,
    value_count: nat,
)
    requires
        normalizers.len() >= 1,
    ensures
        can_balance(normalizers, per_chunk, value_count) ==> value_count >= 2 * per_chunk
            && value_count > 0,
        can_balance(normalizers, per_chunk, value_count) ==> normalizers[normalizers.len() - 1]
            != F::zero_value(),
        normalizers[normalizers.len() - 1] != F::zero_value() && normalizers.len() >= 2 && per_chunk
            >= 1 ==> (can_balance(normalizers, per_chunk, value_count) <==> value_count
            == normalizers.len() * per_chunk),
{
    let (n, p) = (normalizers.len() as int, per_chunk as int);
    if can_balance(normalizers, per_chunk, value_count) {
        assert(n * p >= 2 * p && n * p > 0) by (nonlinear_arith)
            requires
                n >= 2,
                p > 0,
        ;
    }
}

} // verus!
