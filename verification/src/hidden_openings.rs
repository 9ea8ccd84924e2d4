//! The split of opened values into a public and a hidden part, and their merging.
//!
//! ```text
//!     public (per point):  [v_0, .., v_k]
//!     hidden (per point):                [r_0, .., r_m]
//!     merged:              [v_0, .., v_k,  r_0, .., r_m]
//! ```
//!
//! The parts nest identically: by round, then matrix, then point.
use crate::slices::copy_slice;
use vstd::prelude::*;
use vstd::slice::slice_subrange;

verus! {

/// Values by round, matrix and point.
pub type Openings<T> = Vec<Vec<Vec<Vec<T>>>>;

/// How many values of each point of a round belong to random codewords: none in the preprocessed
/// round.
pub open spec fn hidden_count(
    round: int,
    codewords: nat,
    is_preprocessing: bool,
    preprocessed_round: nat,
) -> nat {
    if is_preprocessing && round == preprocessed_round {
        0
    } else {
        codewords
    }
}

/// The values of a point are its public values followed by `count` hidden ones.
pub open spec fn is_split_point<T>(full: Seq<T>, public: Seq<T>, hidden: Seq<T>, count: nat) -> bool {
    full == public + hidden && hidden.len() == count
}

/// Every point of a matrix is split.
pub open spec fn is_split_matrix<T>(
    full: Seq<Vec<T>>,
    public: Seq<Vec<T>>,
    hidden: Seq<Vec<T>>,
    count: nat,
) -> bool {
    &&& public.len() == full.len()
    &&& hidden.len() == full.len()
    &&& forall|p: int|
        0 <= p < full.len() ==> is_split_point(
            (#[trigger] full[p])@,
            public[p]@,
            hidden[p]@,
            count,
        )
}

/// Every matrix of a round is split.
pub open spec fn is_split_round<T>(
    full: Seq<Vec<Vec<T>>>,
    public: Seq<Vec<Vec<T>>>,
    hidden: Seq<Vec<Vec<T>>>,
    count: nat,
) -> bool {
    &&& public.len() == full.len()
    &&& hidden.len() == full.len()
    &&& forall|m: int|
        0 <= m < full.len() ==> is_split_matrix(
            (#[trigger] full[m])@,
            public[m]@,
            hidden[m]@,
            count,
        )
}

/// Every round is split.
pub open spec fn is_split<T>(
    full: Seq<Vec<Vec<Vec<T>>>>,
    public: Seq<Vec<Vec<Vec<T>>>>,
    hidden: Seq<Vec<Vec<Vec<T>>>>,
    codewords: nat,
    is_preprocessing: bool,
    preprocessed_round: nat,
) -> bool {
    &&& public.len() == full.len()
    &&& hidden.len() == full.len()
    &&& forall|r: int|
        0 <= r < full.len() ==> is_split_round(
            (#[trigger] full[r])@,
            public[r]@,
            hidden[r]@,
            hidden_count(r, codewords, is_preprocessing, preprocessed_round),
        )
}

/// Every point of a matrix has at least `count` values.
pub open spec fn matrix_has_hidden<T>(full: Seq<Vec<T>>, count: nat) -> bool {
    forall|p: int| 0 <= p < full.len() ==> (#[trigger] full[p])@.len() >= count
}

/// Every point of a round has at least `count` values.
pub open spec fn round_has_hidden<T>(full: Seq<Vec<Vec<T>>>, count: nat) -> bool {
    forall|m: int| 0 <= m < full.len() ==> matrix_has_hidden((#[trigger] full[m])@, count)
}

/// Every point has at least as many values as its round hides.
pub open spec fn has_hidden<T>(
    full: Seq<Vec<Vec<Vec<T>>>>,
    codewords: nat,
    is_preprocessing: bool,
    preprocessed_round: nat,
) -> bool {
    forall|r: int|
        0 <= r < full.len() ==> round_has_hidden(
            (#[trigger] full[r])@,
            hidden_count(r, codewords, is_preprocessing, preprocessed_round),
        )
}

fn split_matrix<T: Copy>(full: &Vec<Vec<T>>, count: usize) -> (r: Option<
    (Vec<Vec<T>>, Vec<Vec<T>>),
>)
    ensures
        r is Some <==> matrix_has_hidden(full@, count as nat),
        r matches Some(parts) ==> is_split_matrix(full@, parts.0@, parts.1@, count as nat),
{
    let length: usize = full.len();
    let mut public: Vec<Vec<T>> = Vec::new();
    let mut hidden: Vec<Vec<T>> = Vec::new();
    let mut p: usize = 0;
    while p < length
        invariant
            p <= length,
            length == full@.len(),
            public@.len() == p,
            hidden@.len() == p,
            forall|j: int|
                0 <= j < p ==> is_split_point(
                    (#[trigger] full@[j])@,
                    public@[j]@,
                    hidden@[j]@,
                    count as nat,
                ),
        decreases length - p,
    {
        let available: usize = full[p].len();
        if available < count {
            return None;
        }
        let split: usize = available - count;
        let values: &[T] = full[p].as_slice();
        let front: Vec<T> = copy_slice(slice_subrange(values, 0, split));
        let back: Vec<T> = copy_slice(slice_subrange(values, split, available));
        assert(full@[p as int]@ =~= front@ + back@);
        public.push(front);
        hidden.push(back);
        p = p + 1;
    }
    proof {
        assert forall|j: int| 0 <= j < full@.len() implies (#[trigger] full@[j])@.len()
            >= count as nat by {
            assert(is_split_point(full@[j]@, public@[j]@, hidden@[j]@, count as nat));
        }
    }
    Some((public, hidden))
}

fn split_round<T: Copy>(full: &Vec<Vec<Vec<T>>>, count: usize) -> (r: Option<
    (Vec<Vec<Vec<T>>>, Vec<Vec<Vec<T>>>),
>)
    ensures
        r is Some <==> round_has_hidden(full@, count as nat),
        r matches Some(parts) ==> is_split_round(full@, parts.0@, parts.1@, count as nat),
{
    let length: usize = full.len();
    let mut public: Vec<Vec<Vec<T>>> = Vec::new();
    let mut hidden: Vec<Vec<Vec<T>>> = Vec::new();
    let mut m: usize = 0;
    while m < length
        invariant
            m <= length,
            length == full@.len(),
            public@.len() == m,
            hidden@.len() == m,
            forall|j: int|
                0 <= j < m ==> matrix_has_hidden((#[trigger] full@[j])@, count as nat),
            forall|j: int|
                0 <= j < m ==> is_split_matrix(
                    (#[trigger] full@[j])@,
                    public@[j]@,
                    hidden@[j]@,
                    count as nat,
                ),
        decreases length - m,
    {
        match split_matrix(&full[m], count) {
            Some((front, back)) => {
                public.push(front);
                hidden.push(back);
            },
            None => {
                return None;
            },
        }
        m = m + 1;
    }
    Some((public, hidden))
}

/// Splits off the values of the random codewords, which are the last of each point, or gives
/// nothing where a point has fewer values than that.
///
/// The first part is for the caller; the second part travels in the proof.
pub fn split_opened_values<T: Copy>(
    full: &Openings<T>,
    codewords: usize,
    is_preprocessing: bool,
    preprocessed_round: usize,
) -> (r: Option<(Openings<T>, Openings<T>)>)
    ensures
        r is Some <==> has_hidden(
            full@,
            codewords as nat,
            is_preprocessing,
            preprocessed_round as nat,
        ),
        r matches Some(parts) ==> is_split(
            full@,
            parts.0@,
            parts.1@,
            codewords as nat,
            is_preprocessing,
            preprocessed_round as nat,
        ),
{
    let length: usize = full.len();
    let mut public: Openings<T> = Vec::new();
    let mut hidden: Openings<T> = Vec::new();
    let mut round: usize = 0;
    while round < length
        invariant
            round <= length,
            length == full@.len(),
            public@.len() == round,
            hidden@.len() == round,
            forall|j: int|
                0 <= j < round ==> round_has_hidden(
                    (#[trigger] full@[j])@,
                    hidden_count(
                        j,
                        codewords as nat,
                        is_preprocessing,
                        preprocessed_round as nat,
                    ),
                ),
            forall|j: int|
                0 <= j < round ==> is_split_round(
                    (#[trigger] full@[j])@,
                    public@[j]@,
                    hidden@[j]@,
                    hidden_count(
                        j,
                        codewords as nat,
                        is_preprocessing,
                        preprocessed_round as nat,
                    ),
                ),
        decreases length - round,
    {
        let count: usize = if is_preprocessing && round == preprocessed_round {
            0
        } else {
            codewords
        };
        match split_round(&full[round], count) {
            Some((front, back)) => {
                public.push(front);
                hidden.push(back);
            },
            None => {
                return None;
            },
        }
        round = round + 1;
    }
    Some((public, hidden))
}

/// Where the nesting of the hidden openings differs from that of the public ones.
#[derive(Clone, Copy, Debug, PartialEq, Eq)]
pub enum HiddenOpeningError {
    /// There is not one set of random openings per round.
    HidingRandomOpeningRoundCountMismatch { expected: usize, got: usize },
    /// There is not one set of random openings per matrix of a round.
    HidingRandomOpeningMatrixCountMismatch { round: usize, expected: usize, got: usize },
    /// There is not one set of random openings per opening point of a matrix.
    HidingRandomOpeningPointCountMismatch {
        round: usize,
        matrix: usize,
        expected: usize,
        got: usize,
    },
}

/// The two rounds have as many points for each of their first `count` matrices.
pub open spec fn matrices_nest_alike<T>(
    public: Seq<Vec<Vec<T>>>,
    hidden: Seq<Vec<Vec<T>>>,
    count: int,
) -> bool {
    forall|m: int| 0 <= m < count ==> (#[trigger] public[m])@.len() == hidden[m]@.len()
}

/// The first `count` rounds have as many matrices, with as many points each.
pub open spec fn rounds_nest_alike<T>(
    public: Seq<Vec<Vec<Vec<T>>>>,
    hidden: Seq<Vec<Vec<Vec<T>>>>,
    count: int,
) -> bool {
    forall|r: int|
        0 <= r < count ==> (#[trigger] public[r])@.len() == hidden[r]@.len()
            && matrices_nest_alike(public[r]@, hidden[r]@, public[r]@.len() as int)
}

/// The error names the first place, round by round and matrix by matrix, where the nesting differs.
pub open spec fn is_first_mismatch<T>(
    error: HiddenOpeningError,
    public: Seq<Vec<Vec<Vec<T>>>>,
    hidden: Seq<Vec<Vec<Vec<T>>>>,
) -> bool {
    match error {
        HiddenOpeningError::HidingRandomOpeningRoundCountMismatch { expected, got } => {
            &&& expected == public.len()
            &&& got == hidden.len()
            &&& expected != got
        },
        HiddenOpeningError::HidingRandomOpeningMatrixCountMismatch { round, expected, got } => {
            &&& public.len() == hidden.len()
            &&& round < public.len()
            &&& rounds_nest_alike(public, hidden, round as int)
            &&& expected == public[round as int]@.len()
            &&& got == hidden[round as int]@.len()
            &&& expected != got
        },
        HiddenOpeningError::HidingRandomOpeningPointCountMismatch {
            round,
            matrix,
            expected,
            got,
        } => {
            let public_round = public[round as int]@;
            let hidden_round = hidden[round as int]@;
            &&& public.len() == hidden.len()
            &&& round < public.len()
            &&& rounds_nest_alike(public, hidden, round as int)
            &&& public_round.len() == hidden_round.len()
            &&& matrix < public_round.len()
            &&& matrices_nest_alike(public_round, hidden_round, matrix as int)
            &&& expected == public_round[matrix as int]@.len()
            &&& got == hidden_round[matrix as int]@.len()
            &&& expected != got
        },
    }
}

/// Every point's merged values are its public ones followed by its hidden ones.
pub open spec fn is_merged_matrix<T>(
    merged: Seq<Vec<T>>,
    public: Seq<Vec<T>>,
    hidden: Seq<Vec<T>>,
) -> bool {
    &&& merged.len() == public.len()
    &&& forall|p: int|
        0 <= p < merged.len() ==> (#[trigger] merged[p])@ == public[p]@ + hidden[p]@
}

/// Every matrix of a round is merged.
pub open spec fn is_merged_round<T>(
    merged: Seq<Vec<Vec<T>>>,
    public: Seq<Vec<Vec<T>>>,
    hidden: Seq<Vec<Vec<T>>>,
) -> bool {
    &&& merged.len() == public.len()
    &&& forall|m: int|
        0 <= m < merged.len() ==> is_merged_matrix(
            (#[trigger] merged[m])@,
            public[m]@,
            hidden[m]@,
        )
}

/// Every round is merged.
pub open spec fn is_merged<T>(
    merged: Seq<Vec<Vec<Vec<T>>>>,
    public: Seq<Vec<Vec<Vec<T>>>>,
    hidden: Seq<Vec<Vec<Vec<T>>>>,
) -> bool {
    &&& merged.len() == public.len()
    &&& forall|r: int|
        0 <= r < merged.len() ==> is_merged_round((#[trigger] merged[r])@, public[r]@, hidden[r]@)
}

fn merge_matrix<T: Copy>(public: &Vec<Vec<T>>, hidden: &Vec<Vec<T>>) -> (r: Vec<Vec<T>>)
    requires
        public@.len() == hidden@.len(),
    ensures
        is_merged_matrix(r@, public@, hidden@),
{
    let length: usize = public.len();
    let mut merged: Vec<Vec<T>> = Vec::new();
    let mut p: usize = 0;
    while p < length
        invariant
            p <= length,
            length == public@.len(),
            length == hidden@.len(),
            merged@.len() == p,
            forall|j: int| 0 <= j < p ==> (#[trigger] merged@[j])@ == public@[j]@ + hidden@[j]@,
        decreases length - p,
    {
        let mut values: Vec<T> = copy_slice(public[p].as_slice());
        let mut tail: Vec<T> = copy_slice(hidden[p].as_slice());
        values.append(&mut tail);
        merged.push(values);
        p = p + 1;
    }
    merged
}

/// Re-joins the public and the hidden part of the openings.
///
/// A mismatch in nesting gives a precise error.
pub fn merge_hidden_openings<T: Copy>(public: &Openings<T>, hidden: &Openings<T>) -> (r: Result<
    Openings<T>,
    HiddenOpeningError,
>)
    ensures
        match r {
            Err(error) => is_first_mismatch(error, public@, hidden@),
            Ok(merged) => {
                &&& public@.len() == hidden@.len()
                &&& rounds_nest_alike(public@, hidden@, public@.len() as int)
                &&& is_merged(merged@, public@, hidden@)
            },
        },
{
    let length: usize = public.len();
    if hidden.len() != length {
        return Err(
            HiddenOpeningError::HidingRandomOpeningRoundCountMismatch {
                expected: length,
                got: hidden.len(),
            },
        );
    }
    let mut merged: Openings<T> = Vec::new();
    let mut round: usize = 0;
    while round < length
        invariant
            round <= length,
            length == public@.len(),
            length == hidden@.len(),
            merged@.len() == round,
            rounds_nest_alike(public@, hidden@, round as int),
            forall|j: int|
                0 <= j < round ==> is_merged_round(
                    (#[trigger] merged@[j])@,
                    public@[j]@,
                    hidden@[j]@,
                ),
        decreases length - round,
    {
        let expected: usize = public[round].len();
        let got: usize = hidden[round].len();
        if got != expected {
            return Err(
                HiddenOpeningError::HidingRandomOpeningMatrixCountMismatch { round, expected, got },
            );
        }
        let mut merged_round: Vec<Vec<Vec<T>>> = Vec::new();
        let mut matrix: usize = 0;
        while matrix < expected
            invariant
                round < length,
                length == public@.len(),
                length == hidden@.len(),
                matrix <= expected,
                expected == public@[round as int]@.len(),
                expected == hidden@[round as int]@.len(),
                merged_round@.len() == matrix,
                rounds_nest_alike(public@, hidden@, round as int),
                matrices_nest_alike(
                    public@[round as int]@,
                    hidden@[round as int]@,
                    matrix as int,
                ),
                forall|j: int|
                    0 <= j < matrix ==> is_merged_matrix(
                        (#[trigger] merged_round@[j])@,
                        public@[round as int]@[j]@,
                        hidden@[round as int]@[j]@,
                    ),
            decreases expected - matrix,
        {
            let public_points: usize = public[round][matrix].len();
            let hidden_points: usize = hidden[round][matrix].len();
            if hidden_points != public_points {
                return Err(
                    HiddenOpeningError::HidingRandomOpeningPointCountMismatch {
                        round,
                        matrix,
                        expected: public_points,
                        got: hidden_points,
                    },
                );
            }
            merged_round.push(merge_matrix(&public[round][matrix], &hidden[round][matrix]));
            matrix = matrix + 1;
        }
        merged.push(merged_round);
        round = round + 1;
    }
    Ok(merged)
}

/// What was split merges to what it was: the nesting agrees, and every point has its values back.
pub proof fn law_merging_undoes_splitting<T>(
    full: Seq<Vec<Vec<Vec<T>>>>,
    public: Seq<Vec<Vec<Vec<T>>>>,
    hidden: Seq<Vec<Vec<Vec<T>>>>,
    merged: Seq<Vec<Vec<Vec<T>>>>,
    codewords: nat,
    is_preprocessing: bool,
    preprocessed_round: nat,
)
    requires
        is_split(full, public, hidden, codewords, is_preprocessing, preprocessed_round),
    ensures
        public.len() == hidden.len(),
        rounds_nest_alike(public, hidden, public.len() as int),
        is_merged(merged, public, hidden) ==> {
            &&& merged.len() == full.len()
            &&& forall|r: int|
                0 <= r < full.len() ==> (#[trigger] full[r])@.len() == merged[r]@.len()
            &&& forall|r: int, m: int|
                0 <= r < full.len() && 0 <= m < full[r]@.len() ==> (
                #[trigger] full[r]@[m])@.len() == merged[r]@[m]@.len()
            &&& forall|r: int, m: int, p: int|
                0 <= r < full.len() && 0 <= m < full[r]@.len() && 0 <= p < full[r]@[m]@.len() ==> (
                #[trigger] full[r]@[m]@[p])@ == merged[r]@[m]@[p]@
        },
{
    assert forall|r: int| 0 <= r < public.len() implies (#[trigger] public[r])@.len()
        == hidden[r]@.len() && matrices_nest_alike(
        public[r]@,
        hidden[r]@,
        public[r]@.len() as int,
    ) by {
        let f = full[r]@;
        assert(is_split_round(
            f,
            public[r]@,
            hidden[r]@,
            hidden_count(r, codewords, is_preprocessing, preprocessed_round),
        ));
        assert forall|m: int| 0 <= m < public[r]@.len() implies (#[trigger] public[r]@[m])@.len()
            == hidden[r]@[m]@.len() by {
            assert(f[m]@.len() == public[r]@[m]@.len());
        }
    }
    if is_merged(merged, public, hidden) {
        assert forall|r: int| 0 <= r < full.len() implies (#[trigger] full[r])@.len()
            == merged[r]@.len() by {
            assert(is_merged_round(merged[r]@, public[r]@, hidden[r]@));
        }
        assert forall|r: int, m: int| 0 <= r < full.len() && 0 <= m < full[r]@.len() implies (
        #[trigger] full[r]@[m])@.len() == merged[r]@[m]@.len() by {
            assert(full[r]@.len() == merged[r]@.len());
            assert(is_merged_round(merged[r]@, public[r]@, hidden[r]@));
            assert(is_merged_matrix(merged[r]@[m]@, public[r]@[m]@, hidden[r]@[m]@));
        }
        assert forall|r: int, m: int, p: int|
            0 <= r < full.len() && 0 <= m < full[r]@.len() && 0 <= p < full[r]@[m]@.len() implies (
        #[trigger] full[r]@[m]@[p])@ == merged[r]@[m]@[p]@ by {
            assert(full[r]@.len() == merged[r]@.len());
            assert(full[r]@[m]@.len() == merged[r]@[m]@.len());
            assert(is_merged_round(merged[r]@, public[r]@, hidden[r]@));
            assert(is_merged_matrix(merged[r]@[m]@, public[r]@[m]@, hidden[r]@[m]@));
            assert(merged[r]@[m]@[p]@ == public[r]@[m]@[p]@ + hidden[r]@[m]@[p]@);
        }
    }
}

/// What a split gives, point by point, over the arguments of the call.
///
/// Each point's values are its public ones followed by its hidden ones. In every round but the
/// preprocessed one, and where nothing is preprocessed in every round, as many are hidden as there
/// are random codewords; in the preprocessed round none is. There is a split exactly where every
/// point of those rounds has that many values.
pub proof fn law_every_round_but_the_preprocessed_hides_its_codewords<T: Copy>(
    full: Openings<T>,
    codewords: usize,
    is_preprocessing: bool,
    preprocessed_round: usize,
    result: Option<(Openings<T>, Openings<T>)>,
)
    requires
        call_ensures(
            split_opened_values::<T>,
            (&full, codewords, is_preprocessing, preprocessed_round),
            result,
        ),
    ensures
        result is Some <==> forall|r: int, m: int, p: int|
            0 <= r < full@.len() && 0 <= m < full@[r]@.len() && 0 <= p < full@[r]@[m]@.len() && !(
            is_preprocessing && r == preprocessed_round) ==> (
            #[trigger] full@[r]@[m]@[p])@.len() >= codewords,
        result matches Some(parts) ==> {
            let (public, hidden) = (parts.0, parts.1);
            &&& public@.len() == full@.len() && hidden@.len() == full@.len()
            &&& forall|r: int|
                0 <= r < full@.len() ==> (#[trigger] full@[r])@.len() == public@[r]@.len()
                    && full@[r]@.len() == hidden@[r]@.len()
            &&& forall|r: int, m: int|
                0 <= r < full@.len() && 0 <= m < full@[r]@.len() ==> (
                #[trigger] full@[r]@[m])@.len() == public@[r]@[m]@.len() && full@[r]@[m]@.len()
                    == hidden@[r]@[m]@.len()
            &&& forall|r: int, m: int, p: int|
                0 <= r < full@.len() && 0 <= m < full@[r]@.len() && 0 <= p < full@[r]@[m]@.len() ==> {
                    let values = (#[trigger] full@[r]@[m]@[p])@;
                    let (shown, kept) = (public@[r]@[m]@[p]@, hidden@[r]@[m]@[p]@);
                    &&& values == shown + kept
                    &&& !is_preprocessing || r != preprocessed_round ==> kept.len() == codewords
                        && shown.len() == values.len() - codewords
                    &&& is_preprocessing && r == preprocessed_round ==> kept.len() == 0 && shown
                        == values
                }
        },
{
    let enough = forall|r: int, m: int, p: int|
        0 <= r < full@.len() && 0 <= m < full@[r]@.len() && 0 <= p < full@[r]@[m]@.len() && !(
        is_preprocessing && r == preprocessed_round) ==> (#[trigger] full@[r]@[m]@[p])@.len()
            >= codewords;
    let given = has_hidden(
        full@,
        codewords as nat,
        is_preprocessing,
        preprocessed_round as nat,
    );
    if enough {
        assert forall|r: int| 0 <= r < full@.len() implies round_has_hidden(
            (#[trigger] full@[r])@,
            hidden_count(r, codewords as nat, is_preprocessing, preprocessed_round as nat),
        ) by {
            assert forall|m: int| 0 <= m < full@[r]@.len() implies matrix_has_hidden(
                (#[trigger] full@[r]@[m])@,
                hidden_count(r, codewords as nat, is_preprocessing, preprocessed_round as nat),
            ) by {
                assert forall|p: int| 0 <= p < full@[r]@[m]@.len() implies (
                #[trigger] full@[r]@[m]@[p])@.len() >= hidden_count(
                    r,
                    codewords as nat,
                    is_preprocessing,
                    preprocessed_round as nat,
                ) by {
                }
            }
        }
    }
    if given {
        assert forall|r: int, m: int, p: int|
            0 <= r < full@.len() && 0 <= m < full@[r]@.len() && 0 <= p < full@[r]@[m]@.len() && !(
            is_preprocessing && r == preprocessed_round) implies (
        #[trigger] full@[r]@[m]@[p])@.len() >= codewords by {
            let count = hidden_count(
                r,
                codewords as nat,
                is_preprocessing,
                preprocessed_round as nat,
            );
            assert(round_has_hidden(full@[r]@, count));
            assert(matrix_has_hidden(full@[r]@[m]@, count));
        }
    }
    if let Some(parts) = result {
        let (public, hidden) = (parts.0, parts.1);
        assert forall|r: int| 0 <= r < full@.len() implies (#[trigger] full@[r])@.len()
            == public@[r]@.len() && full@[r]@.len() == hidden@[r]@.len() by {
        }
        assert forall|r: int, m: int| 0 <= r < full@.len() && 0 <= m < full@[r]@.len() implies (
        #[trigger] full@[r]@[m])@.len() == public@[r]@[m]@.len() && full@[r]@[m]@.len()
            == hidden@[r]@[m]@.len() by {
            assert(is_split_round(
                full@[r]@,
                public@[r]@,
                hidden@[r]@,
                hidden_count(r, codewords as nat, is_preprocessing, preprocessed_round as nat),
            ));
        }
        assert forall|r: int, m: int, p: int|
            0 <= r < full@.len() && 0 <= m < full@[r]@.len() && 0 <= p
                < full@[r]@[m]@.len() implies {
            let values = (#[trigger] full@[r]@[m]@[p])@;
            let (shown, kept) = (public@[r]@[m]@[p]@, hidden@[r]@[m]@[p]@);
            &&& values == shown + kept
            &&& !is_preprocessing || r != preprocessed_round ==> kept.len() == codewords
                && shown.len() == values.len() - codewords
            &&& is_preprocessing && r == preprocessed_round ==> kept.len() == 0 && shown == values
        } by {
            let count = hidden_count(
                r,
                codewords as nat,
                is_preprocessing,
                preprocessed_round as nat,
            );
            assert(is_split_round(full@[r]@, public@[r]@, hidden@[r]@, count));
            assert(is_split_matrix(full@[r]@[m]@, public@[r]@[m]@, hidden@[r]@[m]@, count));
            let (shown, kept) = (public@[r]@[m]@[p]@, hidden@[r]@[m]@[p]@);
            assert(is_split_point(full@[r]@[m]@[p]@, shown, kept, count));
            if kept.len() == 0 {
                assert(shown + kept =~= shown);
            }
        }
    }
}

/// When openings merge, and to what, over the arguments of the call: exactly where there are as many
/// rounds, matrices and points on both sides, and then each point has its public values followed by
/// its hidden ones. Otherwise the error gives two numbers that differ, and all before that place agree.
pub proof fn law_openings_merge_point_by_point<T: Copy>(
    public: Openings<T>,
    hidden: Openings<T>,
    result: Result<Openings<T>, HiddenOpeningError>,
)
    requires
        call_ensures(merge_hidden_openings::<T>, (&public, &hidden), result),
    ensures
        result is Ok <==> {
            &&& public@.len() == hidden@.len()
            &&& forall|r: int|
                0 <= r < public@.len() ==> (#[trigger] public@[r])@.len() == hidden@[r]@.len()
            &&& forall|r: int, m: int|
                0 <= r < public@.len() && 0 <= m < public@[r]@.len() ==> (
                #[trigger] public@[r]@[m])@.len() == hidden@[r]@[m]@.len()
        },
        result matches Ok(merged) ==> {
            &&& merged@.len() == public@.len()
            &&& forall|r: int|
                0 <= r < public@.len() ==> (#[trigger] merged@[r])@.len() == public@[r]@.len()
            &&& forall|r: int, m: int|
                0 <= r < public@.len() && 0 <= m < public@[r]@.len() ==> (
                #[trigger] merged@[r]@[m])@.len() == public@[r]@[m]@.len()
            &&& forall|r: int, m: int, p: int|
                0 <= r < public@.len() && 0 <= m < public@[r]@.len() && 0 <= p
                    < public@[r]@[m]@.len() ==> (#[trigger] merged@[r]@[m]@[p])@
                    == public@[r]@[m]@[p]@ + hidden@[r]@[m]@[p]@
        },
        result matches Err(error) ==> match error {
            HiddenOpeningError::HidingRandomOpeningRoundCountMismatch { expected, got } => expected
                == public@.len() && got == hidden@.len() && expected != got,
            HiddenOpeningError::HidingRandomOpeningMatrixCountMismatch { round, expected, got } =>
                expected == public@[round as int]@.len() && got == hidden@[round as int]@.len()
                    && expected != got && public@.len() == hidden@.len() && round < public@.len() && (
                forall|r: int|
                    0 <= r < round ==> (#[trigger] public@[r])@.len() == hidden@[r]@.len()) && (
                forall|r: int, m: int|
                    0 <= r < round && 0 <= m < public@[r]@.len() ==> (
                    #[trigger] public@[r]@[m])@.len() == hidden@[r]@[m]@.len()),
            HiddenOpeningError::HidingRandomOpeningPointCountMismatch {
                round,
                matrix,
                expected,
                got,
            } => expected == public@[round as int]@[matrix as int]@.len() && got
                == hidden@[round as int]@[matrix as int]@.len() && expected != got
                && public@.len() == hidden@.len() && round < public@.len() && matrix
                < public@[round as int]@.len() && (forall|r: int|
                0 <= r <= round ==> (#[trigger] public@[r])@.len() == hidden@[r]@.len()) && (
            forall|r: int, m: int|
                (0 <= r < round && 0 <= m < public@[r]@.len() || r == round && 0 <= m < matrix) ==> (
                #[trigger] public@[r]@[m])@.len() == hidden@[r]@[m]@.len()),
        },
{
    if let Err(error) = result {
        let (round, matrix) = mismatch_place(error);
        assert forall|r: int, m: int|
            0 <= r < public@.len() && (0 <= r < round && 0 <= m < public@[r]@.len() || r == round
                && 0 <= m < matrix) implies (#[trigger] public@[r]@[m])@.len()
            == hidden@[r]@[m]@.len() by {
            if r < round {
                assert(public@[r]@.len() == hidden@[r]@.len());
                assert(matrices_nest_alike(public@[r]@, hidden@[r]@, public@[r]@.len() as int));
            } else {
                assert(matrices_nest_alike(public@[r]@, hidden@[r]@, matrix));
            }
        }
    }
    if let Ok(merged) = result {
        assert forall|r: int, m: int| 0 <= r < public@.len() && 0 <= m < public@[r]@.len() implies (
        #[trigger] public@[r]@[m])@.len() == hidden@[r]@[m]@.len() by {
            assert(public@[r]@.len() == hidden@[r]@.len());
            assert(matrices_nest_alike(public@[r]@, hidden@[r]@, public@[r]@.len() as int));
        }
        assert forall|r: int| 0 <= r < public@.len() implies (#[trigger] merged@[r])@.len()
            == public@[r]@.len() by {
            assert(is_merged_round(merged@[r]@, public@[r]@, hidden@[r]@));
        }
        assert forall|r: int, m: int| 0 <= r < public@.len() && 0 <= m < public@[r]@.len() implies (
        #[trigger] merged@[r]@[m])@.len() == public@[r]@[m]@.len() by {
            assert(is_merged_round(merged@[r]@, public@[r]@, hidden@[r]@));
            assert(is_merged_matrix(merged@[r]@[m]@, public@[r]@[m]@, hidden@[r]@[m]@));
        }
        assert forall|r: int, m: int, p: int|
            0 <= r < public@.len() && 0 <= m < public@[r]@.len() && 0 <= p
                < public@[r]@[m]@.len() implies (#[trigger] merged@[r]@[m]@[p])@
            == public@[r]@[m]@[p]@ + hidden@[r]@[m]@[p]@ by {
            assert(is_merged_round(merged@[r]@, public@[r]@, hidden@[r]@));
            assert(is_merged_matrix(merged@[r]@[m]@, public@[r]@[m]@, hidden@[r]@[m]@));
        }
    }
}

/// There is one first mismatch: two errors that both name it are the same.
pub proof fn law_first_mismatch_is_unique<T>(
    error: HiddenOpeningError,
    other: HiddenOpeningError,
    public: Seq<Vec<Vec<Vec<T>>>>,
    hidden: Seq<Vec<Vec<Vec<T>>>>,
)
    requires
        is_first_mismatch(error, public, hidden),
        is_first_mismatch(other, public, hidden),
    ensures
        error == other,
{
    let (place, other_place) = (mismatch_place(error), mismatch_place(other));
    if place.0 < other_place.0 {
        assert(public[place.0]@.len() == hidden[place.0]@.len());
        assert(matrices_nest_alike(
            public[place.0]@,
            hidden[place.0]@,
            public[place.0]@.len() as int,
        ));
    } else if other_place.0 < place.0 {
        assert(public[other_place.0]@.len() == hidden[other_place.0]@.len());
        assert(matrices_nest_alike(
            public[other_place.0]@,
            hidden[other_place.0]@,
            public[other_place.0]@.len() as int,
        ));
    }
}

/// The round and the matrix that an error names.
spec fn mismatch_place(error: HiddenOpeningError) -> (int, int) {
    match error {
        HiddenOpeningError::HidingRandomOpeningRoundCountMismatch { .. } => (-1, -1),
        HiddenOpeningError::HidingRandomOpeningMatrixCountMismatch { round, .. } => (
            round as int,
            -1,
        ),
        HiddenOpeningError::HidingRandomOpeningPointCountMismatch { round, matrix, .. } => (
            round as int,
            matrix as int,
        ),
    }
}

} // verus!
