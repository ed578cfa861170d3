//! The discrete side of transition matrices: counts of transitions between
//! symbol codes, state labels, and the restriction of a matrix to the states
//! that are kept.

use vstd::prelude::*;
use crate::error::{SdfError, SdfResult, invalid_parameter};
use crate::counts::{bump, zero_matrix, zeros};
use crate::text::{decimal, decimal_string, string_from_chars};

verus! {

/// The number of codes a byte-indexed transition matrix covers.
pub const CODE_STATES: usize = 256;

/// The number of positions `i < n` at which a symbol of code `x` is followed
/// by a symbol of code `y`.
pub open spec fn code_pair_count(s: Seq<char>, n: int, x: int, y: int) -> nat
    decreases n,
{
    if n <= 0 {
        0
    } else {
        code_pair_count(s, n - 1, x, y) + if (s[n - 1] as u32) == x && (s[n] as u32) == y {
            1nat
        } else {
            0nat
        }
    }
}

/// The number of positions `i < n` at which a symbol of code `x` is followed
/// by a symbol whose code is below `CODE_STATES`.
pub open spec fn code_departure_count(s: Seq<char>, n: int, x: int) -> nat
    decreases n,
{
    if n <= 0 {
        0
    } else {
        code_departure_count(s, n - 1, x) + if (s[n - 1] as u32) == x && (s[n] as u32) < CODE_STATES {
            1nat
        } else {
            0nat
        }
    }
}

/// The transitions out of code `x` among the first `n` positions, summed over
/// the target codes `y < m`.
pub open spec fn code_row_total(s: Seq<char>, n: int, x: int, m: int) -> nat
    decreases m,
{
    if m <= 0 {
        0
    } else {
        code_row_total(s, n, x, m - 1) + code_pair_count(s, n, x, m - 1)
    }
}

proof fn lemma_code_row_total_empty(s: Seq<char>, x: int, m: int)
    ensures
        code_row_total(s, 0, x, m) == 0,
    decreases m,
{
    if m > 0 {
        lemma_code_row_total_empty(s, x, m - 1);
    }
}

proof fn lemma_code_row_total_step(s: Seq<char>, n: int, x: int, m: int)
    requires
        n > 0,
        m >= 0,
    ensures
        code_row_total(s, n, x, m) == code_row_total(s, n - 1, x, m) + if (s[n - 1] as u32) == x
            && (s[n] as u32) < m {
            1nat
        } else {
            0nat
        },
    decreases m,
{
    if m > 0 {
        lemma_code_row_total_step(s, n, x, m - 1);
    }
}

/// Each row of the code transition counts adds up to the row's total: a
/// transition out of a code is counted exactly when its target code is
/// below `CODE_STATES`.
pub proof fn lemma_code_rows_sum_to_totals(s: Seq<char>, n: int, x: int)
    requires
        n >= 0,
    ensures
        code_row_total(s, n, x, CODE_STATES as int) == code_departure_count(s, n, x),
    decreases n,
{
    if n > 0 {
        lemma_code_rows_sum_to_totals(s, n - 1, x);
        lemma_code_row_total_step(s, n, x, CODE_STATES as int);
    } else {
        lemma_code_row_total_empty(s, x, CODE_STATES as int);
    }
}

proof fn lemma_code_counts_bound(s: Seq<char>, n: int, x: int, y: int)
    requires
        n >= 0,
    ensures
        code_pair_count(s, n, x, y) <= n,
        code_departure_count(s, n, x) <= n,
    decreases n,
{
    if n > 0 {
        lemma_code_counts_bound(s, n - 1, x, y);
    }
}

/// Transition counts between symbol codes: entry `[x][y]` counts the
/// positions where a symbol of code `x` is followed by one of code `y`, for
/// codes below `CODE_STATES`; entry `[x]` of the second vector is the row's
/// total. An empty sequence or a zero depth is refused.
pub fn byte_transition_counts(symbols: &[char], depth: usize) -> (r: SdfResult<(Vec<Vec<usize>>, Vec<usize>)>)
    ensures
        r is Err <==> (symbols@.len() == 0 || depth == 0),
        r matches Err(e) ==> (e matches SdfError::InvalidParameter(msg) && msg@ == "Invalid symbols or depth"@),
        r matches Ok((m, rows)) ==> {
            let n = symbols@.len() - 1;
            &&& m@.len() == CODE_STATES
            &&& rows@.len() == CODE_STATES
            &&& forall|x: int| 0 <= x < CODE_STATES ==> (#[trigger] m@[x])@.len() == CODE_STATES
            &&& forall|x: int, y: int| 0 <= x < CODE_STATES && 0 <= y < CODE_STATES ==> #[trigger] m@[x]@[y]
                == code_pair_count(symbols@, n, x, y)
            &&& forall|x: int| 0 <= x < CODE_STATES ==> #[trigger] rows@[x] == code_departure_count(symbols@, n, x)
        },
{
    if symbols.len() == 0 || depth == 0 {
        return Err(invalid_parameter("Invalid symbols or depth"));
    }
    let mut m = zero_matrix(CODE_STATES, CODE_STATES);
    let mut rows = zeros(CODE_STATES);
    let n = symbols.len() - 1;
    let ghost s = symbols@;
    let mut i: usize = 0;
    while i < n
        invariant
            s == symbols@,
            n == s.len() - 1,
            i <= n,
            m@.len() == CODE_STATES,
            rows@.len() == CODE_STATES,
            forall|x: int| 0 <= x < CODE_STATES ==> (#[trigger] m@[x])@.len() == CODE_STATES,
            forall|x: int, y: int| 0 <= x < CODE_STATES && 0 <= y < CODE_STATES ==> #[trigger] m@[x]@[y]
                == code_pair_count(s, i as int, x, y),
            forall|x: int| 0 <= x < CODE_STATES ==> #[trigger] rows@[x] == code_departure_count(s, i as int, x),
        decreases n - i,
    {
        let from = symbols[i] as u32 as usize;
        let to = symbols[i + 1] as u32 as usize;
        if from < CODE_STATES && to < CODE_STATES {
            proof {
                lemma_code_counts_bound(s, i as int, from as int, to as int);
            }
            let ghost old_m = m@;
            bump(&mut m, from, to);
            let v = rows[from] + 1;
            rows.set(from, v);
            proof {
                assert forall|x: int, y: int| 0 <= x < CODE_STATES && 0 <= y < CODE_STATES implies #[trigger] m@[x]@[y]
                    == code_pair_count(s, i + 1, x, y) by {
                    if x != from {
                        assert(m@[x] == old_m[x]);
                    }
                }
            }
        }
        i = i + 1;
    }
    Ok((m, rows))
}

/// The labels `"0"`, `"1"`, ... of `n` states.
pub fn index_labels(n: usize) -> (r: Vec<String>)
    ensures
        r@.len() == n,
        forall|i: int| 0 <= i < n ==> (#[trigger] r@[i])@ == decimal(i as nat),
{
    let mut r: Vec<String> = Vec::new();
    let mut i: usize = 0;
    while i < n
        invariant
            i <= n,
            r@.len() == i,
            forall|k: int| 0 <= k < i ==> (#[trigger] r@[k])@ == decimal(k as nat),
        decreases n - i,
    {
        r.push(decimal_string(i));
        i = i + 1;
    }
    r
}

/// The labels of the states of a byte-indexed transition matrix: the
/// character of each code, as a one-character string.
pub fn code_labels() -> (r: Vec<String>)
    ensures
        r@.len() == CODE_STATES,
        forall|i: int| 0 <= i < CODE_STATES ==> (#[trigger] r@[i])@ == seq![(i as u32) as char],
{
    let mut r: Vec<String> = Vec::new();
    let mut i: usize = 0;
    while i < CODE_STATES
        invariant
            i <= CODE_STATES,
            r@.len() == i,
            forall|k: int| 0 <= k < i ==> (#[trigger] r@[k])@ == seq![(k as u32) as char],
        decreases CODE_STATES - i,
    {
        let c: char = (i as u8) as char;
        let chars: Vec<char> = vec![c];
        let label = string_from_chars(chars.as_slice());
        assert(label@ =~= seq![(i as u32) as char]);
        r.push(label);
        i = i + 1;
    }
    r
}

/// The square matrix restricted to the states marked to keep: the kept
/// indices in increasing order, and the matrix between them.
pub fn restrict_to_kept<T: Copy>(matrix: &Vec<Vec<T>>, keep: &[bool]) -> (r: (Vec<Vec<T>>, Vec<usize>))
    requires
        keep@.len() == matrix@.len(),
        forall|i: int| 0 <= i < matrix@.len() ==> (#[trigger] matrix@[i])@.len() == matrix@.len(),
    ensures
        forall|p: int, q: int| 0 <= p < q < r.1@.len() ==> r.1@[p] < r.1@[q],
        forall|p: int| 0 <= p < r.1@.len() ==> #[trigger] r.1@[p] < keep@.len() && keep@[r.1@[p] as int],
        forall|i: int| 0 <= i < keep@.len() && keep@[i] ==> r.1@.contains(i as usize),
        r.0@.len() == r.1@.len(),
        forall|p: int| 0 <= p < r.0@.len() ==> (#[trigger] r.0@[p])@.len() == r.1@.len(),
        forall|p: int, q: int| 0 <= p < r.1@.len() && 0 <= q < r.1@.len() ==> #[trigger] r.0@[p]@[q]
            == matrix@[r.1@[p] as int]@[r.1@[q] as int],
{
    let n = keep.len();
    let mut kept: Vec<usize> = Vec::new();
    let mut i: usize = 0;
    while i < n
        invariant
            n == keep@.len(),
            i <= n,
            forall|p: int, q: int| 0 <= p < q < kept@.len() ==> kept@[p] < kept@[q],
            forall|p: int| 0 <= p < kept@.len() ==> #[trigger] kept@[p] < i && keep@[kept@[p] as int],
            forall|k: int| 0 <= k < i && keep@[k] ==> kept@.contains(k as usize),
        decreases n - i,
    {
        if keep[i] {
            let ghost old_kept = kept@;
            kept.push(i);
            proof {
                assert forall|k: int| 0 <= k < i + 1 && keep@[k] implies kept@.contains(k as usize) by {
                    if k == i {
                        assert(kept@[kept@.len() - 1] == i);
                    } else {
                        assert(old_kept.contains(k as usize));
                        let p = choose|p: int| 0 <= p < old_kept.len() && old_kept[p] == k as usize;
                        assert(kept@[p] == k as usize);
                    }
                }
            }
        }
        i = i + 1;
    }
    let mut rows: Vec<Vec<T>> = Vec::new();
    let mut p: usize = 0;
    while p < kept.len()
        invariant
            n == keep@.len(),
            n == matrix@.len(),
            forall|i: int| 0 <= i < matrix@.len() ==> (#[trigger] matrix@[i])@.len() == matrix@.len(),
            forall|a: int| 0 <= a < kept@.len() ==> #[trigger] kept@[a] < n,
            p <= kept@.len(),
            rows@.len() == p,
            forall|a: int| 0 <= a < p ==> (#[trigger] rows@[a])@.len() == kept@.len(),
            forall|a: int, b: int| 0 <= a < p && 0 <= b < kept@.len() ==> #[trigger] rows@[a]@[b]
                == matrix@[kept@[a] as int]@[kept@[b] as int],
        decreases kept@.len() - p,
    {
        let src = kept[p];
        let mut row: Vec<T> = Vec::new();
        let mut q: usize = 0;
        while q < kept.len()
            invariant
                n == matrix@.len(),
                forall|i: int| 0 <= i < matrix@.len() ==> (#[trigger] matrix@[i])@.len() == matrix@.len(),
                forall|a: int| 0 <= a < kept@.len() ==> #[trigger] kept@[a] < n,
                src < n,
                q <= kept@.len(),
                row@.len() == q,
                forall|b: int| 0 <= b < q ==> #[trigger] row@[b] == matrix@[src as int]@[kept@[b] as int],
            decreases kept@.len() - q,
        {
            let dst = kept[q];
            row.push(matrix[src][dst]);
            q = q + 1;
        }
        rows.push(row);
        p = p + 1;
    }
    (rows, kept)
}

} // verus!
