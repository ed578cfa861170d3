//! Count vectors and count matrices.

use vstd::prelude::*;

verus! {

/// A vector of `n` zeros.
pub fn zeros(n: usize) -> (v: Vec<usize>)
    ensures
        v@.len() == n,
        forall|i: int| 0 <= i < n ==> v@[i] == 0,
{
    let mut v: Vec<usize> = Vec::new();
    let mut i: usize = 0;
    while i < n
        invariant
            i <= n,
            v@.len() == i,
            forall|k: int| 0 <= k < i ==> v@[k] == 0,
        decreases n - i,
    {
        v.push(0);
        i = i + 1;
    }
    v
}

/// Increments one cell of a count matrix.
pub fn bump(m: &mut Vec<Vec<usize>>, a: usize, b: usize)
    requires
        a < old(m)@.len(),
        b < old(m)@[a as int]@.len(),
        old(m)@[a as int]@[b as int] < usize::MAX,
    ensures
        final(m)@.len() == old(m)@.len(),
        forall|i: int| 0 <= i < old(m)@.len() && i != a ==> #[trigger] final(m)@[i] == old(m)@[i],
        final(m)@[a as int]@ == old(m)@[a as int]@.update(b as int, (old(m)@[a as int]@[b as int] + 1) as usize),
{
    let v = m[a][b] + 1;
    m[a].set(b, v);
}

/// A matrix of zeros with `rows` rows of `cols` entries.
pub fn zero_matrix(rows: usize, cols: usize) -> (m: Vec<Vec<usize>>)
    ensures
        m@.len() == rows,
        forall|i: int| 0 <= i < rows ==> (#[trigger] m@[i])@.len() == cols,
        forall|i: int, j: int| 0 <= i < rows && 0 <= j < cols ==> #[trigger] m@[i]@[j] == 0,
{
    let mut m: Vec<Vec<usize>> = Vec::new();
    let mut i: usize = 0;
    while i < rows
        invariant
            i <= rows,
            m@.len() == i,
            forall|k: int| 0 <= k < i ==> (#[trigger] m@[k])@.len() == cols,
            forall|k: int, j: int| 0 <= k < i && 0 <= j < cols ==> #[trigger] m@[k]@[j] == 0,
        decreases rows - i,
    {
        m.push(zeros(cols));
        i = i + 1;
    }
    m
}

} // verus!
