//! Symbolic dynamics: counts over a symbol sequence and phase space
//! reconstruction.

use vstd::prelude::*;
use vstd::string::*;
use crate::error::{SdfError, SdfResult, invalid_parameter};
use crate::text::{copy_chars, decimal, decimal_string};
use crate::counts::{bump, zero_matrix, zeros};

verus! {

/// The number of occurrences of `c` in `s`.
pub open spec fn occurrences(s: Seq<char>, c: char) -> nat
    decreases s.len(),
{
    if s.len() == 0 {
        0
    } else {
        occurrences(s.drop_last(), c) + if s.last() == c {
            1nat
        } else {
            0nat
        }
    }
}

/// The number of positions `i < n` at which `x` is followed by `y` in `s`.
pub open spec fn pair_count(s: Seq<char>, n: int, x: char, y: char) -> nat
    decreases n,
{
    if n <= 0 {
        0
    } else {
        pair_count(s, n - 1, x, y) + if s[n - 1] == x && s[n] == y {
            1nat
        } else {
            0nat
        }
    }
}

/// Characters strictly increasing along the sequence.
pub open spec fn strictly_increasing(v: Seq<char>) -> bool {
    forall|i: int, j: int| 0 <= i < j < v.len() ==> (v[i] as u32) < (v[j] as u32)
}

/// `v` lists, in increasing order and once each, the characters of `s`.
pub open spec fn sorted_distinct_of(v: Seq<char>, s: Seq<char>) -> bool {
    &&& strictly_increasing(v)
    &&& forall|c: char| v.contains(c) <==> s.contains(c)
}

proof fn lemma_occurrences_step(s: Seq<char>, i: int, c: char)
    requires
        0 <= i < s.len(),
    ensures
        occurrences(s.take(i + 1), c) == occurrences(s.take(i), c) + if s[i] == c {
            1nat
        } else {
            0nat
        },
{
    assert(s.take(i + 1).drop_last() =~= s.take(i));
}

proof fn lemma_occurrences_bound(s: Seq<char>, c: char)
    ensures
        occurrences(s, c) <= s.len(),
    decreases s.len(),
{
    if s.len() > 0 {
        lemma_occurrences_bound(s.drop_last(), c);
    }
}

proof fn lemma_pair_count_bound(s: Seq<char>, n: int, x: char, y: char)
    requires
        n >= 0,
    ensures
        pair_count(s, n, x, y) <= n,
    decreases n,
{
    if n > 0 {
        lemma_pair_count_bound(s, n - 1, x, y);
    }
}

/// The transitions out of `x` among the first `n` positions, summed over the
/// targets `keys[0 .. m]`.
pub open spec fn pair_row_total(s: Seq<char>, n: int, x: char, keys: Seq<char>, m: int) -> nat
    decreases m,
{
    if m <= 0 {
        0
    } else {
        pair_row_total(s, n, x, keys, m - 1) + pair_count(s, n, x, keys[m - 1])
    }
}

proof fn lemma_pair_row_total_empty(s: Seq<char>, x: char, keys: Seq<char>, m: int)
    ensures
        pair_row_total(s, 0, x, keys, m) == 0,
    decreases m,
{
    if m > 0 {
        lemma_pair_row_total_empty(s, x, keys, m - 1);
    }
}

proof fn lemma_pair_row_total_step(s: Seq<char>, n: int, x: char, keys: Seq<char>, m: int)
    requires
        n > 0,
        0 <= m <= keys.len(),
        strictly_increasing(keys),
    ensures
        pair_row_total(s, n, x, keys, m) == pair_row_total(s, n - 1, x, keys, m) + if s[n - 1] == x
            && exists|b: int| 0 <= b < m && keys[b] == s[n] {
            1nat
        } else {
            0nat
        },
    decreases m,
{
    if m > 0 {
        lemma_pair_row_total_step(s, n, x, keys, m - 1);
        if s[n - 1] == x && keys[m - 1] == s[n] && exists|b: int| 0 <= b < m - 1 && keys[b] == s[n] {
            let b = choose|b: int| 0 <= b < m - 1 && keys[b] == s[n];
            assert((keys[b] as u32) < (keys[m - 1] as u32));
        }
        if s[n - 1] == x && exists|b: int| 0 <= b < m && keys[b] == s[n] {
            let b = choose|b: int| 0 <= b < m && keys[b] == s[n];
            if b < m - 1 {
                assert(exists|c: int| 0 <= c < m - 1 && keys[c] == s[n]);
            }
        }
    }
}

/// The transitions out of a symbol, summed over all symbols, are the
/// number of times that symbol occurs before the last position: each row of
/// the transition count matrix adds up to its departure count.
pub proof fn lemma_pair_rows_sum_to_departures(s: Seq<char>, keys: Seq<char>, x: char, n: int)
    requires
        sorted_distinct_of(keys, s),
        0 <= n < s.len(),
    ensures
        pair_row_total(s, n, x, keys, keys.len() as int) == occurrences(s.take(n), x),
    decreases n,
{
    if n > 0 {
        lemma_pair_rows_sum_to_departures(s, keys, x, n - 1);
        lemma_pair_row_total_step(s, n, x, keys, keys.len() as int);
        lemma_occurrences_step(s, n - 1, x);
        assert(s.contains(s[n]));
        assert(keys.contains(s[n]));
    } else {
        lemma_pair_row_total_empty(s, x, keys, keys.len() as int);
        assert(s.take(0) =~= Seq::<char>::empty());
    }
}

/// The occurrences in `s` of the symbols `keys[0 .. m]`, added up.
pub open spec fn occurrence_total(s: Seq<char>, keys: Seq<char>, m: int) -> nat
    decreases m,
{
    if m <= 0 {
        0
    } else {
        occurrence_total(s, keys, m - 1) + occurrences(s, keys[m - 1])
    }
}

proof fn lemma_occurrence_total_empty(keys: Seq<char>, m: int)
    ensures
        occurrence_total(Seq::<char>::empty(), keys, m) == 0,
    decreases m,
{
    if m > 0 {
        lemma_occurrence_total_empty(keys, m - 1);
    }
}

proof fn lemma_occurrence_total_step(s: Seq<char>, keys: Seq<char>, m: int)
    requires
        s.len() > 0,
        0 <= m <= keys.len(),
        strictly_increasing(keys),
    ensures
        occurrence_total(s, keys, m) == occurrence_total(s.drop_last(), keys, m) + if exists|k: int|
            0 <= k < m && keys[k] == s.last() {
            1nat
        } else {
            0nat
        },
    decreases m,
{
    if m > 0 {
        lemma_occurrence_total_step(s, keys, m - 1);
        if keys[m - 1] == s.last() && exists|k: int| 0 <= k < m - 1 && keys[k] == s.last() {
            let k = choose|k: int| 0 <= k < m - 1 && keys[k] == s.last();
            assert((keys[k] as u32) < (keys[m - 1] as u32));
        }
        if exists|k: int| 0 <= k < m && keys[k] == s.last() {
            let k = choose|k: int| 0 <= k < m && keys[k] == s.last();
            if k < m - 1 {
                assert(exists|c: int| 0 <= c < m - 1 && keys[c] == s.last());
            }
        }
    }
}

/// The occurrences of the distinct symbols of a sequence add up to its
/// length: the symbol counts, divided by the length, are a probability
/// distribution.
pub proof fn lemma_counts_cover_sequence(s: Seq<char>, keys: Seq<char>)
    requires
        strictly_increasing(keys),
        forall|c: char| s.contains(c) ==> keys.contains(c),
    ensures
        occurrence_total(s, keys, keys.len() as int) == s.len(),
    decreases s.len(),
{
    if s.len() == 0 {
        assert(s =~= Seq::<char>::empty());
        lemma_occurrence_total_empty(keys, keys.len() as int);
    } else {
        let p = s.drop_last();
        assert forall|c: char| p.contains(c) implies keys.contains(c) by {
            let k = choose|k: int| 0 <= k < p.len() && p[k] == c;
            assert(s[k] == c);
        }
        lemma_counts_cover_sequence(p, keys);
        lemma_occurrence_total_step(s, keys, keys.len() as int);
        assert(s.contains(s.last())) by { assert(s[s.len() - 1] == s.last()); }
        assert(keys.contains(s.last()));
    }
}

/// The distinct characters of `sequence`, sorted in increasing order.
pub fn sorted_symbols(sequence: &[char]) -> (r: Vec<char>)
    ensures
        sorted_distinct_of(r@, sequence@),
{
    let mut r: Vec<char> = Vec::new();
    let mut found = true;
    while found
        invariant
            strictly_increasing(r@),
            found ==> forall|c: char|
                r@.contains(c) <==> (sequence@.contains(c) && (r@.len() > 0 && (c as u32) <= (
                r@.last() as u32))),
            !found ==> forall|c: char| r@.contains(c) <==> sequence@.contains(c),
            forall|c: char| r@.contains(c) ==> sequence@.contains(c),
        decreases (if found { 0x110001 - (if r@.len() > 0 { r@.last() as u32 + 1 } else { 0 }) } else { 0 }) as nat,
    {
        // The least symbol beyond the last one listed.
        let mut best: Option<char> = None;
        let mut i: usize = 0;
        while i < sequence.len()
            invariant
                i <= sequence@.len(),
                best matches Some(b) ==> sequence@.contains(b) && (r@.len() == 0 || (r@.last() as u32) < (b as u32)),
                forall|k: int|
                    0 <= k < i && (r@.len() == 0 || (r@.last() as u32) < (sequence@[k] as u32)) ==> (best matches Some(b) && (b as u32) <= (sequence@[k] as u32)),
            decreases sequence@.len() - i,
        {
            let c = sequence[i];
            let beyond = r.len() == 0 || (r[r.len() - 1] as u32) < (c as u32);
            if beyond {
                match best {
                    Some(b) => {
                        if (c as u32) < (b as u32) {
                            best = Some(c);
                        }
                    },
                    None => {
                        best = Some(c);
                    },
                }
            }
            proof {
                if beyond {
                    assert(sequence@.contains(c)) by { assert(sequence@[i as int] == c); }
                }
            }
            i = i + 1;
        }
        match best {
            Some(b) => {
                let ghost old_r = r@;
                r.push(b);
                proof {
                    vstd::utf8::char_is_scalar(b);
                    if old_r.len() > 0 {
                        vstd::utf8::char_is_scalar(old_r.last());
                    }
                    assert forall|c: char| r@.contains(c) <==> (sequence@.contains(c) && (c as u32) <= (r@.last() as u32)) by {
                        if r@.contains(c) {
                            let k = choose|k: int| 0 <= k < r@.len() && r@[k] == c;
                            if k < old_r.len() {
                                assert(old_r.contains(c));
                                assert((old_r[k] as u32) <= (old_r.last() as u32));
                            }
                        }
                        if sequence@.contains(c) && (c as u32) <= (r@.last() as u32) {
                            if c != b {
                                let k = choose|k: int| 0 <= k < sequence@.len() && sequence@[k] == c;
                                if old_r.len() == 0 || (old_r.last() as u32) < (c as u32) {
                                    assert((b as u32) <= (sequence@[k] as u32));
                                    assert((c as u32) == (b as u32));
                                    vstd::utf8::char_u32_cast(c, c as u32);
                                    vstd::utf8::char_u32_cast(b, b as u32);
                                    assert(false);
                                }
                                assert(old_r.contains(c));
                                let m = choose|m: int| 0 <= m < old_r.len() && old_r[m] == c;
                                assert(r@[m] == c);
                            } else {
                                assert(r@[r@.len() - 1] == b);
                            }
                        }
                    }
                    assert forall|c: char| r@.contains(c) implies sequence@.contains(c) by {
                        let k = choose|k: int| 0 <= k < r@.len() && r@[k] == c;
                        if k < old_r.len() {
                            assert(old_r.contains(c));
                        }
                    }
                }
            },
            None => {
                proof {
                    if r@.len() > 0 {
                        vstd::utf8::char_is_scalar(r@.last());
                    }
                }
                found = false;
                proof {
                    assert forall|c: char| sequence@.contains(c) implies r@.contains(c) by {
                        let k = choose|k: int| 0 <= k < sequence@.len() && sequence@[k] == c;
                        if !(r@.len() == 0 || (r@.last() as u32) < (sequence@[k] as u32)) {
                        } else {
                            assert(false);
                        }
                    }
                }
            },
        }
    }
    r
}


/// The position of `c` in a strictly increasing list that holds it.
fn position_of(keys: &Vec<char>, c: char) -> (k: usize)
    requires
        keys@.contains(c),
    ensures
        k < keys@.len(),
        keys@[k as int] == c,
{
    let mut k: usize = 0;
    while k < keys.len()
        invariant
            k <= keys@.len(),
            keys@.contains(c),
            forall|j: int| 0 <= j < k ==> keys@[j] != c,
        decreases keys@.len() - k,
    {
        if keys[k] == c {
            return k;
        }
        k = k + 1;
    }
    proof {
        let j = choose|j: int| 0 <= j < keys@.len() && keys@[j] == c;
        assert(keys@[j] != c);
    }
    0
}

proof fn lemma_distinct_keys(keys: Seq<char>, a: int, b: int)
    requires
        strictly_increasing(keys),
        0 <= a < keys.len(),
        0 <= b < keys.len(),
        keys[a] == keys[b],
    ensures
        a == b,
{
    if a < b {
        assert((keys[a] as u32) < (keys[b] as u32));
    } else if b < a {
        assert((keys[b] as u32) < (keys[a] as u32));
    }
}

/// The distinct symbols of `sequence`, in increasing order, each with the
/// number of times it occurs.
pub fn symbol_counts(sequence: &[char]) -> (r: Vec<(char, usize)>)
    ensures
        sorted_distinct_of(r@.map_values(|p: (char, usize)| p.0), sequence@),
        forall|k: int| 0 <= k < r@.len() ==> #[trigger] r@[k].1 == occurrences(sequence@, r@[k].0),
{
    let keys = sorted_symbols(sequence);
    let mut counts = zeros(keys.len());
    let mut i: usize = 0;
    while i < sequence.len()
        invariant
            i <= sequence@.len(),
            sorted_distinct_of(keys@, sequence@),
            counts@.len() == keys@.len(),
            forall|k: int| 0 <= k < keys@.len() ==> #[trigger] counts@[k] == occurrences(sequence@.take(i as int), keys@[k]),
        decreases sequence@.len() - i,
    {
        let c = sequence[i];
        assert(sequence@.contains(c)) by { assert(sequence@[i as int] == c); }
        let k = position_of(&keys, c);
        proof {
            lemma_occurrences_bound(sequence@.take(i as int), c);
        }
        let v = counts[k] + 1;
        counts.set(k, v);
        proof {
            assert forall|j: int| 0 <= j < keys@.len() implies #[trigger] counts@[j] == occurrences(sequence@.take(i + 1), keys@[j]) by {
                lemma_occurrences_step(sequence@, i as int, keys@[j]);
                if j != k {
                    if keys@[j] == c {
                        lemma_distinct_keys(keys@, j, k as int);
                    }
                }
            }
        }
        i = i + 1;
    }
    assert(sequence@.take(sequence@.len() as int) =~= sequence@);
    let mut r: Vec<(char, usize)> = Vec::new();
    let mut k: usize = 0;
    while k < keys.len()
        invariant
            k <= keys@.len(),
            counts@.len() == keys@.len(),
            r@.len() == k,
            forall|j: int| 0 <= j < k ==> #[trigger] r@[j] == (keys@[j], counts@[j]),
        decreases keys@.len() - k,
    {
        r.push((keys[k], counts[k]));
        k = k + 1;
    }
    assert(r@.map_values(|p: (char, usize)| p.0) =~= keys@);
    r
}

/// A symbol sequence under analysis; it is never empty.
#[derive(Debug)]
pub struct SymbolicDynamics {
    sequence: Vec<char>,
}

impl SymbolicDynamics {
    #[verifier::type_invariant]
    spec fn non_empty(self) -> bool {
        self.sequence@.len() > 0
    }

    /// The symbols of the sequence.
    pub closed spec fn symbols_view(self) -> Seq<char> {
        self.sequence@
    }

    /// Create from a symbolic sequence; an empty sequence is refused.
    pub fn new(sequence: Vec<char>) -> (r: SdfResult<Self>)
        ensures
            r is Err <==> sequence@.len() == 0,
            r matches Ok(d) ==> d@ == sequence@,
            r matches Err(e) ==> (e matches SdfError::InvalidParameter(m) && m@ == "Sequence cannot be empty"@),
    {
        if sequence.len() == 0 {
            return Err(invalid_parameter("Sequence cannot be empty"));
        }
        Ok(SymbolicDynamics { sequence })
    }

    /// The length of the sequence, which is never zero.
    pub fn len(&self) -> (r: usize)
        ensures
            r == self@.len(),
            r > 0,
    {
        proof { use_type_invariant(self); }
        self.sequence.len()
    }

    /// Whether the sequence is empty; it never is.
    pub fn is_empty(&self) -> (r: bool)
        ensures
            r == (self@.len() == 0),
            !r,
    {
        proof { use_type_invariant(self); }
        self.sequence.len() == 0
    }

    /// The sequence.
    pub fn sequence(&self) -> (r: &[char])
        ensures
            r@ == self@,
    {
        self.sequence.as_slice()
    }
}

impl SymbolicDynamics {
    /// Transition counts between consecutive symbols: the sorted distinct
    /// symbols, for each pair of them the number of times the first is
    /// directly followed by the second, and for each symbol the number of
    /// transitions that leave it. Dividing each row by its total gives the
    /// transition probabilities.
    pub fn transition_counts(&self) -> (r: (Vec<char>, Vec<Vec<usize>>, Vec<usize>))
        ensures
            sorted_distinct_of(r.0@, self@),
            r.1@.len() == r.0@.len(),
            r.2@.len() == r.0@.len(),
            forall|a: int| 0 <= a < r.0@.len() ==> (#[trigger] r.1@[a])@.len() == r.0@.len(),
            forall|a: int, b: int|
                0 <= a < r.0@.len() && 0 <= b < r.0@.len() ==> #[trigger] r.1@[a]@[b]
                    == pair_count(self@, self@.len() - 1, r.0@[a], r.0@[b]),
            forall|a: int|
                0 <= a < r.0@.len() ==> #[trigger] r.2@[a] == occurrences(
                    self@.take(self@.len() - 1),
                    r.0@[a],
                ),
    {
        proof { use_type_invariant(self); }
        let seq = self.sequence.as_slice();
        let symbols = sorted_symbols(seq);
        let n = symbols.len();
        let mut matrix = zero_matrix(n, n);
        let mut rows = zeros(n);
        let mut i: usize = 0;
        while i < seq.len() - 1
            invariant
                seq@ == self@,
                seq@.len() > 0,
                i + 1 <= seq@.len(),
                sorted_distinct_of(symbols@, seq@),
                n == symbols@.len(),
                matrix@.len() == n,
                rows@.len() == n,
                forall|a: int| 0 <= a < n ==> (#[trigger] matrix@[a])@.len() == n,
                forall|a: int, b: int|
                    0 <= a < n && 0 <= b < n ==> #[trigger] matrix@[a]@[b] == pair_count(seq@, i as int, symbols@[a], symbols@[b]),
                forall|a: int|
                    0 <= a < n ==> #[trigger] rows@[a] == occurrences(seq@.take(i as int), symbols@[a]),
            decreases seq@.len() - i,
        {
            let x = seq[i];
            let y = seq[i + 1];
            assert(seq@.contains(x)) by { assert(seq@[i as int] == x); }
            assert(seq@.contains(y)) by { assert(seq@[i + 1] == y); }
            let a = position_of(&symbols, x);
            let b = position_of(&symbols, y);
            proof {
                lemma_pair_count_bound(seq@, i as int, x, y);
                lemma_occurrences_bound(seq@.take(i as int), x);
            }
            let ghost old_matrix = matrix@;
            bump(&mut matrix, a, b);
            let v = rows[a] + 1;
            rows.set(a, v);
            proof {
                assert forall|p: int, q: int|
                    0 <= p < n && 0 <= q < n implies #[trigger] matrix@[p]@[q] == pair_count(seq@, i + 1, symbols@[p], symbols@[q]) by {
                    if symbols@[p] == x && p != a {
                        lemma_distinct_keys(symbols@, p, a as int);
                    }
                    if symbols@[q] == y && q != b {
                        lemma_distinct_keys(symbols@, q, b as int);
                    }
                    if p != a {
                        assert(matrix@[p] == old_matrix[p]);
                    }
                }
                assert forall|p: int| 0 <= p < n implies #[trigger] rows@[p] == occurrences(seq@.take(i + 1), symbols@[p]) by {
                    lemma_occurrences_step(seq@, i as int, symbols@[p]);
                    if symbols@[p] == x && p != a {
                        lemma_distinct_keys(symbols@, p, a as int);
                    }
                }
            }
            i = i + 1;
        }
        (symbols, matrix, rows)
    }
}

impl SymbolicDynamics {
    /// Phase space reconstruction by time-delay embedding: row `i` is
    /// `[y(i), y(i + T), ..., y(i + (dE - 1) T)]` for the time lag `T` and the
    /// embedding dimension `dE`. The signal must hold at least `dE * T` samples.
    pub fn phase_space_reconstruction<T: Copy>(
        signal: &[T],
        time_lag: usize,
        embedding_dimension: usize,
    ) -> (r: SdfResult<Vec<Vec<T>>>)
        requires
            signal@.len() > 0 && embedding_dimension > 0 && time_lag > 0 ==> embedding_dimension
                * time_lag <= usize::MAX,
        ensures
            r is Ok <==> (signal@.len() > 0 && embedding_dimension > 0 && time_lag > 0
                && signal@.len() >= embedding_dimension * time_lag),
            r matches Ok(m) ==> {
                &&& m@.len() == signal@.len() - (embedding_dimension - 1) * time_lag
                &&& forall|i: int| 0 <= i < m@.len() ==> (#[trigger] m@[i])@.len() == embedding_dimension
                &&& forall|i: int, j: int|
                    0 <= i < m@.len() && 0 <= j < embedding_dimension ==> #[trigger] m@[i]@[j]
                        == signal@[i + j * time_lag]
            },
            r matches Err(e) ==> e is InvalidParameter,
            r matches Err(e) ==> (e matches SdfError::InvalidParameter(m) && (signal@.len() == 0 ==> m@ == "Signal cannot be empty"@)
                && (signal@.len() > 0 && embedding_dimension == 0 ==> m@ == "Embedding dimension must be > 0"@)
                && (signal@.len() > 0 && embedding_dimension > 0 && time_lag == 0 ==> m@ == "Time lag must be > 0"@)),
            (r is Err && signal@.len() > 0 && embedding_dimension > 0 && time_lag > 0) ==> (r matches Err(
                e,
            ) && e matches SdfError::InvalidParameter(msg) && msg@ == "Signal length "@ + decimal(
                signal@.len(),
            ) + " is too short for dE="@ + decimal(embedding_dimension as nat) + ", tau="@ + decimal(
                time_lag as nat,
            )),
    {
        if signal.len() == 0 {
            return Err(invalid_parameter("Signal cannot be empty"));
        }
        if embedding_dimension == 0 {
            return Err(invalid_parameter("Embedding dimension must be > 0"));
        }
        if time_lag == 0 {
            return Err(invalid_parameter("Time lag must be > 0"));
        }
        let max_index = embedding_dimension * time_lag;
        if signal.len() < max_index {
            let mut msg = String::from_str("Signal length ");
            let d1 = decimal_string(signal.len());
            msg.append(d1.as_str());
            msg.append(" is too short for dE=");
            let d2 = decimal_string(embedding_dimension);
            msg.append(d2.as_str());
            msg.append(", tau=");
            let d3 = decimal_string(time_lag);
            msg.append(d3.as_str());
            return Err(SdfError::InvalidParameter(msg));
        }
        assert((embedding_dimension - 1) * time_lag == embedding_dimension * time_lag - time_lag) by (nonlinear_arith)
            requires embedding_dimension > 0;
        let span = (embedding_dimension - 1) * time_lag;
        let slen = signal.len();
        let n_rows = slen - span;
        let mut rows: Vec<Vec<T>> = Vec::new();
        let mut i: usize = 0;
        while i < n_rows
            invariant
                i <= n_rows,
                slen == signal@.len(),
                n_rows == signal@.len() - span,
                span == (embedding_dimension - 1) * time_lag,
                rows@.len() == i,
                forall|k: int| 0 <= k < i ==> (#[trigger] rows@[k])@.len() == embedding_dimension,
                forall|k: int, j: int|
                    0 <= k < i && 0 <= j < embedding_dimension ==> #[trigger] rows@[k]@[j]
                        == signal@[k + j * time_lag],
            decreases n_rows - i,
        {
            let mut row: Vec<T> = Vec::new();
            let mut j: usize = 0;
            while j < embedding_dimension
                invariant
                    i < n_rows,
                    slen == signal@.len(),
                    n_rows == signal@.len() - span,
                    span == (embedding_dimension - 1) * time_lag,
                    j <= embedding_dimension,
                    row@.len() == j,
                    forall|q: int| 0 <= q < j ==> #[trigger] row@[q] == signal@[i + q * time_lag],
                decreases embedding_dimension - j,
            {
                assert(j * time_lag <= (embedding_dimension - 1) * time_lag) by (nonlinear_arith)
                    requires j < embedding_dimension;
                assert(j * time_lag <= span);
                let off = j * time_lag;
                let idx = i + off;
                row.push(signal[idx]);
                j = j + 1;
            }
            rows.push(row);
            i = i + 1;
        }
        Ok(rows)
    }
}

impl Clone for SymbolicDynamics {
    fn clone(&self) -> (r: Self)
        ensures
            r@ == self@,
    {
        proof { use_type_invariant(self); }
        SymbolicDynamics { sequence: copy_chars(self.sequence.as_slice()) }
    }
}

impl View for SymbolicDynamics {
    type V = Seq<char>;

    open spec fn view(&self) -> Seq<char> {
        self.symbols_view()
    }
}

} // verus!
