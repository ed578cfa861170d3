//! D-Markov machines: states are the words of `D` symbols, transitions are
//! counted with a sliding window over the symbol sequence.

use vstd::prelude::*;
use crate::error::{SdfError, SdfResult, invalid_parameter, computation_error};
use crate::symbolic::alphabet::{letter, letter_at};
use crate::counts::{bump, zero_matrix, zeros};
use crate::text::string_from_chars;

verus! {

/// `b` raised to the power `e`.
pub open spec fn power(b: nat, e: nat) -> nat
    decreases e,
{
    if e == 0 {
        1
    } else {
        power(b, (e - 1) as nat) * b
    }
}

/// Whether `c` is one of the first `a` letters.
pub open spec fn in_alphabet(c: char, a: nat) -> bool {
    97 <= (c as u32) < 97 + a
}

/// Whether every character of `w` is one of the first `a` letters.
pub open spec fn is_word(w: Seq<char>, a: nat) -> bool {
    forall|i: int| 0 <= i < w.len() ==> in_alphabet(#[trigger] w[i], a)
}

/// The position of the word `w` among all words of its length over the first
/// `a` letters, in lexicographic order: its letters read as base-`a` digits.
pub open spec fn word_index(w: Seq<char>, a: nat) -> int
    decreases w.len(),
{
    if w.len() == 0 {
        0
    } else {
        word_index(w.drop_last(), a) * a + ((w.last() as u32) - 97)
    }
}

/// The `k`-th word of length `d` over the first `a` letters, in lexicographic
/// order.
pub open spec fn state_word(k: nat, d: nat, a: nat) -> Seq<char>
    decreases d,
{
    if d == 0 {
        seq![]
    } else {
        state_word(k / a, (d - 1) as nat, a).push(letter((k % a) as int))
    }
}

/// All words of length `d` over the first `a` letters, in lexicographic order:
/// the states of a D-Markov machine of depth `d`.
pub open spec fn state_words(d: nat, a: nat) -> Seq<Seq<char>> {
    Seq::new(power(a, d), |k: int| state_word(k as nat, d, a))
}

/// Whether the `d + 1` symbols from position `i` are all among the first `a`
/// letters, so that the window is a transition between two states.
pub open spec fn window_ok(s: Seq<char>, i: int, d: nat, a: nat) -> bool {
    forall|j: int| i <= j <= i + d ==> in_alphabet(#[trigger] s[j], a)
}

/// The number of window positions `i < n` at which the sequence moves from
/// state `from` (the `d` symbols at `i`) to state `to` (the `d` symbols at `i + 1`).
pub open spec fn transition_count(s: Seq<char>, d: nat, a: nat, n: int, from: int, to: int) -> nat
    decreases n,
{
    if n <= 0 {
        0
    } else {
        transition_count(s, d, a, n - 1, from, to) + if window_ok(s, n - 1, d, a) && word_index(
            s.subrange(n - 1, n - 1 + d),
            a,
        ) == from && word_index(s.subrange(n, n + d), a) == to {
            1nat
        } else {
            0nat
        }
    }
}

/// The number of window positions `i < n` at which the sequence leaves state `from`.
pub open spec fn departure_count(s: Seq<char>, d: nat, a: nat, n: int, from: int) -> nat
    decreases n,
{
    if n <= 0 {
        0
    } else {
        departure_count(s, d, a, n - 1, from) + if window_ok(s, n - 1, d, a) && word_index(
            s.subrange(n - 1, n - 1 + d),
            a,
        ) == from {
            1nat
        } else {
            0nat
        }
    }
}

/// The inputs on which building a machine cannot be carried out by the
/// machine: the letters must fit in a byte, the count matrix in memory, and a
/// window that starts with a multi-byte character cannot be shifted when `D > 1`.
pub open spec fn machine_input_ok(s: Seq<char>, d: nat, a: nat) -> bool {
    (s.len() > 0 && d > 0 && a > 0) ==> {
        &&& 97 + a <= 256
        &&& power(a, d) * power(a, d) <= usize::MAX
        &&& d > 1 ==> forall|i: int| 0 <= i < s.len() - d ==> (#[trigger] s[i] as u32) < 128
    }
}

proof fn lemma_power_positive(b: nat, e: nat)
    requires
        b > 0,
    ensures
        power(b, e) > 0,
    decreases e,
{
    if e > 0 {
        lemma_power_positive(b, (e - 1) as nat);
        assert(power(b, (e - 1) as nat) * b > 0) by (nonlinear_arith)
            requires power(b, (e - 1) as nat) > 0, b > 0;
    }
}

proof fn lemma_power_monotone(b: nat, e1: nat, e2: nat)
    requires
        b > 0,
        e1 <= e2,
    ensures
        power(b, e1) <= power(b, e2),
    decreases e2,
{
    if e1 < e2 {
        lemma_power_monotone(b, e1, (e2 - 1) as nat);
        lemma_power_positive(b, (e2 - 1) as nat);
        assert(power(b, (e2 - 1) as nat) <= power(b, (e2 - 1) as nat) * b) by (nonlinear_arith)
            requires b > 0;
    }
}

proof fn lemma_power_square_bound(b: nat, e: nat)
    requires
        b > 0,
    ensures
        power(b, e) <= power(b, e) * power(b, e),
{
    lemma_power_positive(b, e);
    assert(power(b, e) <= power(b, e) * power(b, e)) by (nonlinear_arith)
        requires power(b, e) > 0;
}

proof fn lemma_transition_bound(s: Seq<char>, d: nat, a: nat, n: int, f: int, t: int)
    requires
        n >= 0,
    ensures
        transition_count(s, d, a, n, f, t) <= n,
        departure_count(s, d, a, n, f) <= n,
    decreases n,
{
    if n > 0 {
        lemma_transition_bound(s, d, a, n - 1, f, t);
    }
}

/// The transitions out of state `from` counted in the first `n` windows,
/// summed over the target states `to < m`.
pub open spec fn row_total(s: Seq<char>, d: nat, a: nat, n: int, from: int, m: int) -> nat
    decreases m,
{
    if m <= 0 {
        0
    } else {
        row_total(s, d, a, n, from, m - 1) + transition_count(s, d, a, n, from, m - 1)
    }
}

proof fn lemma_row_total_step(s: Seq<char>, d: nat, a: nat, n: int, f: int, m: int)
    requires
        n > 0,
        m >= 0,
    ensures
        row_total(s, d, a, n, f, m) == row_total(s, d, a, n - 1, f, m) + if window_ok(s, n - 1, d, a)
            && word_index(s.subrange(n - 1, n - 1 + d), a) == f && 0 <= word_index(s.subrange(n, n + d), a) < m {
            1nat
        } else {
            0nat
        },
    decreases m,
{
    if m > 0 {
        lemma_row_total_step(s, d, a, n, f, m - 1);
    }
}

proof fn lemma_row_total_empty(s: Seq<char>, d: nat, a: nat, f: int, m: int)
    ensures
        row_total(s, d, a, 0, f, m) == 0,
    decreases m,
{
    if m > 0 {
        lemma_row_total_empty(s, d, a, f, m - 1);
    }
}

/// The transitions counted out of a state, summed over all target states,
/// are the number of times the sequence leaves that state: every counted
/// window ends in a state.
pub proof fn lemma_departures_are_row_sums(s: Seq<char>, d: nat, a: nat, n: int, f: int)
    requires
        a > 0,
        0 <= n <= s.len() - d,
    ensures
        row_total(s, d, a, n, f, power(a, d) as int) == departure_count(s, d, a, n, f),
    decreases n,
{
    if n > 0 {
        lemma_departures_are_row_sums(s, d, a, n - 1, f);
        lemma_power_positive(a, d);
        lemma_row_total_step(s, d, a, n, f, power(a, d) as int);
        let nxt = s.subrange(n, n + d);
        if window_ok(s, n - 1, d, a) {
            assert forall|j: int| 0 <= j < nxt.len() implies in_alphabet(#[trigger] nxt[j], a) by {
                assert(nxt[j] == s[n + j]);
            }
            lemma_word_is_state(nxt, a);
        }
    } else {
        lemma_row_total_empty(s, d, a, f, power(a, d) as int);
    }
}

/// Every word's index names a state, and that state is the word itself.
pub proof fn lemma_word_is_state(w: Seq<char>, a: nat)
    requires
        a > 0,
        is_word(w, a),
    ensures
        0 <= word_index(w, a) < power(a, w.len()),
        state_word(word_index(w, a) as nat, w.len(), a) == w,
    decreases w.len(),
{
    if w.len() > 0 {
        let p = w.drop_last();
        assert(is_word(p, a)) by {
            assert forall|i: int| 0 <= i < p.len() implies in_alphabet(#[trigger] p[i], a) by {
                assert(p[i] == w[i]);
            }
        }
        lemma_word_is_state(p, a);
        let q = word_index(p, a);
        let c = w.last();
        assert(in_alphabet(c, a)) by { assert(w[w.len() - 1] == c); }
        let digit = (c as u32) - 97;
        let k = q * a + digit;
        let pp = power(a, p.len());
        assert((q + 1) * a <= pp * a) by (nonlinear_arith)
            requires q + 1 <= pp, a > 0;
        assert(q * a + a == (q + 1) * a) by (nonlinear_arith);
        assert(0 <= q * a) by (nonlinear_arith)
            requires 0 <= q, a > 0;
        assert(k / (a as int) == q && k % (a as int) == digit) by (nonlinear_arith)
            requires k == q * a + digit, 0 <= digit < a, a > 0;
        vstd::utf8::char_u32_cast(c, c as u32);
        assert(letter(digit) == c);
        assert(state_word(k as nat, w.len(), a) =~= w);
    }
}

/// The `k`-th state is a word of length `d` whose index is `k`.
pub proof fn lemma_state_is_word(k: nat, d: nat, a: nat)
    requires
        0 < a,
        97 + a <= 256,
        k < power(a, d),
    ensures
        state_word(k, d, a).len() == d,
        is_word(state_word(k, d, a), a),
        word_index(state_word(k, d, a), a) == k,
    decreases d,
{
    if d > 0 {
        let pp = power(a, (d - 1) as nat);
        assert(k / a < pp && k % a < a) by (nonlinear_arith)
            requires k < pp * a, a > 0;
        lemma_state_is_word(k / a, (d - 1) as nat, a);
        let w = state_word(k, d, a);
        let p = state_word(k / a, (d - 1) as nat, a);
        assert(w.drop_last() =~= p);
        let c = letter((k % a) as int);
        assert((c as u32) == 97 + k % a);
        assert forall|i: int| 0 <= i < w.len() implies in_alphabet(#[trigger] w[i], a) by {
            if i < p.len() {
                assert(w[i] == p[i]);
            }
        }
        assert((k / a) * a + k % a == k) by (nonlinear_arith)
            requires a > 0;
    }
}

proof fn lemma_word_index_step(w: Seq<char>, j: int, a: nat)
    requires
        0 <= j < w.len(),
    ensures
        word_index(w.take(j + 1), a) == word_index(w.take(j), a) * a + ((w[j] as u32) - 97),
{
    assert(w.take(j + 1).drop_last() =~= w.take(j));
}

/// The index of the word `seq[start .. start + d]`, when every symbol of it is
/// one of the first `a` letters.
fn window_index(seq: &[char], start: usize, d: usize, a: usize) -> (r: Option<usize>)
    requires
        start + d <= seq@.len(),
        a > 0,
        power(a as nat, d as nat) <= usize::MAX,
    ensures
        r is Some <==> is_word(seq@.subrange(start as int, start + d), a as nat),
        r matches Some(k) ==> k == word_index(seq@.subrange(start as int, start + d), a as nat),
{
    let ghost w = seq@.subrange(start as int, start + d);
    let slen = seq.len();
    let mut idx: usize = 0;
    let mut j: usize = 0;
    while j < d
        invariant
            start + d <= seq@.len(),
            slen == seq@.len(),
            w == seq@.subrange(start as int, start + d),
            a > 0,
            power(a as nat, d as nat) <= usize::MAX,
            j <= d,
            is_word(w.take(j as int), a as nat),
            idx == word_index(w.take(j as int), a as nat),
            idx < power(a as nat, j as nat),
        decreases d - j,
    {
        let c = seq[start + j];
        let code = c as u32;
        if code < 97 || (code - 97) as usize >= a {
            proof {
                assert(w[j as int] == c);
                assert(!in_alphabet(w[j as int], a as nat));
            }
            return None;
        }
        let digit = (code - 97) as usize;
        proof {
            assert(w[j as int] == c);
            lemma_word_index_step(w, j as int, a as nat);
            lemma_power_monotone(a as nat, (j + 1) as nat, d as nat);
            let pj = power(a as nat, j as nat);
            assert((idx + 1) * a <= pj * a) by (nonlinear_arith)
                requires idx + 1 <= pj, a > 0;
            assert(idx * a + a == (idx + 1) * a) by (nonlinear_arith);
            assert(is_word(w.take(j + 1), a as nat)) by {
                assert forall|i: int| 0 <= i < j + 1 implies in_alphabet(#[trigger] w.take(j + 1)[i], a as nat) by {
                    if i < j {
                        assert(w.take(j + 1)[i] == w.take(j as int)[i]);
                    }
                }
            }
        }
        idx = idx * a + digit;
        j = j + 1;
    }
    assert(w.take(d as int) =~= w);
    Some(idx)
}

/// The letters of the `k`-th state of length `d`, appended to `out`.
fn push_state_chars(k: usize, d: usize, a: usize, out: &mut Vec<char>)
    requires
        a > 0,
        97 + a <= 256,
    ensures
        final(out)@ == old(out)@ + state_word(k as nat, d as nat, a as nat),
    decreases d,
{
    if d > 0 {
        push_state_chars(k / a, d - 1, a, out);
        out.push(letter_at(k % a));
    }
    assert(final(out)@ =~= old(out)@ + state_word(k as nat, d as nat, a as nat)) by {
        if d > 0 {
            assert(state_word(k as nat, d as nat, a as nat) == state_word((k / a) as nat, (d - 1) as nat, a as nat).push(letter((k % a) as int)));
        }
    }
}

/// All words of length `depth` over the first `alphabet_size` letters, in
/// lexicographic order.
fn generate_states(depth: usize, alphabet_size: usize, n_states: usize) -> (r: Vec<String>)
    requires
        alphabet_size > 0,
        97 + alphabet_size <= 256,
        n_states == power(alphabet_size as nat, depth as nat),
    ensures
        r@.len() == n_states,
        forall|k: int| 0 <= k < n_states ==> (#[trigger] r@[k])@ == state_word(k as nat, depth as nat, alphabet_size as nat),
{
    let mut states: Vec<String> = Vec::new();
    let mut k: usize = 0;
    while k < n_states
        invariant
            alphabet_size > 0,
            97 + alphabet_size <= 256,
            k <= n_states,
            states@.len() == k,
            forall|q: int| 0 <= q < k ==> (#[trigger] states@[q])@ == state_word(q as nat, depth as nat, alphabet_size as nat),
        decreases n_states - k,
    {
        let mut chars: Vec<char> = Vec::new();
        push_state_chars(k, depth, alphabet_size, &mut chars);
        assert(chars@ =~= state_word(k as nat, depth as nat, alphabet_size as nat));
        states.push(string_from_chars(chars.as_slice()));
        k = k + 1;
    }
    states
}

/// `b` to the power `e`, when it fits in a machine word.
fn power_of(b: usize, e: usize) -> (r: usize)
    requires
        b > 0,
        power(b as nat, e as nat) <= usize::MAX,
    ensures
        r == power(b as nat, e as nat),
{
    let mut r: usize = 1;
    let mut j: usize = 0;
    while j < e
        invariant
            b > 0,
            power(b as nat, e as nat) <= usize::MAX,
            j <= e,
            r == power(b as nat, j as nat),
        decreases e - j,
    {
        proof {
            lemma_power_monotone(b as nat, (j + 1) as nat, e as nat);
        }
        r = r * b;
        j = j + 1;
    }
    r
}

/// The last position at which `w` is listed in `states`, or `-1` when it is
/// not listed (a later entry shadows an earlier one with the same word).
pub open spec fn last_index_of(states: Seq<Seq<char>>, w: Seq<char>) -> int
    decreases states.len(),
{
    if states.len() == 0 {
        -1
    } else if states.last() == w {
        states.len() - 1
    } else {
        last_index_of(states.drop_last(), w)
    }
}

/// The state the window at `i` moves to: the window shifted by one symbol;
/// with a zero depth, the single symbol at `i`.
pub open spec fn next_word(s: Seq<char>, i: int, d: nat) -> Seq<char> {
    if d > 0 {
        s.subrange(i + 1, i + d + 1)
    } else {
        s.subrange(i, i + 1)
    }
}

/// The number of window positions `i < n` at which the window's word is
/// listed last at `from` and the next word is listed last at `to`.
pub open spec fn listed_transition_count(
    s: Seq<char>,
    states: Seq<Seq<char>>,
    d: nat,
    n: int,
    from: int,
    to: int,
) -> nat
    decreases n,
{
    if n <= 0 {
        0
    } else {
        listed_transition_count(s, states, d, n - 1, from, to) + if last_index_of(
            states,
            s.subrange(n - 1, n - 1 + d),
        ) == from && last_index_of(states, next_word(s, n - 1, d)) == to {
            1nat
        } else {
            0nat
        }
    }
}

/// The number of window positions `i < n` at which the window's word is
/// listed last at `from` and the next word is listed too.
pub open spec fn listed_departure_count(s: Seq<char>, states: Seq<Seq<char>>, d: nat, n: int, from: int) -> nat
    decreases n,
{
    if n <= 0 {
        0
    } else {
        listed_departure_count(s, states, d, n - 1, from) + if last_index_of(
            states,
            s.subrange(n - 1, n - 1 + d),
        ) == from && last_index_of(states, next_word(s, n - 1, d)) >= 0 {
            1nat
        } else {
            0nat
        }
    }
}

proof fn lemma_listed_bound(s: Seq<char>, states: Seq<Seq<char>>, d: nat, n: int, f: int, t: int)
    requires
        n >= 0,
    ensures
        listed_transition_count(s, states, d, n, f, t) <= n,
        listed_departure_count(s, states, d, n, f) <= n,
    decreases n,
{
    if n > 0 {
        lemma_listed_bound(s, states, d, n - 1, f, t);
    }
}

proof fn lemma_last_index_range(states: Seq<Seq<char>>, w: Seq<char>)
    ensures
        -1 <= last_index_of(states, w) < states.len(),
        last_index_of(states, w) >= 0 ==> states[last_index_of(states, w)] == w,
        last_index_of(states, w) < 0 ==> !states.contains(w),
    decreases states.len(),
{
    if states.len() > 0 && states.last() != w {
        lemma_last_index_range(states.drop_last(), w);
        if last_index_of(states, w) < 0 && states.contains(w) {
            let k = choose|k: int| 0 <= k < states.len() && states[k] == w;
            assert(states.drop_last()[k] == w);
        }
    }
}

proof fn lemma_lookup_in_state_prefix(w: Seq<char>, d: nat, a: nat, m: nat)
    requires
        a > 0,
        97 + a <= 256,
        m <= power(a, d),
    ensures
        last_index_of(state_words(d, a).take(m as int), w) == if is_word(w, a) && w.len() == d
            && word_index(w, a) < m {
            word_index(w, a)
        } else {
            -1
        },
    decreases m,
{
    let states = state_words(d, a);
    let prefix = states.take(m as int);
    if m > 0 {
        assert(prefix.drop_last() =~= states.take(m - 1));
        lemma_lookup_in_state_prefix(w, d, a, (m - 1) as nat);
        let k = (m - 1) as nat;
        lemma_state_is_word(k, d, a);
        assert(prefix.last() == state_word(k, d, a));
        if is_word(w, a) && w.len() == d {
            lemma_word_is_state(w, a);
            if word_index(w, a) == k {
                assert(prefix.last() == w);
            } else if prefix.last() == w {
                assert(word_index(w, a) == k);
            }
        } else {
            if prefix.last() == w {
                assert(false);
            }
        }
    } else {
        assert(prefix =~= Seq::<Seq<char>>::empty());
        if is_word(w, a) && w.len() == d {
            lemma_word_is_state(w, a);
        }
    }
}

/// A word's last listing among the machine's states is its index when it
/// is a word of `d` letters, and it is not listed otherwise.
pub proof fn lemma_lookup_in_states(w: Seq<char>, d: nat, a: nat)
    requires
        a > 0,
        97 + a <= 256,
    ensures
        last_index_of(state_words(d, a), w) == if is_word(w, a) && w.len() == d {
            word_index(w, a)
        } else {
            -1
        },
{
    let states = state_words(d, a);
    assert(states.take(power(a, d) as int) =~= states);
    lemma_lookup_in_state_prefix(w, d, a, power(a, d));
    if is_word(w, a) && w.len() == d {
        lemma_word_is_state(w, a);
    }
}

/// Counting transitions by looking the windows up among the machine's
/// states gives the machine's own counts: what `build_transition_counts`
/// finds over the states of depth `d` is what `new` counts.
pub proof fn lemma_listed_counts_are_machine_counts(s: Seq<char>, d: nat, a: nat, n: int, f: int, t: int)
    requires
        a > 0,
        97 + a <= 256,
        d > 0,
        0 <= n <= s.len() - d,
        0 <= f,
        0 <= t,
    ensures
        listed_transition_count(s, state_words(d, a), d, n, f, t) == transition_count(s, d, a, n, f, t),
        listed_departure_count(s, state_words(d, a), d, n, f) == departure_count(s, d, a, n, f),
    decreases n,
{
    if n > 0 {
        lemma_listed_counts_are_machine_counts(s, d, a, n - 1, f, t);
        let i = n - 1;
        let cur = s.subrange(i, i + d);
        let nxt = s.subrange(i + 1, i + 1 + d);
        assert(next_word(s, i, d) == nxt);
        lemma_lookup_in_states(cur, d, a);
        lemma_lookup_in_states(nxt, d, a);
        assert(window_ok(s, i, d, a) <==> (is_word(cur, a) && is_word(nxt, a))) by {
            if is_word(cur, a) && is_word(nxt, a) {
                assert forall|j: int| i <= j <= i + d implies in_alphabet(#[trigger] s[j], a) by {
                    if j < i + d {
                        assert(cur[j - i] == s[j]);
                    } else {
                        assert(nxt[j - i - 1] == s[j]);
                    }
                }
            }
            if window_ok(s, i, d, a) {
                assert forall|j: int| 0 <= j < cur.len() implies in_alphabet(#[trigger] cur[j], a) by {
                    assert(cur[j] == s[i + j]);
                }
                assert forall|j: int| 0 <= j < nxt.len() implies in_alphabet(#[trigger] nxt[j], a) by {
                    assert(nxt[j] == s[i + 1 + j]);
                }
            }
        }
        if is_word(nxt, a) {
            lemma_word_is_state(nxt, a);
        }
    }
}

/// The last position of `w` in the list of state labels, if it is listed.
fn find_state(states: &[String], w: &String) -> (r: Option<usize>)
    ensures
        r is None <==> last_index_of(states@.map_values(|s: String| s@), w@) < 0,
        r matches Some(k) ==> k == last_index_of(states@.map_values(|s: String| s@), w@),
{
    let ghost labels = states@.map_values(|s: String| s@);
    let mut k: usize = states.len();
    assert(labels.take(k as int) =~= labels);
    while k > 0
        invariant
            k <= states@.len(),
            labels == states@.map_values(|s: String| s@),
            last_index_of(labels, w@) == last_index_of(labels.take(k as int), w@),
        decreases k,
    {
        let ghost prefix = labels.take(k as int);
        assert(prefix.drop_last() =~= labels.take(k - 1));
        if states[k - 1] == *w {
            assert(prefix.last() == w@);
            return Some(k - 1);
        }
        k = k - 1;
    }
    assert(labels.take(0) =~= Seq::<Seq<char>>::empty());
    None
}

/// D-Markov machine for order-dependent state analysis: its states are the
/// words of `order` symbols, and it counts the transitions between them that
/// a symbol sequence makes.
#[derive(Debug)]
pub struct DMarkovMachine {
    order: usize,
    alphabet_size: usize,
    states: Vec<String>,
    transition_counts: Vec<Vec<usize>>,
    departure_counts: Vec<usize>,
}

impl DMarkovMachine {
    #[verifier::type_invariant]
    spec fn well_formed(self) -> bool {
        let n = power(self.alphabet_size as nat, self.order as nat);
        &&& self.order > 0
        &&& self.alphabet_size > 0
        &&& 97 + self.alphabet_size <= 256
        &&& self.states@.len() == n
        &&& self.transition_counts@.len() == n
        &&& self.departure_counts@.len() == n
        &&& forall|k: int| 0 <= k < n ==> (#[trigger] self.states@[k])@ == state_word(k as nat, self.order as nat, self.alphabet_size as nat)
        &&& forall|k: int| 0 <= k < n ==> (#[trigger] self.transition_counts@[k])@.len() == n
    }

    /// The order `D` of the machine.
    pub closed spec fn spec_order(self) -> nat {
        self.order as nat
    }

    /// The alphabet size of the machine.
    pub closed spec fn spec_alphabet_size(self) -> nat {
        self.alphabet_size as nat
    }

    /// The transition counts: row `from`, column `to`.
    pub closed spec fn spec_transition_counts(self) -> Seq<Seq<usize>> {
        self.transition_counts@.map_values(|row: Vec<usize>| row@)
    }

    /// The number of transitions that leave each state.
    pub closed spec fn spec_departure_counts(self) -> Seq<usize> {
        self.departure_counts@
    }

    /// Create a D-Markov machine of depth `depth` over the first
    /// `alphabet_size` letters from a symbol sequence, counting the transitions
    /// between consecutive windows of `depth` symbols; a window that holds a
    /// symbol outside the alphabet is not counted.
    pub fn new(symbol_sequence: &[char], depth: usize, alphabet_size: usize) -> (r: SdfResult<DMarkovMachine>)
        requires
            machine_input_ok(symbol_sequence@, depth as nat, alphabet_size as nat),
        ensures
            r is Err <==> (symbol_sequence@.len() == 0 || depth == 0 || alphabet_size == 0
                || symbol_sequence@.len() < depth + 1),
            r matches Err(e) ==> (if symbol_sequence@.len() == 0 {
                e matches SdfError::InvalidParameter(m) && m@ == "Symbol sequence cannot be empty"@
            } else if depth == 0 {
                e matches SdfError::InvalidParameter(m) && m@ == "Depth must be > 0"@
            } else if alphabet_size == 0 {
                e matches SdfError::InvalidParameter(m) && m@ == "Alphabet size must be > 0"@
            } else {
                e matches SdfError::ComputationError(m) && m@ == "Sequence too short for given depth"@
            }),
            r matches Ok(m) ==> {
                let n = power(alphabet_size as nat, depth as nat);
                let s = symbol_sequence@;
                let windows = s.len() - depth;
                &&& m.spec_order() == depth
                &&& m.spec_alphabet_size() == alphabet_size
                &&& m.spec_transition_counts().len() == n
                &&& m.spec_departure_counts().len() == n
                &&& forall|f: int, t: int| 0 <= f < n && 0 <= t < n ==> #[trigger] m.spec_transition_counts()[f][t]
                    == transition_count(s, depth as nat, alphabet_size as nat, windows, f, t)
                &&& forall|f: int| 0 <= f < n ==> #[trigger] m.spec_departure_counts()[f]
                    == departure_count(s, depth as nat, alphabet_size as nat, windows, f)
            },
    {
        if symbol_sequence.len() == 0 {
            return Err(invalid_parameter("Symbol sequence cannot be empty"));
        }
        if depth == 0 {
            return Err(invalid_parameter("Depth must be > 0"));
        }
        if alphabet_size == 0 {
            return Err(invalid_parameter("Alphabet size must be > 0"));
        }
        let ghost a = alphabet_size as nat;
        let ghost d = depth as nat;
        proof {
            lemma_power_square_bound(a, d);
        }
        let n = power_of(alphabet_size, depth);
        let states = generate_states(depth, alphabet_size, n);
        if symbol_sequence.len() <= depth {
            return Err(computation_error("Sequence too short for given depth"));
        }
        let mut counts = zero_matrix(n, n);
        let mut departures = zeros(n);
        let windows = symbol_sequence.len() - depth;
        let ghost s = symbol_sequence@;
        let mut i: usize = 0;
        while i < windows
            invariant
                s == symbol_sequence@,
                windows == s.len() - d,
                d == depth,
                a == alphabet_size,
                depth > 0,
                alphabet_size > 0,
                n == power(a, d),
                n * n <= usize::MAX,
                i <= windows,
                counts@.len() == n,
                departures@.len() == n,
                forall|f: int| 0 <= f < n ==> (#[trigger] counts@[f])@.len() == n,
                forall|f: int, t: int| 0 <= f < n && 0 <= t < n ==> #[trigger] counts@[f]@[t]
                    == transition_count(s, d, a, i as int, f, t),
                forall|f: int| 0 <= f < n ==> #[trigger] departures@[f] == departure_count(s, d, a, i as int, f),
                forall|f: int| 0 <= f < n ==> #[trigger] departures@[f] <= i,
            decreases windows - i,
        {
            let from = window_index(symbol_sequence, i, depth, alphabet_size);
            let to = window_index(symbol_sequence, i + 1, depth, alphabet_size);
            let ghost cur = s.subrange(i as int, i + d);
            let ghost nxt = s.subrange(i + 1, i + 1 + d);
            proof {
                // The window is a transition exactly when both of its states are words.
                assert(window_ok(s, i as int, d, a) <==> (is_word(cur, a) && is_word(nxt, a))) by {
                    if is_word(cur, a) && is_word(nxt, a) {
                        assert forall|j: int| i <= j <= i + d implies in_alphabet(#[trigger] s[j], a) by {
                            if j < i + d {
                                assert(cur[j - i] == s[j]);
                            } else {
                                assert(nxt[j - i - 1] == s[j]);
                            }
                        }
                    }
                    if window_ok(s, i as int, d, a) {
                        assert forall|j: int| 0 <= j < cur.len() implies in_alphabet(#[trigger] cur[j], a) by {
                            assert(cur[j] == s[i + j]);
                        }
                        assert forall|j: int| 0 <= j < nxt.len() implies in_alphabet(#[trigger] nxt[j], a) by {
                            assert(nxt[j] == s[i + 1 + j]);
                        }
                    }
                }
            }
            match (from, to) {
                (Some(f), Some(t)) => {
                    proof {
                        lemma_word_is_state(cur, a);
                        lemma_word_is_state(nxt, a);
                        lemma_transition_bound(s, d, a, i as int, f as int, t as int);
                    }
                    let ghost old_counts = counts@;
                    bump(&mut counts, f, t);
                    let v = departures[f] + 1;
                    departures.set(f, v);
                    proof {
                        assert forall|p: int, q: int| 0 <= p < n && 0 <= q < n implies #[trigger] counts@[p]@[q]
                            == transition_count(s, d, a, i + 1, p, q) by {
                            if p != f {
                                assert(counts@[p] == old_counts[p]);
                            }
                        }
                    }
                },
                _ => {},
            }
            i = i + 1;
        }
        Ok(DMarkovMachine {
            order: depth,
            alphabet_size,
            states,
            transition_counts: counts,
            departure_counts: departures,
        })
    }

    /// Transition counts over a given list of state labels: for each window
    /// of `depth` symbols whose word and next word are both listed (at their
    /// last listing), the count of that pair of states; and for each state,
    /// the number of transitions that leave it. A sequence shorter than
    /// `depth + 1` is refused.
    pub fn build_transition_counts(symbol_sequence: &[char], states: &[String], depth: usize) -> (r: SdfResult<(Vec<Vec<usize>>, Vec<usize>)>)
        requires
            depth < usize::MAX,
            states@.len() * states@.len() <= usize::MAX,
            depth > 1 ==> forall|i: int| 0 <= i < symbol_sequence@.len() - depth ==> (#[trigger] symbol_sequence@[i] as u32) < 128,
        ensures
            r is Err <==> symbol_sequence@.len() < depth + 1,
            r matches Err(e) ==> (e matches SdfError::ComputationError(m) && m@ == "Sequence too short for given depth"@),
            r matches Ok((m, rows)) ==> {
                let n = states@.len();
                let labels = states@.map_values(|s: String| s@);
                let windows = symbol_sequence@.len() - depth;
                &&& m@.len() == n
                &&& rows@.len() == n
                &&& forall|f: int| 0 <= f < n ==> (#[trigger] m@[f])@.len() == n
                &&& forall|f: int, t: int| 0 <= f < n && 0 <= t < n ==> #[trigger] m@[f]@[t]
                    == listed_transition_count(symbol_sequence@, labels, depth as nat, windows, f, t)
                &&& forall|f: int| 0 <= f < n ==> #[trigger] rows@[f]
                    == listed_departure_count(symbol_sequence@, labels, depth as nat, windows, f)
            },
    {
        let n = states.len();
        if symbol_sequence.len() < depth + 1 {
            return Err(computation_error("Sequence too short for given depth"));
        }
        let mut counts = zero_matrix(n, n);
        let mut departures = zeros(n);
        let slen = symbol_sequence.len();
        let windows = slen - depth;
        let ghost s = symbol_sequence@;
        let ghost labels = states@.map_values(|st: String| st@);
        let ghost d = depth as nat;
        let mut i: usize = 0;
        while i < windows
            invariant
                s == symbol_sequence@,
                labels == states@.map_values(|st: String| st@),
                n == states@.len(),
                d == depth,
                depth < usize::MAX,
                slen == s.len(),
                windows == s.len() - depth,
                i <= windows,
                counts@.len() == n,
                departures@.len() == n,
                forall|f: int| 0 <= f < n ==> (#[trigger] counts@[f])@.len() == n,
                forall|f: int, t: int| 0 <= f < n && 0 <= t < n ==> #[trigger] counts@[f]@[t]
                    == listed_transition_count(s, labels, d, i as int, f, t),
                forall|f: int| 0 <= f < n ==> #[trigger] departures@[f] == listed_departure_count(s, labels, d, i as int, f),
            decreases windows - i,
        {
            let mut cur: Vec<char> = Vec::new();
            let mut j: usize = 0;
            while j < depth
                invariant
                    s == symbol_sequence@,
                    i < windows,
                    slen == s.len(),
                    windows == s.len() - depth,
                    j <= depth,
                    cur@ == s.subrange(i as int, i + j),
                decreases depth - j,
            {
                cur.push(symbol_sequence[i + j]);
                j = j + 1;
                assert(cur@ =~= s.subrange(i as int, i + j));
            }
            let mut nxt: Vec<char> = Vec::new();
            if depth > 0 {
                let mut j: usize = 1;
                while j <= depth
                    invariant
                        s == symbol_sequence@,
                        i < windows,
                        slen == s.len(),
                        windows == s.len() - depth,
                        1 <= j <= depth + 1,
                        depth < usize::MAX,
                        nxt@ == s.subrange(i + 1, i + j),
                    decreases depth + 1 - j,
                {
                    nxt.push(symbol_sequence[i + j]);
                    j = j + 1;
                    assert(nxt@ =~= s.subrange(i + 1, i + j));
                }
            } else {
                nxt.push(symbol_sequence[i]);
                assert(nxt@ =~= s.subrange(i as int, i + 1));
            }
            let current_state = string_from_chars(cur.as_slice());
            let next_state = string_from_chars(nxt.as_slice());
            let from = find_state(states, &current_state);
            let to = find_state(states, &next_state);
            match (from, to) {
                (Some(f), Some(t)) => {
                    proof {
                        lemma_listed_bound(s, labels, d, i as int, f as int, t as int);
                        lemma_last_index_range(labels, cur@);
                        lemma_last_index_range(labels, nxt@);
                    }
                    let ghost old_counts = counts@;
                    bump(&mut counts, f, t);
                    let v = departures[f] + 1;
                    departures.set(f, v);
                    proof {
                        assert forall|p: int, q: int| 0 <= p < n && 0 <= q < n implies #[trigger] counts@[p]@[q]
                            == listed_transition_count(s, labels, d, i + 1, p, q) by {
                            if p != f {
                                assert(counts@[p] == old_counts[p]);
                            }
                        }
                    }
                },
                _ => {},
            }
            i = i + 1;
        }
        Ok((counts, departures))
    }

    /// The order `D` of the machine.
    pub fn order(&self) -> (r: usize)
        ensures
            r == self.spec_order(),
    {
        self.order
    }

    /// The number of states, `alphabet_size ^ order`.
    pub fn n_states(&self) -> (r: usize)
        ensures
            r == power(self.spec_alphabet_size(), self.spec_order()),
    {
        proof { use_type_invariant(self); }
        self.states.len()
    }

    /// The state at `index`, or an error when there is no such state.
    pub fn state(&self, index: usize) -> (r: SdfResult<&String>)
        ensures
            r is Ok <==> index < power(self.spec_alphabet_size(), self.spec_order()),
            r matches Ok(w) ==> w@ == state_word(index as nat, self.spec_order(), self.spec_alphabet_size()),
            r matches Err(e) ==> (e matches SdfError::InvalidParameter(m) && m@ == "State index out of bounds"@),
    {
        proof { use_type_invariant(self); }
        if index < self.states.len() {
            Ok(&self.states[index])
        } else {
            Err(invalid_parameter("State index out of bounds"))
        }
    }

    /// All states, in lexicographic order.
    pub fn states(&self) -> (r: &[String])
        ensures
            r@.len() == power(self.spec_alphabet_size(), self.spec_order()),
            forall|k: int| 0 <= k < r@.len() ==> (#[trigger] r@[k])@ == state_word(k as nat, self.spec_order(), self.spec_alphabet_size()),
    {
        proof { use_type_invariant(self); }
        self.states.as_slice()
    }

    /// The transition counts, row `from` and column `to`.
    pub fn transition_counts(&self) -> (r: &Vec<Vec<usize>>)
        ensures
            r@.map_values(|row: Vec<usize>| row@) == self.spec_transition_counts(),
            r@.len() == power(self.spec_alphabet_size(), self.spec_order()),
            forall|k: int| 0 <= k < r@.len() ==> (#[trigger] r@[k])@.len() == r@.len(),
    {
        proof { use_type_invariant(self); }
        &self.transition_counts
    }

    /// The number of transitions that leave each state.
    pub fn departure_counts(&self) -> (r: &[usize])
        ensures
            r@ == self.spec_departure_counts(),
    {
        self.departure_counts.as_slice()
    }
}

} // verus!
