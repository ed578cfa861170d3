//! The discrete side of symbolic encoding: words of consecutive symbols.

use vstd::prelude::*;
use crate::text::string_from_chars;

verus! {

/// The words of `word_length` consecutive symbols, one for each window
/// position, in order (the n-grams of the sequence).
pub fn sliding_words(sequence: &[char], word_length: usize) -> (r: Vec<String>)
    requires
        word_length > 0,
    ensures
        r@.len() == if sequence@.len() >= word_length { sequence@.len() - word_length + 1 } else { 0 },
        forall|i: int| 0 <= i < r@.len() ==> (#[trigger] r@[i])@ == sequence@.subrange(i, i + word_length),
{
    let mut r: Vec<String> = Vec::new();
    let slen = sequence.len();
    if slen < word_length {
        return r;
    }
    let count = slen - word_length + 1;
    let mut i: usize = 0;
    while i < count
        invariant
            slen == sequence@.len(),
            slen >= word_length,
            word_length > 0,
            count == slen - word_length + 1,
            i <= count,
            r@.len() == i,
            forall|k: int| 0 <= k < i ==> (#[trigger] r@[k])@ == sequence@.subrange(k, k + word_length),
        decreases count - i,
    {
        let mut chars: Vec<char> = Vec::new();
        let mut j: usize = 0;
        while j < word_length
            invariant
                slen == sequence@.len(),
                i < count,
                count == slen - word_length + 1,
                j <= word_length,
                chars@ == sequence@.subrange(i as int, i + j),
            decreases word_length - j,
        {
            chars.push(sequence[i + j]);
            j = j + 1;
            assert(chars@ =~= sequence@.subrange(i as int, i + j));
        }
        r.push(string_from_chars(chars.as_slice()));
        i = i + 1;
    }
    r
}

/// The window `[start, end)` a centred moving average of width
/// `window_size` uses at position `i` of a series of length `len`: the width
/// is first capped at `len`, and the window is cut at both ends of the series.
pub open spec fn smoothing_window(len: nat, window_size: nat, i: nat) -> (int, int) {
    let w = if window_size < len { window_size } else { len };
    let half = w / 2;
    let start: int = if i >= half { i - half } else { 0int };
    let end: int = if i + half + 1 < len { (i + half + 1) as int } else { len as int };
    (start, end)
}

/// Each smoothing window is centred on its position: it reaches half the
/// (capped) width to either side, cut at the ends of the series; a window
/// that is not cut holds an odd number of positions, the width rounded up to
/// odd.
pub proof fn lemma_smoothing_window_centred(len: nat, window_size: nat, i: nat)
    requires
        i < len,
    ensures
        ({
            let w = if window_size < len { window_size } else { len };
            let (start, end) = smoothing_window(len, window_size, i);
            &&& start == (if i >= w / 2 { i - w / 2 } else { 0int })
            &&& end == (if i + w / 2 + 1 < len { (i + w / 2 + 1) as int } else { len as int })
            &&& start <= i < end <= len
            &&& (i >= w / 2 && i + w / 2 < len) ==> end - start == 2 * (w / 2) + 1
        }),
{
}

/// The averaging windows of a centred moving average, one per position; an
/// empty series or a zero width smooths nothing and gives no window.
pub fn smoothing_windows(len: usize, window_size: usize) -> (r: Vec<(usize, usize)>)
    requires
        len + (if window_size < len { window_size } else { len }) / 2 < usize::MAX,
    ensures
        r@.len() == if len == 0 || window_size == 0 { 0 } else { len as int },
        forall|i: int| 0 <= i < r@.len() ==> (#[trigger] r@[i]).0 == smoothing_window(len as nat, window_size as nat, i as nat).0
            && r@[i].1 == smoothing_window(len as nat, window_size as nat, i as nat).1,
        forall|i: int| 0 <= i < r@.len() ==> (#[trigger] r@[i]).0 <= i < r@[i].1 <= len,
        forall|i: int| 0 <= i < r@.len() ==> {
            let half = (if window_size < len { window_size } else { len }) / 2;
            &&& (#[trigger] r@[i]).0 == (if i >= half { i - half } else { 0 })
            &&& r@[i].1 == (if i + half + 1 < len { i + half + 1 } else { len as int })
        },
{
    let mut r: Vec<(usize, usize)> = Vec::new();
    if len == 0 || window_size == 0 {
        return r;
    }
    let w = if window_size < len { window_size } else { len };
    let half = w / 2;
    let mut i: usize = 0;
    while i < len
        invariant
            len + w / 2 < usize::MAX,
            w == if window_size < len { window_size } else { len },
            half == w / 2,
            i <= len,
            r@.len() == i,
            forall|k: int| 0 <= k < i ==> (#[trigger] r@[k]).0 == smoothing_window(len as nat, window_size as nat, k as nat).0
                && r@[k].1 == smoothing_window(len as nat, window_size as nat, k as nat).1,
            forall|k: int| 0 <= k < i ==> (#[trigger] r@[k]).0 <= k < r@[k].1 <= len,
        decreases len - i,
    {
        let start = if i >= half { i - half } else { 0 };
        let end = if i + half + 1 < len { i + half + 1 } else { len };
        r.push((start, end));
        i = i + 1;
    }
    r
}

} // verus!
