//! Symbol alphabets for symbolic encoding.

use vstd::prelude::*;
use vstd::string::*;
use crate::error::{SdfError, SdfResult, invalid_parameter};
use crate::text::{copy_chars, decimal, decimal_string, string_from_chars};

verus! {

/// The largest number of symbols an alphabet may be created with.
pub const MAX_SYMBOLS: usize = 26;

/// The `i`-th lower-case letter, counted from `'a'`.
pub open spec fn letter(i: int) -> char {
    ((97 + i) as u32) as char
}

/// The letter `'a' + i` as a byte-sized character; `i` keeps it within a byte.
pub fn letter_at(i: usize) -> (c: char)
    requires
        97 + i < 256,
    ensures
        c == letter(i as int),
{
    let b: u8 = 97u8 + (i as u8);
    b as char
}

/// Symbol alphabet for encoding.
#[derive(Debug, Clone, PartialEq)]
pub enum Alphabet {
    /// Binary alphabet {a, b}
    Binary,
    /// Quaternary alphabet {a, b, c, d}
    Quaternary,
    /// Generic alphabet with n symbols (a, b, c, ...)
    Generic(usize),
    /// Custom symbols
    Custom(Vec<char>),
}

impl Alphabet {
    /// An alphabet whose symbols can be listed: the letters of a generic
    /// alphabet are computed in one byte, so they must not run past it.
    pub open spec fn is_valid(self) -> bool {
        self matches Alphabet::Generic(n) ==> 97 + n <= 256
    }

    /// The symbols of the alphabet, in order.
    pub open spec fn symbol_seq(self) -> Seq<char> {
        match self {
            Alphabet::Binary => seq!['a', 'b'],
            Alphabet::Quaternary => seq!['a', 'b', 'c', 'd'],
            Alphabet::Generic(n) => Seq::new(n as nat, |i: int| letter(i)),
            Alphabet::Custom(v) => v@,
        }
    }

    /// The text that describes the alphabet.
    pub open spec fn display_seq(self) -> Seq<char> {
        match self {
            Alphabet::Binary => "Binary{a,b}"@,
            Alphabet::Quaternary => "Quaternary{a,b,c,d}"@,
            Alphabet::Generic(n) => "Alphabet(n="@ + decimal(n as nat) + "; {"@ + self.symbol_seq()
                + "})"@,
            Alphabet::Custom(v) => "Custom{"@ + v@ + "}"@,
        }
    }

    /// The symbols of the alphabet are pairwise different.
    pub open spec fn distinct_symbols(self) -> bool {
        forall|i: int, j: int|
            0 <= i < j < self.symbol_seq().len() ==> self.symbol_seq()[i] != self.symbol_seq()[j]
    }

    /// Create an alphabet with the specified size: the letters a, b, c, ...
    pub fn new(size: usize) -> (r: SdfResult<Self>)
        ensures
            r is Err <==> (size == 0 || size > MAX_SYMBOLS),
            r matches Ok(a) ==> a == Alphabet::Generic(size),
            r matches Err(e) ==> (e matches SdfError::InvalidParameter(m) && m@ == "Alphabet size must be between 1 and 26"@),
    {
        if size == 0 || size > MAX_SYMBOLS {
            return Err(invalid_parameter("Alphabet size must be between 1 and 26"));
        }
        Ok(Alphabet::Generic(size))
    }

    /// Create a binary alphabet {a, b}.
    pub fn binary() -> (r: Self)
        ensures
            r == Alphabet::Binary,
    {
        Alphabet::Binary
    }

    /// Create a quaternary alphabet {a, b, c, d}.
    pub fn quaternary() -> (r: Self)
        ensures
            r == Alphabet::Quaternary,
    {
        Alphabet::Quaternary
    }

    /// Create an alphabet from explicit symbols.
    pub fn from_symbols(symbols: Vec<char>) -> (r: SdfResult<Self>)
        ensures
            r is Err <==> (symbols@.len() == 0 || symbols@.len() > MAX_SYMBOLS),
            r matches Ok(a) ==> a is Custom && a.symbol_seq() == symbols@,
            r matches Err(e) ==> (e matches SdfError::InvalidParameter(m) && m@ == (if symbols@.len() == 0 {
                "Symbols cannot be empty"@
            } else {
                "Cannot have more than 26 symbols"@
            })),
    {
        if symbols.len() == 0 {
            return Err(invalid_parameter("Symbols cannot be empty"));
        }
        if symbols.len() > MAX_SYMBOLS {
            return Err(invalid_parameter("Cannot have more than 26 symbols"));
        }
        Ok(Alphabet::Custom(symbols))
    }

    /// All symbols of the alphabet, in order.
    pub fn symbols(&self) -> (r: Vec<char>)
        requires
            self.is_valid(),
        ensures
            r@ == self.symbol_seq(),
            *self matches Alphabet::Generic(n) ==> r@.len() == n && forall|i: int|
                0 <= i < n ==> (#[trigger] r@[i] as u32) == 97 + i,
    {
        proof {
            if let Alphabet::Generic(n) = self {
                lemma_generic_letters(*n);
            }
        }
        match self {
            Alphabet::Binary => vec!['a', 'b'],
            Alphabet::Quaternary => vec!['a', 'b', 'c', 'd'],
            Alphabet::Generic(n) => {
                let n = *n;
                let mut v: Vec<char> = Vec::new();
                let mut i: usize = 0;
                while i < n
                    invariant
                        i <= n,
                        97 + n <= 256,
                        v@ == Seq::new(i as nat, |k: int| letter(k)),
                    decreases n - i,
                {
                    v.push(letter_at(i));
                    i = i + 1;
                    assert(v@ =~= Seq::new(i as nat, |k: int| letter(k)));
                }
                assert(v@ =~= self.symbol_seq());
                v
            },
            Alphabet::Custom(s) => copy_chars(s.as_slice()),
        }
    }

    /// The number of symbols.
    pub fn size(&self) -> (r: usize)
        requires
            self.is_valid(),
        ensures
            r == self.symbol_seq().len(),
    {
        self.symbols().len()
    }

    /// The symbol at `index`, or an error when the alphabet has no such position.
    pub fn symbol(&self, index: usize) -> (r: SdfResult<char>)
        requires
            self.is_valid(),
        ensures
            r is Ok <==> index < self.symbol_seq().len(),
            r matches Ok(c) ==> c == self.symbol_seq()[index as int],
            (*self matches Alphabet::Generic(n) && index < n) ==> (r matches Ok(c) && (c as u32) == 97 + index),
            r matches Err(e) ==> (e matches SdfError::InvalidParameter(m) && m@ == "Symbol index "@
                + decimal(index as nat) + " out of bounds"@),
    {
        proof {
            if let Alphabet::Generic(n) = self {
                lemma_generic_letters(*n);
            }
        }
        let symbols = self.symbols();
        if index >= symbols.len() {
            let mut m = String::from_str("Symbol index ");
            let d = decimal_string(index);
            m.append(d.as_str());
            m.append(" out of bounds");
            return Err(SdfError::InvalidParameter(m));
        }
        Ok(symbols[index])
    }

    /// The symbol at position `n`, if there is one.
    pub fn nth_symbol(&self, n: usize) -> (r: Option<char>)
        requires
            self.is_valid(),
        ensures
            r is Some <==> n < self.symbol_seq().len(),
            r matches Some(c) ==> c == self.symbol_seq()[n as int],
    {
        match self.symbol(n) {
            Ok(c) => Some(c),
            Err(_) => None,
        }
    }

    /// Whether `c` is a symbol of this alphabet.
    pub fn contains(&self, c: char) -> (r: bool)
        requires
            self.is_valid(),
        ensures
            r == self.symbol_seq().contains(c),
    {
        match self.index_of(c) {
            Some(_) => true,
            None => false,
        }
    }

    /// The first position of `c` in the alphabet.
    pub fn index_of(&self, c: char) -> (r: Option<usize>)
        requires
            self.is_valid(),
        ensures
            r is None <==> !self.symbol_seq().contains(c),
            r matches Some(i) ==> i < self.symbol_seq().len() && self.symbol_seq()[i as int] == c
                && forall|j: int| 0 <= j < i ==> self.symbol_seq()[j] != c,
    {
        let symbols = self.symbols();
        let mut i: usize = 0;
        while i < symbols.len()
            invariant
                i <= symbols@.len(),
                symbols@ == self.symbol_seq(),
                forall|j: int| 0 <= j < i ==> symbols@[j] != c,
            decreases symbols@.len() - i,
        {
            if symbols[i] == c {
                return Some(i);
            }
            i = i + 1;
        }
        None
    }

    /// The symbol of each region index; an index past the alphabet gives `'?'`.
    pub fn symbols_for_regions(&self, regions: &[usize]) -> (r: Vec<char>)
        requires
            self.is_valid(),
        ensures
            r@.len() == regions@.len(),
            forall|i: int|
                0 <= i < regions@.len() ==> #[trigger] r@[i] == (if regions@[i]
                    < self.symbol_seq().len() {
                    self.symbol_seq()[regions@[i] as int]
                } else {
                    '?'
                }),
    {
        let symbols = self.symbols();
        let mut r: Vec<char> = Vec::new();
        let mut i: usize = 0;
        while i < regions.len()
            invariant
                i <= regions@.len(),
                symbols@ == self.symbol_seq(),
                r@.len() == i,
                forall|k: int|
                    0 <= k < i ==> #[trigger] r@[k] == (if regions@[k] < symbols@.len() {
                        symbols@[regions@[k] as int]
                    } else {
                        '?'
                    }),
            decreases regions@.len() - i,
        {
            let region = regions[i];
            if region < symbols.len() {
                r.push(symbols[region]);
            } else {
                r.push('?');
            }
            i = i + 1;
        }
        r
    }

    /// The text that describes the alphabet, as its `Display` form reads.
    pub fn display_string(&self) -> (r: String)
        requires
            self.is_valid(),
        ensures
            r@ == self.display_seq(),
    {
        match self {
            Alphabet::Binary => String::from_str("Binary{a,b}"),
            Alphabet::Quaternary => String::from_str("Quaternary{a,b,c,d}"),
            Alphabet::Generic(n) => {
                let mut r = String::from_str("Alphabet(n=");
                let d = decimal_string(*n);
                r.append(d.as_str());
                r.append("; {");
                let symbols = self.symbols();
                let s = string_from_chars(symbols.as_slice());
                r.append(s.as_str());
                r.append("})");
                r
            },
            Alphabet::Custom(v) => {
                let mut r = String::from_str("Custom{");
                let s = string_from_chars(v.as_slice());
                r.append(s.as_str());
                r.append("}");
                r
            },
        }
    }
}

/// A generic alphabet of `n` letters lists, at each position `i`, the
/// character of code `97 + i`: `'a'`, `'b'`, `'c'`, ... in order.
pub proof fn lemma_generic_letters(n: usize)
    requires
        97 + n <= 256,
    ensures
        Alphabet::Generic(n).symbol_seq().len() == n,
        forall|i: int| 0 <= i < n ==> (#[trigger] Alphabet::Generic(n).symbol_seq()[i] as u32) == 97 + i,
{
    assert forall|i: int| 0 <= i < n implies (#[trigger] Alphabet::Generic(n).symbol_seq()[i] as u32) == 97 + i by {
        let c = letter(i);
        vstd::utf8::char_u32_cast(c, c as u32);
        assert(Alphabet::Generic(n).symbol_seq()[i] == c);
    }
}

/// The letter alphabets (binary, quaternary, generic) list each symbol once.
pub proof fn lemma_letter_alphabets_distinct(a: Alphabet)
    requires
        a.is_valid(),
        !(a is Custom),
    ensures
        a.distinct_symbols(),
{
    assert forall|i: int, j: int| 0 <= i < j < a.symbol_seq().len() implies a.symbol_seq()[i] != a.symbol_seq()[j] by {
        match a {
            Alphabet::Generic(n) => {
                let ci = letter(i);
                let cj = letter(j);
                vstd::utf8::char_u32_cast(ci, ci as u32);
                assert((ci as u32) != (cj as u32));
            },
            _ => {},
        }
    }
}

/// In an alphabet that lists each symbol once, the position of the symbol at
/// `i` is `i`: `index_of` undoes `symbol`.
pub proof fn lemma_index_of_symbol(a: Alphabet, i: int)
    requires
        a.distinct_symbols(),
        0 <= i < a.symbol_seq().len(),
    ensures
        a.symbol_seq().contains(a.symbol_seq()[i]),
        forall|j: int| 0 <= j < i ==> a.symbol_seq()[j] != a.symbol_seq()[i],
{
}

impl Default for Alphabet {
    /// The default alphabet has three letters.
    fn default() -> (r: Self)
        ensures
            r == Alphabet::Generic(3),
    {
        Alphabet::Generic(3)
    }
}

} // verus!
