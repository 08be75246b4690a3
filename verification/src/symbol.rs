//! Interned-style identifier symbols.
//!
//! A `Symbol` is an identifier, held as its ASCII bytes, with cheap equality
//! and a snake-case transform used by the resolver's fuzzy fallback and by
//! field-name canonicalization.
use vstd::prelude::*;

verus! {

use vstd::string::StringSliceAdditionalSpecFns;

pub const UPPER_A: u8 = 65;

pub const UPPER_Z: u8 = 90;

pub const LOWER_A: u8 = 97;

pub const LOWER_Z: u8 = 122;

pub const DIGIT_0: u8 = 48;

pub const DIGIT_9: u8 = 57;

pub const UNDERSCORE: u8 = 95;

/// An identifier: a sequence of bytes (ASCII in practice).
#[derive(Clone, Debug, Eq, PartialEq, Hash)]
pub struct Symbol {
    pub bytes: Vec<u8>,
}

impl View for Symbol {
    type V = Seq<u8>;

    open spec fn view(&self) -> Seq<u8> {
        self.bytes@
    }
}

/// True of ASCII uppercase letters.
pub open spec fn is_upper(b: u8) -> bool {
    UPPER_A <= b <= UPPER_Z
}

/// True of ASCII lowercase letters.
pub open spec fn is_lower(b: u8) -> bool {
    LOWER_A <= b <= LOWER_Z
}

/// The lowercase form of one ASCII byte.
pub open spec fn to_lower(b: u8) -> u8 {
    if is_upper(b) {
        (b + 32) as u8
    } else {
        b
    }
}

/// The snake-case transform, one byte at a time: an uppercase letter that
/// follows a lowercase letter or a digit opens a new word with `_`, and all
/// uppercase letters are lowered.
pub open spec fn snake_bytes(s: Seq<u8>) -> Seq<u8>
    decreases s.len(),
{
    if s.len() == 0 {
        Seq::empty()
    } else {
        let rest = snake_bytes(s.drop_last());
        let b = s.last();
        if is_upper(b) {
            if s.len() > 1 && (is_lower(s[s.len() - 2]) || (DIGIT_0 <= s[s.len() - 2]
                <= DIGIT_9)) {
                rest.push(UNDERSCORE).push(to_lower(b))
            } else {
                rest.push(to_lower(b))
            }
        } else {
            rest.push(b)
        }
    }
}

/// A byte sequence is snake case when it holds no ASCII uppercase letter.
pub open spec fn is_snake_case(s: Seq<u8>) -> bool {
    forall|i: int| 0 <= i < s.len() ==> !is_upper(#[trigger] s[i])
}

/// The snake-case transform never leaves an uppercase letter behind.
pub proof fn lemma_snake_bytes_is_snake_case(s: Seq<u8>)
    ensures
        is_snake_case(snake_bytes(s)),
    decreases s.len(),
{
    if s.len() != 0 {
        lemma_snake_bytes_is_snake_case(s.drop_last());
    }
}

impl Symbol {
    /// Builds a symbol from a string's bytes.
    pub fn from_str(s: &str) -> (r: Symbol)
        ensures
            r@ == s.spec_bytes(),
    {
        let bytes = s.as_bytes();
        Symbol { bytes: vstd::slice::slice_to_vec(bytes) }
    }

    /// Builds a symbol directly from bytes.
    pub fn from_bytes(bytes: Vec<u8>) -> (r: Symbol)
        ensures
            r@ == bytes@,
    {
        Symbol { bytes }
    }

    /// A structural copy with a known view.
    pub fn duplicate(&self) -> (r: Symbol)
        ensures
            r@ == self@,
    {
        Symbol { bytes: vstd::slice::slice_to_vec(self.bytes.as_slice()) }
    }

    pub fn len(&self) -> (r: usize)
        ensures
            r == self@.len(),
    {
        self.bytes.len()
    }

    /// Byte-wise equality.
    pub fn eq_sym(&self, other: &Symbol) -> (r: bool)
        ensures
            r == (self@ == other@),
    {
        if self.bytes.len() != other.bytes.len() {
            assert(self@ != other@);
            return false;
        }
        let n = self.bytes.len();
        let mut i: usize = 0;
        while i < n
            invariant
                n == self@.len() == other@.len(),
                0 <= i <= n,
                forall|j: int| 0 <= j < i ==> self@[j] == other@[j],
            decreases n - i,
        {
            if self.bytes[i] != other.bytes[i] {
                return false;
            }
            i = i + 1;
        }
        assert(self@ =~= other@);
        true
    }

    /// The snake-case form of this symbol.
    pub fn to_snake_case(&self) -> (r: Symbol)
        ensures
            r@ == snake_bytes(self@),
    {
        let n = self.bytes.len();
        let mut out: Vec<u8> = Vec::new();
        let mut i: usize = 0;
        while i < n
            invariant
                n == self@.len(),
                0 <= i <= n,
                out@ == snake_bytes(self@.take(i as int)),
            decreases n - i,
        {
            let b = self.bytes[i];
            proof {
                assert(self@.take(i + 1).drop_last() =~= self@.take(i as int));
                assert(self@.take(i + 1).last() == self@[i as int]);
            }
            if UPPER_A <= b && b <= UPPER_Z {
                if i > 0 {
                    let p = self.bytes[i - 1];
                    if (LOWER_A <= p && p <= LOWER_Z) || (DIGIT_0 <= p && p <= DIGIT_9) {
                        out.push(UNDERSCORE);
                    }
                }
                out.push(b + 32);
            } else {
                out.push(b);
            }
            i = i + 1;
        }
        proof {
            assert(self@.take(n as int) =~= self@);
        }
        Symbol { bytes: out }
    }
}

/// The views of a sequence of symbols.
pub open spec fn syms_view(s: Seq<Symbol>) -> Seq<Seq<u8>> {
    s.map_values(|sym: Symbol| sym@)
}

/// Whether one of the symbols has the view of `s`.
pub fn syms_contains(v: &Vec<Symbol>, s: &Symbol) -> (r: bool)
    ensures
        r == syms_view(v@).contains(s@),
{
    let n = v.len();
    let mut i: usize = 0;
    while i < n
        invariant
            n == v@.len(),
            0 <= i <= n,
            forall|j: int| 0 <= j < i ==> syms_view(v@)[j] != s@,
        decreases n - i,
    {
        if v[i].eq_sym(s) {
            assert(syms_view(v@)[i as int] == s@);
            return true;
        }
        i = i + 1;
    }
    assert(!syms_view(v@).contains(s@));
    false
}

/// A structural copy of a symbol sequence, with the same views.
pub fn clone_syms(v: &Vec<Symbol>) -> (r: Vec<Symbol>)
    ensures
        syms_view(r@) == syms_view(v@),
{
    let n = v.len();
    let mut out: Vec<Symbol> = Vec::new();
    let mut i: usize = 0;
    while i < n
        invariant
            n == v@.len(),
            0 <= i <= n,
            out@.len() == i,
            forall|j: int| 0 <= j < i ==> syms_view(out@)[j] == syms_view(v@)[j],
        decreases n - i,
    {
        out.push(v[i].duplicate());
        i = i + 1;
    }
    assert(syms_view(out@) =~= syms_view(v@));
    out
}

} // verus!
