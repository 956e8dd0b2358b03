//! Symbols: the unit of the Markov alphabet.
//!
//! A symbol is either a character of the training corpus, carried as its
//! Unicode scalar value, or the reserved `Terminator` sentinel that marks the
//! start and the end of a sequence.  The sentinel is kept out of band — it is
//! a distinct enum variant, not a character — so a corpus may contain any
//! character at all without colliding with it.

use vstd::prelude::*;

verus! {

/// One position in a training or generated sequence.
#[derive(Clone, Copy, Debug, PartialEq, Eq, Structural)]
pub enum Symbol {
    /// The reserved sentinel that pads the front of every training word and
    /// closes its end.  It is never part of an alphabet.
    Terminator,
    /// An ordinary character of the corpus, as its Unicode scalar value.
    Letter(u32),
}

impl Symbol {
    /// Whether this symbol is the reserved sentinel.
    pub fn is_terminator(&self) -> (r: bool)
        ensures
            r == (*self is Terminator),
    {
        match self {
            Symbol::Terminator => true,
            Symbol::Letter(_) => false,
        }
    }
}

/// The symbol standing for one character.
pub open spec fn sym_of(c: char) -> Symbol {
    Symbol::Letter(c as u32)
}

/// The sequence of symbols standing for a word: one `Letter` per character.
pub open spec fn letters_of(w: Seq<char>) -> Seq<Symbol> {
    Seq::new(w.len(), |i: int| sym_of(w[i]))
}

/// A word padded for training at a given order: `order` leading terminators,
/// the word's characters, and one trailing terminator.
pub open spec fn padded_word(w: Seq<char>, order: nat) -> Seq<Symbol> {
    Seq::new(order, |i: int| Symbol::Terminator) + letters_of(w)
        + seq![Symbol::Terminator]
}

/// Compares two symbol strings element by element.
pub fn symbols_eq(a: &Vec<Symbol>, b: &Vec<Symbol>) -> (r: bool)
    ensures
        r == (a@ == b@),
{
    if a.len() != b.len() {
        assert(a@.len() != b@.len());
        return false;
    }
    let mut i: usize = 0;
    while i < a.len()
        invariant
            0 <= i <= a.len(),
            a@.len() == b@.len(),
            forall|j: int| 0 <= j < i ==> a@[j] == b@[j],
        decreases a.len() - i,
    {
        if a[i] != b[i] {
            assert(a@[i as int] != b@[i as int]);
            assert(a@ != b@);
            return false;
        }
        i += 1;
    }
    assert(a@ =~= b@);
    true
}

/// Copies the symbols of the half-open range `[from, to)` out of a vector.
pub fn slice_symbols(v: &Vec<Symbol>, from: usize, to: usize) -> (r: Vec<Symbol>)
    requires
        from <= to <= v@.len(),
    ensures
        r@ == v@.subrange(from as int, to as int),
{
    let mut r: Vec<Symbol> = Vec::new();
    let mut i: usize = from;
    while i < to
        invariant
            from <= i <= to <= v@.len(),
            r@ =~= v@.subrange(from as int, i as int),
        decreases to - i,
    {
        r.push(v[i]);
        i += 1;
        proof {
            assert(r@ =~= v@.subrange(from as int, i as int));
        }
    }
    r
}

/// Builds the padded symbol sequence of a word.
pub fn pad_word(word: &str, order: usize) -> (r: Vec<Symbol>)
    requires
        order + word@.len() + 1 <= usize::MAX,
    ensures
        r@ == padded_word(word@, order as nat),
{
    let n = word.unicode_len();
    let mut r: Vec<Symbol> = Vec::new();
    let mut i: usize = 0;
    while i < order
        invariant
            0 <= i <= order,
            r@ =~= Seq::new(i as nat, |j: int| Symbol::Terminator),
        decreases order - i,
    {
        r.push(Symbol::Terminator);
        i += 1;
    }
    let mut k: usize = 0;
    while k < n
        invariant
            0 <= k <= n,
            n == word@.len(),
            order + n + 1 <= usize::MAX,
            r@ =~= Seq::new(order as nat, |j: int| Symbol::Terminator)
                + letters_of(word@.take(k as int)),
        decreases n - k,
    {
        let c = word.get_char(k);
        r.push(Symbol::Letter(c as u32));
        k += 1;
        proof {
            assert(r@ =~= Seq::new(order as nat, |j: int| Symbol::Terminator)
                + letters_of(word@.take(k as int)));
        }
    }
    r.push(Symbol::Terminator);
    proof {
        assert(word@.take(n as int) =~= word@);
        assert(r@ =~= padded_word(word@, order as nat));
    }
    r
}

} // verus!
