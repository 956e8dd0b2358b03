//! Wordlist acquisition: the dictionary a passphrase draws from.
//!
//! A wordlist is the set of distinct nonempty tokens of a delimited text,
//! handed out in random order.  Reading the text is the embedding
//! program's part.

use vstd::prelude::*;

use crate::corpus::{split_text, split_tokens};
use crate::random::shuffle_strings;

verus! {

broadcast use vstd::seq_lib::group_to_multiset_ensures;

/// Why a wordlist could not be produced.
#[derive(Debug, Clone, Copy, PartialEq, Eq, Structural)]
pub enum WordlistError {
    /// The text held no usable words: nothing but delimiters, or nothing.
    EmptyWordlist,
}

/// Whether some entry of a word vector reads `c`.
pub open spec fn has_word(v: Seq<String>, c: Seq<char>) -> bool {
    exists|i: int| 0 <= i < v.len() && (#[trigger] v[i])@ == c
}

/// Drops every repeated word, keeping first occurrences in order.
fn dedup_strings(v: &Vec<String>) -> (r: Vec<String>)
    ensures
        forall|i: int, j: int| 0 <= i < j < r@.len() ==> (#[trigger] r@[i])@ != (#[trigger] r@[j])@,
        forall|c: Seq<char>| #[trigger] has_word(r@, c) <==> has_word(v@, c),
        r@.len() > 0 <==> v@.len() > 0,
{
    let mut r: Vec<String> = Vec::new();
    let mut i: usize = 0;
    while i < v.len()
        invariant
            0 <= i <= v@.len(),
            forall|a: int, b: int|
                0 <= a < b < r@.len() ==> (#[trigger] r@[a])@ != (#[trigger] r@[b])@,
            forall|c: Seq<char>| #[trigger] has_word(r@, c) <==> has_word(v@.take(i as int), c),
            r@.len() > 0 ==> i > 0,
            i > 0 && v@.len() > 0 ==> r@.len() > 0,
        decreases v@.len() - i,
    {
        let word = &v[i];
        let mut seen = false;
        let mut j: usize = 0;
        while j < r.len()
            invariant
                0 <= j <= r@.len(),
                word == v@[i as int],
                0 <= i < v@.len(),
                seen <==> (exists|a: int| 0 <= a < j && (#[trigger] r@[a])@ == word@),
            decreases r@.len() - j,
        {
            if r[j].eq(word) {
                proof {
                    assert(r@[j as int]@ == word@);
                }
                seen = true;
            }
            j += 1;
        }
        let ghost before = r@;
        if !seen {
            r.push(word.clone());
        }
        i += 1;
        proof {
            assert forall|c: Seq<char>|
                #[trigger] has_word(r@, c) <==> has_word(v@.take(i as int), c) by {
                if has_word(r@, c) {
                    let a = choose|a: int| 0 <= a < r@.len() && (#[trigger] r@[a])@ == c;
                    if a < before.len() {
                        assert(before[a]@ == c);
                        assert(has_word(before, c));
                        assert(has_word(v@.take(i as int - 1), c));
                        let b = choose|b: int|
                            0 <= b < i - 1 && (#[trigger] v@.take(i as int - 1)[b])@ == c;
                        assert(v@.take(i as int)[b]@ == c);
                        assert(has_word(v@.take(i as int), c));
                    } else {
                        assert(r@[a]@ == word@);
                        assert(v@.take(i as int)[i - 1]@ == c);
                        assert(has_word(v@.take(i as int), c));
                    }
                }
                if has_word(v@.take(i as int), c) {
                    let a = choose|a: int|
                        0 <= a < i && (#[trigger] v@.take(i as int)[a])@ == c;
                    if a < i - 1 {
                        assert(v@.take(i as int - 1)[a]@ == c);
                        assert(has_word(v@.take(i as int - 1), c));
                        assert(has_word(before, c));
                        let b = choose|b: int| 0 <= b < before.len() && (#[trigger] before[b])@
                            == c;
                        assert(r@[b]@ == c);
                        assert(has_word(r@, c));
                    } else {
                        if seen {
                            let b = choose|b: int|
                                0 <= b < before.len() && (#[trigger] before[b])@ == word@;
                            assert(r@[b]@ == c);
                            assert(has_word(r@, c));
                        } else {
                            assert(r@[r@.len() - 1]@ == c);
                            assert(has_word(r@, c));
                        }
                    }
                }
            }
        }
    }
    proof {
        assert(v@.take(v@.len() as int) =~= v@);
        assert forall|c: Seq<char>| #[trigger] has_word(r@, c) <==> has_word(v@, c) by {
            assert(has_word(r@, c) <==> has_word(v@.take(v@.len() as int), c));
        }
    }
    r
}

/// Produces a wordlist from delimited text: every distinct nonempty token,
/// in random order.  Fails with `EmptyWordlist` exactly when no token
/// exists.
pub fn load_wordlist(text: &str, delimiter: char) -> (r: Result<Vec<String>, WordlistError>)
    ensures
        match r {
            Ok(v) => {
                &&& split_tokens(text@, delimiter).len() > 0
                &&& v@.len() > 0
                &&& forall|i: int, j: int|
                    0 <= i < j < v@.len() ==> (#[trigger] v@[i])@ != (#[trigger] v@[j])@
                &&& forall|c: Seq<char>| #[trigger] has_word(v@, c) <==> split_tokens(
                    text@,
                    delimiter,
                ).contains(c)
            },
            Err(e) => e == WordlistError::EmptyWordlist && split_tokens(text@, delimiter).len()
                == 0,
        },
{
    let mut tokens = split_text(text, delimiter);
    let ghost toks = split_tokens(text@, delimiter);
    if tokens.len() == 0 {
        proof {
            assert(Seq::new(tokens@.len(), |i: int| tokens@[i]@).len() == 0);
        }
        return Err(WordlistError::EmptyWordlist);
    }
    let ghost pre = tokens@;
    shuffle_strings(&mut tokens);
    proof {
        assert forall|c: Seq<char>|
            #[trigger] has_word(tokens@, c) <==> has_word(pre, c) by {
            if has_word(tokens@, c) {
                let i = choose|i: int| 0 <= i < tokens@.len() && (#[trigger] tokens@[i])@ == c;
                let x = tokens@[i];
                assert(tokens@.contains(x));
                assert(tokens@.to_multiset().count(x) > 0);
                assert(pre.to_multiset().count(x) > 0);
                assert(pre.contains(x));
                let j = choose|j: int| 0 <= j < pre.len() && pre[j] == x;
                assert(pre[j]@ == c);
                assert(has_word(pre, c));
            }
            if has_word(pre, c) {
                let i = choose|i: int| 0 <= i < pre.len() && (#[trigger] pre[i])@ == c;
                let x = pre[i];
                assert(pre.contains(x));
                assert(pre.to_multiset().count(x) > 0);
                assert(tokens@.to_multiset().count(x) > 0);
                assert(tokens@.contains(x));
                let j = choose|j: int| 0 <= j < tokens@.len() && tokens@[j] == x;
                assert(tokens@[j]@ == c);
                assert(has_word(tokens@, c));
            }
        }
    }
    let words = dedup_strings(&tokens);
    proof {
        assert forall|c: Seq<char>| #[trigger] has_word(words@, c) <==> toks.contains(c) by {
            assert(Seq::new(pre.len(), |i: int| pre[i]@) == toks);
            if has_word(words@, c) {
                assert(has_word(pre, c));
                let i = choose|i: int| 0 <= i < pre.len() && (#[trigger] pre[i])@ == c;
                assert(toks[i] == c);
            }
            if toks.contains(c) {
                let i = choose|i: int| 0 <= i < toks.len() && toks[i] == c;
                assert(pre[i]@ == c);
                assert(has_word(pre, c));
            }
        }
        assert(pre.len() > 0);
    }
    Ok(words)
}

/// Produces the default wordlist from embedded text: every distinct
/// nonempty token, in random order.  An embedded dataset is never empty,
/// so nothing can fail.
pub fn load_default_wordlist(text: &str) -> (r: Vec<String>)
    ensures
        forall|i: int, j: int| 0 <= i < j < r@.len() ==> (#[trigger] r@[i])@ != (#[trigger] r@[j])@,
        forall|c: Seq<char>| #[trigger] has_word(r@, c) <==> split_tokens(text@, '\n').contains(
            c,
        ),
{
    match load_wordlist(text, '\n') {
        Ok(words) => words,
        Err(_) => {
            proof {
                assert forall|c: Seq<char>| !split_tokens(text@, '\n').contains(c) by {}
            }
            Vec::new()
        },
    }
}

} // verus!
