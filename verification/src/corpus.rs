//! Corpus acquisition: turning delimiter-separated text into an ordered
//! list of nonempty training words.
//!
//! Reading the text from a file or an embedded dataset is the embedding
//! program's part; everything after — splitting, dropping empty tokens,
//! ordering, and rejecting an empty result — happens here.

use vstd::prelude::*;

verus! {

/// Why a corpus could not be produced.
#[derive(Debug, Clone, Copy, PartialEq, Eq, Structural)]
pub enum CorpusError {
    /// The text held no usable words: nothing but delimiters, or nothing.
    EmptyCorpus,
}

/// The distance from the start of `s` to its first delimiter, or its
/// length if none occurs.
pub open spec fn first_break(s: Seq<char>, d: char) -> nat
    decreases s.len(),
{
    if s.len() == 0 {
        0
    } else if s[0] == d {
        0
    } else {
        1 + first_break(s.skip(1), d)
    }
}

/// The first break is the least delimiter position: everything before it
/// is ordinary, and it lands on a delimiter unless the text ran out.
pub proof fn lemma_first_break(s: Seq<char>, d: char)
    ensures
        first_break(s, d) <= s.len(),
        first_break(s, d) < s.len() ==> s[first_break(s, d) as int] == d,
        forall|i: int| 0 <= i < first_break(s, d) ==> s[i] != d,
    decreases s.len(),
{
    if s.len() != 0 && s[0] != d {
        lemma_first_break(s.skip(1), d);
        assert forall|i: int| 0 <= i < first_break(s, d) implies s[i] != d by {
            if i > 0 {
                assert(s.skip(1)[i - 1] == s[i]);
            }
        }
        if first_break(s, d) < s.len() {
            assert(s.skip(1)[first_break(s, d) - 1] == s[first_break(s, d) as int]);
        }
    }
}

/// The nonempty tokens of a text, split at a delimiter, in order.
pub open spec fn split_tokens(s: Seq<char>, d: char) -> Seq<Seq<char>>
    decreases s.len(),
    via split_tokens_decreases
{
    if s.len() == 0 {
        Seq::empty()
    } else if s[0] == d {
        split_tokens(s.skip(1), d)
    } else {
        seq![s.take(first_break(s, d) as int)] + split_tokens(s.skip(first_break(s, d) as int), d)
    }
}

#[via_fn]
proof fn split_tokens_decreases(s: Seq<char>, d: char) {
    lemma_first_break(s, d);
}

/// Splits a text at a delimiter character, dropping empty tokens.
pub fn split_text(input: &str, delimiter: char) -> (r: Vec<String>)
    ensures
        Seq::new(r@.len(), |i: int| r@[i]@) == split_tokens(input@, delimiter),
{
    let n = input.unicode_len();
    let mut r: Vec<String> = Vec::new();
    let mut pos: usize = 0;
    proof {
        assert(input@.skip(0) =~= input@);
        assert(Seq::new(r@.len(), |i: int| r@[i]@) =~= Seq::<Seq<char>>::empty());
        assert(Seq::new(r@.len(), |i: int| r@[i]@) + split_tokens(input@.skip(0), delimiter)
            =~= split_tokens(input@, delimiter));
    }
    while pos < n
        invariant
            0 <= pos <= n,
            n == input@.len(),
            Seq::new(r@.len(), |i: int| r@[i]@) + split_tokens(input@.skip(pos as int), delimiter)
                =~= split_tokens(input@, delimiter),
        decreases n - pos,
    {
        let c = input.get_char(pos);
        if c == delimiter {
            let ghost old_pos = pos as int;
            pos += 1;
            proof {
                assert(input@.skip(old_pos).skip(1) =~= input@.skip(pos as int));
                assert(Seq::new(r@.len(), |i: int| r@[i]@) + split_tokens(
                    input@.skip(pos as int),
                    delimiter,
                ) =~= split_tokens(input@, delimiter));
            }
        } else {
            let ghost old_pos = pos as int;
            let mut end = pos;
            while end < n
                invariant
                    pos <= end <= n,
                    n == input@.len(),
                    forall|i: int| pos <= i < end ==> input@[i] != delimiter,
                ensures
                    pos <= end <= n,
                    forall|i: int| pos <= i < end ==> input@[i] != delimiter,
                    end < n ==> input@[end as int] == delimiter,
                decreases n - end,
            {
                if input.get_char(end) == delimiter {
                    break ;
                }
                end += 1;
            }
            proof {
                let rest = input@.skip(old_pos);
                lemma_first_break(rest, delimiter);
                let fb = first_break(rest, delimiter) as int;
                assert forall|i: int| 0 <= i < end - old_pos implies rest[i] != delimiter by {
                    assert(rest[i] == input@[old_pos + i]);
                }
                if fb < end - old_pos {
                    assert(rest[fb] != delimiter);
                    assert(false);
                }
                if fb > end - old_pos {
                    assert(end - old_pos < rest.len());
                    assert(rest[end - old_pos] == input@[end as int]);
                    assert(rest[end - old_pos] != delimiter);
                    assert(false);
                }
                assert(fb == end - old_pos);
            }
            let word = input.substring_char(pos, end).to_owned();
            let ghost before = r@;
            r.push(word);
            pos = end;
            proof {
                let rest = input@.skip(old_pos);
                let fb = first_break(rest, delimiter) as int;
                assert(word@ =~= rest.take(fb));
                assert(split_tokens(rest, delimiter) == seq![rest.take(fb)] + split_tokens(
                    rest.skip(fb),
                    delimiter,
                ));
                assert(rest.skip(fb) =~= input@.skip(pos as int));
                assert(Seq::new(r@.len(), |i: int| r@[i]@) =~= Seq::new(
                    before.len(),
                    |i: int| before[i]@,
                ).push(word@));
                assert(Seq::new(r@.len(), |i: int| r@[i]@) + split_tokens(
                    input@.skip(pos as int),
                    delimiter,
                ) =~= split_tokens(input@, delimiter));
            }
        }
    }
    proof {
        assert(input@.skip(n as int) =~= Seq::<char>::empty());
        assert(split_tokens(input@.skip(n as int), delimiter) =~= Seq::<Seq<char>>::empty());
        assert(Seq::new(r@.len(), |i: int| r@[i]@) =~= split_tokens(input@, delimiter));
    }
    r
}

/// Whether `a` comes no later than `b` in lexicographic order of Unicode
/// scalar values — the order `Ord` on strings realizes, since UTF-8 byte
/// order and scalar-value order agree.
pub open spec fn lex_leq(a: Seq<char>, b: Seq<char>) -> bool
    decreases a.len(),
{
    if a.len() == 0 {
        true
    } else if b.len() == 0 {
        false
    } else if (a[0] as u32) < (b[0] as u32) {
        true
    } else if (a[0] as u32) > (b[0] as u32) {
        false
    } else {
        lex_leq(a.skip(1), b.skip(1))
    }
}

/// Relies on `Vec::sort` (std): sorting rearranges the elements into
/// ascending order and changes nothing else.
#[verifier::external_body]
fn sort_strings(v: &mut Vec<String>)
    ensures
        final(v)@.to_multiset() == old(v)@.to_multiset(),
        Seq::new(final(v)@.len(), |i: int| final(v)@[i]@).to_multiset() == Seq::new(
            old(v)@.len(),
            |i: int| old(v)@[i]@,
        ).to_multiset(),
        final(v)@.len() == old(v)@.len(),
        forall|i: int, j: int|
            0 <= i < j < final(v)@.len() ==> lex_leq(
                (#[trigger] final(v)@[i])@,
                (#[trigger] final(v)@[j])@,
            ),
{
    v.sort();
}

/// Produces a corpus from newline-separated text: the nonempty lines,
/// ordered.  Fails with `EmptyCorpus` exactly when no nonempty line
/// exists.
pub fn load_corpus(text: &str) -> (r: Result<Vec<String>, CorpusError>)
    ensures
        match r {
            Ok(v) => split_tokens(text@, '\n').len() > 0 && Seq::new(v@.len(), |i: int| v@[i]@).to_multiset()
                == split_tokens(text@, '\n').to_multiset() && v@.len() == split_tokens(
                text@,
                '\n',
            ).len() && (forall|i: int, j: int|
                0 <= i < j < v@.len() ==> lex_leq((#[trigger] v@[i])@, (#[trigger] v@[j])@)),
            Err(e) => e == CorpusError::EmptyCorpus && split_tokens(text@, '\n').len() == 0,
        },
{
    let mut corpus = split_text(text, '\n');
    if corpus.len() == 0 {
        proof {
            assert(Seq::new(corpus@.len(), |i: int| corpus@[i]@).len() == 0);
        }
        return Err(CorpusError::EmptyCorpus);
    }
    proof {
        assert(Seq::new(corpus@.len(), |i: int| corpus@[i]@).len() > 0);
    }
    sort_strings(&mut corpus);
    Ok(corpus)
}

/// Produces the default corpus from embedded text: the nonempty lines,
/// ordered.  An embedded dataset is never empty, so nothing can fail.
pub fn load_default_corpus(text: &str) -> (r: Vec<String>)
    ensures
        Seq::new(r@.len(), |i: int| r@[i]@).to_multiset() == split_tokens(
            text@,
            '\n',
        ).to_multiset(),
        r@.len() == split_tokens(text@, '\n').len(),
        forall|i: int, j: int|
            0 <= i < j < r@.len() ==> lex_leq((#[trigger] r@[i])@, (#[trigger] r@[j])@),
{
    let mut corpus = split_text(text, '\n');
    proof {
        assert(Seq::new(corpus@.len(), |i: int| corpus@[i]@).len() == split_tokens(
            text@,
            '\n',
        ).len());
    }
    sort_strings(&mut corpus);
    corpus
}

} // verus!
