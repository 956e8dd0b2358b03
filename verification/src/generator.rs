//! The word generator: one or more Markov models composed for backoff.
//!
//! With backoff disabled a generator holds exactly one model at its order.
//! With backoff enabled it holds `order` models at orders
//! `order, order - 1, …, 1`, tried in that sequence: each step consults the
//! highest-order model first with the last `order` symbols of the word, and
//! on a miss retries ever shorter suffixes against the lower-order models.

use vstd::prelude::*;

use crate::model::{Model, chain_live, lemma_start_context_live, total_windows};
use crate::symbol::{Symbol, slice_symbols};
use crate::text::string_from_chars;

verus! {

/// Word construction stops after this many symbols.  The sampled
/// distribution of a pathological corpus may favour continuation almost
/// always; a finite bound keeps every generation call terminating, at the
/// price of truncating words that would have grown past it.
pub const WORD_LENGTH_LIMIT: usize = 4096;

/// Whether character `c` occurs anywhere in the corpus.
pub open spec fn appears(data: Seq<String>, c: char) -> bool {
    exists|i: int, j: int|
        0 <= i < data.len() && 0 <= j < data[i]@.len() && #[trigger] data[i]@[j] == c
}

/// The last `n` symbols of a word buffer.
pub open spec fn suffix(w: Seq<Symbol>, n: int) -> Seq<Symbol> {
    w.subrange(w.len() - n, w.len() as int)
}

/// Whether some model of the cascade can emit character `c`.
pub open spec fn in_some_alphabet(g: Generator, c: char) -> bool {
    exists|k: int|
        0 <= k < g.models@.len() && (#[trigger] g.models@[k]).alphabet@.contains(c)
}

/// Whether no model of the cascade can continue the all-terminator start
/// context: then, and only then, a generated word is empty.
pub open spec fn cannot_start(g: Generator) -> bool {
    forall|k: int|
        0 <= k < g.models@.len() ==> !chain_live(
            (#[trigger] g.models@[k]).chains@,
            Seq::new((g.order - k) as nat, |i: int| Symbol::Terminator),
        )
}

/// Derives the sorted, deduplicated list of every character appearing in
/// the corpus: the index order used by every weight vector.
pub fn extract_alphabet(data: &Vec<String>) -> (r: Vec<char>)
    ensures
        forall|i: int, j: int|
            0 <= i < j < r@.len() ==> (r@[i] as u32) < (r@[j] as u32),
        forall|c: char| r@.contains(c) <==> appears(data@, c),
{
    let mut r: Vec<char> = Vec::new();
    let mut w: usize = 0;
    while w < data.len()
        invariant
            0 <= w <= data@.len(),
            forall|i: int, j: int|
                0 <= i < j < r@.len() ==> (r@[i] as u32) < (r@[j] as u32),
            forall|c: char| r@.contains(c) <==> appears(data@.take(w as int), c),
        decreases data@.len() - w,
    {
        let word = &data[w];
        let n = word.as_str().unicode_len();
        let mut k: usize = 0;
        while k < n
            invariant
                0 <= k <= n,
                0 <= w < data@.len(),
                word == data@[w as int],
                n == word@.len(),
                forall|i: int, j: int|
                    0 <= i < j < r@.len() ==> (r@[i] as u32) < (r@[j] as u32),
                forall|c: char|
                    r@.contains(c) <==> (appears(data@.take(w as int), c) || exists|j: int|
                        0 <= j < k && word@[j] == c),
            decreases n - k,
        {
            let c = word.as_str().get_char(k);
            insert_sorted(&mut r, c);
            k += 1;
            proof {
                assert(word@[k as int - 1] == c);
                assert forall|cc: char|
                    r@.contains(cc) <==> (appears(data@.take(w as int), cc) || exists|j: int|
                        0 <= j < k && word@[j] == cc) by {
                    if cc == c {
                    } else {
                        assert((exists|j: int| 0 <= j < k && word@[j] == cc) <==> (exists|j: int|
                            0 <= j < k - 1 && word@[j] == cc));
                    }
                }
            }
        }
        w += 1;
        proof {
            assert(data@.take(w as int).drop_last() =~= data@.take(w as int - 1));
            assert forall|c: char|
                r@.contains(c) <==> appears(data@.take(w as int), c) by {
                let prefix = data@.take(w as int);
                if appears(prefix, c) {
                    let (i, j) = choose|i: int, j: int|
                        0 <= i < prefix.len() && 0 <= j < prefix[i]@.len()
                            && #[trigger] prefix[i]@[j] == c;
                    if i < w - 1 {
                        assert(data@.take(w as int - 1)[i] == prefix[i]);
                        assert(appears(data@.take(w as int - 1), c));
                    } else {
                        assert(prefix[i] == word);
                        assert(exists|j: int| 0 <= j < word@.len() && word@[j] == c);
                    }
                }
                if appears(data@.take(w as int - 1), c) {
                    let (i, j) = choose|i: int, j: int|
                        0 <= i < data@.take(w as int - 1).len() && 0 <= j < data@.take(
                            w as int - 1,
                        )[i]@.len() && #[trigger] data@.take(w as int - 1)[i]@[j] == c;
                    assert(prefix[i] == data@.take(w as int - 1)[i]);
                    assert(appears(prefix, c));
                }
                if exists|j: int| 0 <= j < word@.len() && word@[j] == c {
                    let j = choose|j: int| 0 <= j < word@.len() && word@[j] == c;
                    assert(prefix[w as int - 1] == word);
                    assert(appears(prefix, c));
                }
            }
        }
    }
    proof {
        assert(data@.take(data@.len() as int) =~= data@);
    }
    r
}

/// Inserts a character into a strictly sorted vector, keeping it sorted and
/// deduplicated.
#[verifier::rlimit(30)]
fn insert_sorted(r: &mut Vec<char>, c: char)
    requires
        forall|i: int, j: int|
            0 <= i < j < old(r)@.len() ==> (old(r)@[i] as u32) < (old(r)@[j] as u32),
    ensures
        forall|i: int, j: int|
            0 <= i < j < final(r)@.len() ==> (final(r)@[i] as u32) < (final(r)@[j] as u32),
        forall|cc: char| final(r)@.contains(cc) <==> (old(r)@.contains(cc) || cc == c),
{
    let code = c as u32;
    let n = r.len();
    let mut p: usize = 0;
    while p < n
        invariant
            0 <= p <= n,
            n == r@.len(),
            r == old(r),
            forall|i: int| 0 <= i < p ==> ((#[trigger] r@[i]) as u32) < code,
        ensures
            0 <= p <= n,
            r == old(r),
            forall|i: int| 0 <= i < p ==> ((#[trigger] r@[i]) as u32) < code,
            p < n ==> (r@[p as int] as u32) >= code,
        decreases n - p,
    {
        if r[p] as u32 >= code {
            break;
        }
        p += 1;
    }
    if p < n {
        let existing = r[p];
        if existing as u32 == code {
            // two characters share a scalar value only when they are the
            // same character
            proof {
                vstd::utf8::char_u32_cast(existing, code);
                vstd::utf8::char_u32_cast(c, code);
                assert(existing == c);
                assert(r@.contains(c));
                assert forall|cc: char| r@.contains(cc) <==> (old(r)@.contains(cc) || cc == c) by {}
            }
            return ;
        }
    }
    let ghost before = r@;
    r.insert(p, c);
    proof {
        assert(final(r)@ == before.insert(p as int, c));
        assert forall|i: int, j: int|
            0 <= i < j < r@.len() implies ((#[trigger] r@[i]) as u32) < ((#[trigger] r@[j])
            as u32) by {
            if i < p && j > p {
                assert(r@[i] == before[i]);
                assert(r@[j] == before[j - 1]);
            } else if i == p && j > p {
                assert(r@[j] == before[j - 1]);
                assert(before[p as int] as u32 >= code);
                if j - 1 > p {
                    assert(before[j - 1] as u32 > before[p as int] as u32);
                }
            } else if i < p && j == p {
                assert(r@[i] == before[i]);
            }
        }
        assert(before == old(r)@);
        assert forall|cc: char| r@.contains(cc) <==> (old(r)@.contains(cc) || cc == c) by {
            if r@.contains(cc) {
                let i = choose|i: int| 0 <= i < r@.len() && r@[i] == cc;
                if i < p {
                    assert(before[i] == cc);
                } else if i > p {
                    assert(before[i - 1] == cc);
                }
            }
            if before.contains(cc) {
                let i = choose|i: int| 0 <= i < before.len() && before[i] == cc;
                if i < p {
                    assert(r@[i] == cc);
                } else {
                    assert(r@[i + 1] == cc);
                }
            }
            if cc == c {
                assert(r@[p as int] == cc);
            }
        }
    }
}

/// A procedural word generator: an ordered cascade of Markov models.
#[derive(Debug, Clone, PartialEq)]
pub struct Generator {
    /// The context length of the top model.
    pub order: usize,
    /// The model cascade, in strictly descending order of `order`.
    pub models: Vec<Model>,
}

/// The mathematical content of a generator.
#[verifier::ext_equal]
pub struct GeneratorView {
    pub order: nat,
    pub models: Seq<crate::model::ModelView>,
}

impl View for Generator {
    type V = GeneratorView;

    open spec fn view(&self) -> GeneratorView {
        GeneratorView {
            order: self.order as nat,
            models: Seq::new(self.models@.len(), |i: int| self.models@[i]@),
        }
    }
}

impl Generator {
    /// Structural well-formedness: a nonempty cascade of well-formed models
    /// whose orders descend one by one from the generator's own.
    pub open spec fn wf(self) -> bool {
        &&& self.order >= 1
        &&& 1 <= self.models@.len() <= self.order
        &&& forall|k: int| 0 <= k < self.models@.len() ==> (#[trigger] self.models@[k]).wf()
        &&& forall|k: int|
            0 <= k < self.models@.len() ==> (#[trigger] self.models@[k]).order == self.order - k
    }

    /// Creates a new procedural word generator.  Extracts the alphabet from
    /// the corpus, then trains one model at `order`, or — with backoff — one
    /// at every order from `order` down to 1.
    pub fn new(data: &Vec<String>, order: usize, prior: u64, backoff: bool) -> (r: Generator)
        requires
            order >= 1,
            forall|i: int| 0 <= i < data@.len() ==> (#[trigger] data@[i])@.len() > 0,
            forall|i: int| 0 <= i < data@.len() ==> order + (#[trigger] data@[i])@.len() + 1
                <= usize::MAX,
            prior as int + total_windows(data@) <= u64::MAX,
        ensures
            r.wf(),
            r.order == order,
            r.models@.len() == if backoff {
                order as int
            } else {
                1int
            },
            forall|k: int|
                0 <= k < r.models@.len() ==> (#[trigger] r.models@[k]).trained()
                    && r.models@[k].data@ == data@ && r.models@[k].prior == prior,
            forall|k: int|
                0 <= k < r.models@.len() ==> (#[trigger] r.models@[k]).alphabet@
                    == r.models@[0].alphabet@,
            forall|c: char| r.models@[0].alphabet@.contains(c) <==> appears(data@, c),
    {
        let alphabet = extract_alphabet(data);
        proof {
            if data@.len() > 0 {
                assert(data@[0]@.len() > 0);
                assert(appears(data@, data@[0]@[0]));
                assert(alphabet@.contains(data@[0]@[0]));
                assert(alphabet@.len() > 0);
            }
        }
        let mut models: Vec<Model> = Vec::new();
        if backoff {
            let mut index: usize = 0;
            while index < order
                invariant
                    0 <= index <= order,
                    order >= 1,
                    forall|i: int| 0 <= i < data@.len() ==> (#[trigger] data@[i])@.len() > 0,
                    forall|i: int| 0 <= i < data@.len() ==> order + (#[trigger] data@[i])@.len()
                        + 1 <= usize::MAX,
                    prior as int + total_windows(data@) <= u64::MAX,
                    data@.len() > 0 ==> alphabet@.len() > 0,
                    forall|i: int, j: int|
                        0 <= i < j < alphabet@.len() ==> (alphabet@[i] as u32) < (alphabet@[j]
                            as u32),
                    models@.len() == index,
                    forall|k: int| 0 <= k < models@.len() ==> (#[trigger] models@[k]).wf(),
                    forall|k: int| 0 <= k < models@.len() ==> (#[trigger] models@[k]).order
                        == order - k,
                    forall|k: int|
                        0 <= k < models@.len() ==> (#[trigger] models@[k]).trained()
                            && models@[k].data@ == data@ && models@[k].prior == prior,
                    forall|k: int| 0 <= k < models@.len() ==> (#[trigger] models@[k]).alphabet@
                        == alphabet@,
                decreases order - index,
            {
                let model = Model::new(data, order - index, prior, &alphabet);
                models.push(model);
                index += 1;
            }
        } else {
            let model = Model::new(data, order, prior, &alphabet);
            models.push(model);
        }
        Generator { order, models }
    }

    /// Generates the next letter of a word, trying the model cascade from
    /// the highest order down.  Each model `k` is consulted with the last
    /// `order - k` symbols of the word; the first that knows its context
    /// answers.  `None` means no model in the cascade knew any suffix.
    pub fn get_letter(&self, word: &Vec<Symbol>) -> (r: Option<char>)
        requires
            self.wf(),
            word@.len() >= self.order,
        ensures
            r is None ==> forall|k: int|
                0 <= k < self.models@.len() ==> !chain_live(
                    (#[trigger] self.models@[k]).chains@,
                    suffix(word@, self.order - k),
                ),
            match r {
                Some(c) => exists|k: int|
                    0 <= k < self.models@.len() && chain_live(
                        (#[trigger] self.models@[k]).chains@,
                        suffix(word@, self.order - k),
                    ) && (forall|j: int|
                        0 <= j < k ==> !chain_live(
                            (#[trigger] self.models@[j]).chains@,
                            suffix(word@, self.order - j),
                        )) && self.models@[k].alphabet@.contains(c),
                None => true,
            },
    {
        let mut k: usize = 0;
        while k < self.models.len()
            invariant
                self.wf(),
                word@.len() >= self.order,
                0 <= k <= self.models@.len(),
                forall|j: int|
                    0 <= j < k ==> !chain_live(
                        (#[trigger] self.models@[j]).chains@,
                        suffix(word@, self.order - j),
                    ),
            decreases self.models@.len() - k,
        {
            let model = &self.models[k];
            let context = slice_symbols(word, word.len() - model.order(), word.len());
            proof {
                assert(context@ == suffix(word@, self.order - k));
            }
            match model.generate(&context) {
                Some(c) => {
                    proof {
                        assert(chain_live(model.chains@, suffix(word@, self.order - k)));
                        let row = choose|row: int|
                            0 <= row < model.chains@.len() && (#[trigger] model.chains@[row]).context@
                                == context@ && (exists|kk: int|
                                0 <= kk < model.alphabet@.len() && c == model.alphabet@[kk]
                                    && model.chains@[row].weights@[kk] > 0);
                        let kk = choose|kk: int|
                            0 <= kk < model.alphabet@.len() && c == model.alphabet@[kk];
                        assert(model.alphabet@.contains(c));
                    }
                    return Some(c);
                },
                None => {},
            }
            k += 1;
        }
        None
    }

    /// Generates a word: starts from a buffer of `order` terminators and
    /// appends one sampled symbol per step until the cascade is exhausted
    /// or the length bound is reached.  Every returned character belongs to
    /// some model's alphabet; in particular no terminator appears.  The
    /// word is empty exactly when no model can continue the all-terminator
    /// start context.
    pub fn generate(&self) -> (r: String)
        requires
            self.wf(),
        ensures
            r@.len() <= WORD_LENGTH_LIMIT,
            forall|i: int| 0 <= i < r@.len() ==> #[trigger] in_some_alphabet(*self, r@[i]),
            (r@.len() == 0) <==> cannot_start(*self),
    {
        let ghost start = Seq::new(self.order as nat, |i: int| Symbol::Terminator);
        let mut word: Vec<Symbol> = Vec::new();
        let mut i: usize = 0;
        while i < self.order
            invariant
                0 <= i <= self.order,
                word@ =~= Seq::new(i as nat, |j: int| Symbol::Terminator),
            decreases self.order - i,
        {
            word.push(Symbol::Terminator);
            i += 1;
            proof {
                assert(word@ =~= Seq::new(i as nat, |j: int| Symbol::Terminator));
            }
        }
        proof {
            assert(word@ =~= start);
        }
        let mut out: Vec<char> = Vec::new();
        let mut done = false;
        while !done && out.len() < WORD_LENGTH_LIMIT
            invariant
                self.wf(),
                start == Seq::new(self.order as nat, |i: int| Symbol::Terminator),
                word@.len() == self.order + out@.len(),
                out@.len() <= WORD_LENGTH_LIMIT,
                forall|i: int| 0 <= i < out@.len() ==> #[trigger] in_some_alphabet(
                    *self,
                    out@[i],
                ),
                !done && out@.len() == 0 ==> word@ == start,
                done && out@.len() == 0 ==> cannot_start(*self),
                out@.len() > 0 ==> !cannot_start(*self),
            decreases WORD_LENGTH_LIMIT - out@.len() + (if done { 0int } else { 1int }),
        {
            let ghost old_out = out@;
            let ghost old_word = word@;
            match self.get_letter(&word) {
                Some(letter) => {
                    proof {
                        assert(in_some_alphabet(*self, letter));
                        if old_out.len() == 0 {
                            let k = choose|k: int|
                                0 <= k < self.models@.len() && chain_live(
                                    (#[trigger] self.models@[k]).chains@,
                                    suffix(old_word, self.order - k),
                                ) && (forall|j: int|
                                    0 <= j < k ==> !chain_live(
                                        (#[trigger] self.models@[j]).chains@,
                                        suffix(old_word, self.order - j),
                                    )) && self.models@[k].alphabet@.contains(letter);
                            assert(suffix(old_word, self.order - k) =~= Seq::new(
                                (self.order - k) as nat,
                                |i: int| Symbol::Terminator,
                            ));
                            assert(!cannot_start(*self));
                        }
                    }
                    word.push(Symbol::Letter(letter as u32));
                    out.push(letter);
                    proof {
                        assert forall|i: int|
                            0 <= i < out@.len() implies #[trigger] in_some_alphabet(
                            *self,
                            out@[i],
                        ) by {
                            if i < out@.len() - 1 {
                                assert(out@[i] == old_out[i]);
                            } else {
                                assert(out@[i] == letter);
                            }
                        }
                    }
                },
                None => {
                    done = true;
                    proof {
                        if old_out.len() == 0 {
                            assert forall|k: int|
                                0 <= k < self.models@.len() implies !chain_live(
                                (#[trigger] self.models@[k]).chains@,
                                Seq::new((self.order - k) as nat, |i: int| Symbol::Terminator),
                            ) by {
                                assert(suffix(old_word, self.order - k) =~= Seq::new(
                                    (self.order - k) as nat,
                                    |i: int| Symbol::Terminator,
                                ));
                            }
                            assert(cannot_start(*self));
                        }
                    }
                },
            }
        }
        let result = string_from_chars(&out);
        proof {
            assert forall|i: int|
                0 <= i < result@.len() implies #[trigger] in_some_alphabet(*self, result@[i]) by {
                assert(result@[i] == out@[i]);
            }
        }
        result
    }
}

/// A generator trained on a corpus with a nonempty first word whose first
/// letter its alphabet covers is never stuck: its top model can continue
/// the all-terminator start context, so the word it generates is nonempty.
pub proof fn lemma_trained_generator_starts(g: Generator)
    requires
        g.wf(),
        g.models@[0].trained(),
        g.models@[0].data@.len() > 0,
        g.models@[0].data@[0]@.len() > 0,
        g.models@[0].alphabet@.contains(g.models@[0].data@[0]@[0]),
    ensures
        !cannot_start(g),
{
    lemma_start_context_live(g.models@[0]);
    assert(g.models@[0].order == g.order);
    assert(Seq::new((g.order - 0) as nat, |i: int| Symbol::Terminator) =~= Seq::new(
        g.models@[0].order as nat,
        |i: int| Symbol::Terminator,
    ));
    assert(chain_live(
        g.models@[0].chains@,
        Seq::new((g.order - 0) as nat, |i: int| Symbol::Terminator),
    ));
}

} // verus!
