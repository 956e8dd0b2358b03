//! A single fixed-order Markov model.
//!
//! `train` slides a window of `order + 1` symbols across every padded
//! training word and records, for each context of `order` symbols, the
//! symbols seen immediately after it.  `build_chains` turns those
//! observations into one sampling weight per alphabet symbol,
//! `weight = prior + occurrences`.  `generate` samples the next symbol of a
//! word from the weights of a context, by a draw proportional to weight.

use vstd::prelude::*;

use crate::random::draw_below;
use crate::symbol::{Symbol, letters_of, pad_word, padded_word, slice_symbols, sym_of};
use crate::table::{
    ChainEntry, ObsEntry, chain_find, chain_has_key, obs_find, obs_has_key, obs_unique,
};

verus! {

/// The number of training windows a word of the given length contributes:
/// one per character, and one for the closing terminator.
pub open spec fn word_windows(w: Seq<char>) -> int {
    w.len() as int + 1
}

/// The followers of context `c` among the first `j` windows of one padded
/// word: every symbol standing right after an occurrence of `c`, in order.
pub open spec fn word_followers_upto(w: Seq<char>, order: nat, c: Seq<Symbol>, j: int) -> Seq<
    Symbol,
>
    decreases j,
{
    if j <= 0 {
        Seq::empty()
    } else {
        word_followers_upto(w, order, c, j - 1) + (
        if padded_word(w, order).subrange(j - 1, j - 1 + order) == c {
            seq![padded_word(w, order)[j - 1 + order]]
        } else {
            Seq::empty()
        })
    }
}

/// The followers of context `c` in one whole padded word.
pub open spec fn word_followers(w: Seq<char>, order: nat, c: Seq<Symbol>) -> Seq<Symbol> {
    word_followers_upto(w, order, c, word_windows(w))
}

/// The followers of context `c` among the first `i` words of the corpus.
pub open spec fn corpus_followers_upto(
    data: Seq<String>,
    order: nat,
    c: Seq<Symbol>,
    i: int,
) -> Seq<Symbol>
    decreases i,
{
    if i <= 0 {
        Seq::empty()
    } else {
        corpus_followers_upto(data, order, c, i - 1) + word_followers(data[i - 1]@, order, c)
    }
}

/// The followers of context `c` in the whole corpus: every symbol that
/// stands right after an occurrence of `c` in any padded training word.
pub open spec fn corpus_followers(data: Seq<String>, order: nat, c: Seq<Symbol>) -> Seq<Symbol> {
    corpus_followers_upto(data, order, c, data.len() as int)
}

/// The total number of training windows of the first `i` corpus words.
pub open spec fn total_windows_upto(data: Seq<String>, i: int) -> int
    decreases i,
{
    if i <= 0 {
        0
    } else {
        total_windows_upto(data, i - 1) + word_windows(data[i - 1]@)
    }
}

/// The total number of training windows of the corpus.
pub open spec fn total_windows(data: Seq<String>) -> int {
    total_windows_upto(data, data.len() as int)
}

/// More corpus words never mean fewer training windows.
pub proof fn lemma_total_windows_mono(data: Seq<String>, i: int, j: int)
    requires
        i <= j,
    ensures
        total_windows_upto(data, i) <= total_windows_upto(data, j),
    decreases j - i,
{
    if i < j {
        lemma_total_windows_mono(data, i, j - 1);
    }
}

/// Decides whether a corpus and prior respect the weight limit: whether
/// `prior` plus the corpus's total window count fits in a weight's word.
pub fn total_windows_check(data: &Vec<String>, prior: u64) -> (r: bool)
    ensures
        r == (prior as int + total_windows(data@) <= u64::MAX),
{
    let limit: u128 = 0xFFFF_FFFF_FFFF_FFFF;
    let mut acc: u128 = 0;
    let mut i: usize = 0;
    while i < data.len()
        invariant
            0 <= i <= data@.len(),
            limit == 0xFFFF_FFFF_FFFF_FFFFu128,
            acc == total_windows_upto(data@, i as int),
            acc <= limit,
        decreases data@.len() - i,
    {
        let w = data[i].as_str().unicode_len();
        proof {
            assert(w <= usize::MAX);
            assert(usize::MAX as u128 <= 0xFFFF_FFFF_FFFF_FFFFu128);
        }
        acc = acc + (w as u128) + 1;
        i += 1;
        if acc > limit {
            proof {
                lemma_total_windows_mono(data@, i as int, data@.len() as int);
            }
            return false;
        }
    }
    proof {
        assert(acc == total_windows(data@));
    }
    prior as u128 <= limit - acc
}

/// How often symbol `x` occurs in `s`.
pub open spec fn count_sym(s: Seq<Symbol>, x: Symbol) -> int
    decreases s.len(),
{
    if s.len() == 0 {
        0
    } else {
        count_sym(s.drop_last(), x) + (
        if s.last() == x {
            1int
        } else {
            0int
        })
    }
}

/// A word of the given length never has more followers of one context among
/// its first `j` windows than `j`.
pub proof fn lemma_word_followers_len(w: Seq<char>, order: nat, c: Seq<Symbol>, j: int)
    ensures
        word_followers_upto(w, order, c, j).len() <= if j <= 0 {
            0
        } else {
            j
        },
    decreases j,
{
    if j > 0 {
        lemma_word_followers_len(w, order, c, j - 1);
    }
}

/// A corpus prefix never yields more followers of one context than it has
/// training windows.
pub proof fn lemma_corpus_followers_len(data: Seq<String>, order: nat, c: Seq<Symbol>, i: int)
    ensures
        corpus_followers_upto(data, order, c, i).len() <= if i <= 0 {
            0
        } else {
            total_windows_upto(data, i)
        },
    decreases i,
{
    if i > 0 {
        lemma_corpus_followers_len(data, order, c, i - 1);
        lemma_word_followers_len(data[i - 1]@, order, c, word_windows(data[i - 1]@));
    }
}

/// A count never exceeds the length counted over.
pub proof fn lemma_count_le_len(s: Seq<Symbol>, x: Symbol)
    ensures
        0 <= count_sym(s, x) <= s.len(),
    decreases s.len(),
{
    if s.len() > 0 {
        lemma_count_le_len(s.drop_last(), x);
    }
}

/// Builds the observation table of a corpus: for every context of `order`
/// symbols that occurs in a padded training word, the symbols that followed
/// it, in order of occurrence.
fn train_table(data: &Vec<String>, order: usize) -> (r: Vec<ObsEntry>)
    requires
        forall|i: int| 0 <= i < data@.len() ==> order + (#[trigger] data@[i])@.len() + 1
            <= usize::MAX,
    ensures
        obs_unique(r@),
        forall|i: int| 0 <= i < r@.len() ==> (#[trigger] r@[i]).context@.len() == order,
        forall|c: Seq<Symbol>|
            #[trigger] obs_has_key(r@, c) <==> corpus_followers(data@, order as nat, c).len() > 0,
        forall|i: int|
            0 <= i < r@.len() ==> (#[trigger] r@[i]).followers@ == corpus_followers(
                data@,
                order as nat,
                r@[i].context@,
            ),
{
    let ghost ord = order as nat;
    let mut obs: Vec<ObsEntry> = Vec::new();
    let mut w: usize = 0;
    while w < data.len()
        invariant
            ord == order as nat,
            0 <= w <= data@.len(),
            forall|i: int| 0 <= i < data@.len() ==> order + (#[trigger] data@[i])@.len() + 1
                <= usize::MAX,
            obs_unique(obs@),
            forall|i: int| 0 <= i < obs@.len() ==> (#[trigger] obs@[i]).context@.len() == order,
            forall|c: Seq<Symbol>|
                #[trigger] obs_has_key(obs@, c) <==> corpus_followers_upto(
                    data@,
                    order as nat,
                    c,
                    w as int,
                ).len() > 0,
            forall|i: int|
                0 <= i < obs@.len() ==> (#[trigger] obs@[i]).followers@ == corpus_followers_upto(
                    data@,
                    order as nat,
                    obs@[i].context@,
                    w as int,
                ),
        decreases data@.len() - w,
    {
        let word = &data[w];
        let padded = pad_word(word.as_str(), order);
        let windows = padded.len() - order;
        proof {
            assert(padded@.len() == order + word@.len() + 1);
            assert(windows == word_windows(word@));
        }
        let mut j: usize = 0;
        while j < windows
            invariant
                ord == order as nat,
                0 <= j <= windows,
                0 <= w < data@.len(),
                order + windows <= usize::MAX,
                word == data@[w as int],
                padded@ == padded_word(word@, order as nat),
                windows == word_windows(word@),
                padded@.len() == order + windows,
                obs_unique(obs@),
                forall|i: int| 0 <= i < obs@.len() ==> (#[trigger] obs@[i]).context@.len()
                    == order,
                forall|c: Seq<Symbol>|
                    #[trigger] obs_has_key(obs@, c) <==> (corpus_followers_upto(
                        data@,
                        order as nat,
                        c,
                        w as int,
                    ) + word_followers_upto(word@, order as nat, c, j as int)).len() > 0,
                forall|i: int|
                    0 <= i < obs@.len() ==> (#[trigger] obs@[i]).followers@
                        == corpus_followers_upto(data@, order as nat, obs@[i].context@, w as int)
                        + word_followers_upto(word@, order as nat, obs@[i].context@, j as int),
            decreases windows - j,
        {
            let key = slice_symbols(&padded, j, j + order);
            let next = padded[j + order];
            let ghost old_obs = obs@;
            let ghost jj = j as int;
            let ghost key_seq = key@;
            proof {
                assert(key_seq == padded_word(word@, ord).subrange(jj, jj + order));
                assert(padded_word(word@, ord)[jj + order] == next);
            }
            match obs_find(&obs, &key) {
                Some(idx) => {
                    obs[idx].followers.push(next);
                    proof {
                        assert(obs@ =~= old_obs.update(
                            idx as int,
                            ObsEntry {
                                context: old_obs[idx as int].context,
                                followers: obs@[idx as int].followers,
                            },
                        ));
                        assert(obs@[idx as int].followers@ =~= old_obs[idx as int].followers@.push(
                            next,
                        ));
                        assert(obs@[idx as int].context@ == key_seq);
                        assert(obs_has_key(obs@, key_seq));
                        assert forall|c: Seq<Symbol>|
                            c != key_seq implies (obs_has_key(obs@, c) <==> obs_has_key(old_obs, c)) by {
                            if obs_has_key(obs@, c) {
                                let i = choose|i: int|
                                    0 <= i < obs@.len() && obs@[i].context@ == c;
                                assert(old_obs[i].context@ == c);
                            }
                            if obs_has_key(old_obs, c) {
                                let i = choose|i: int|
                                    0 <= i < old_obs.len() && old_obs[i].context@ == c;
                                assert(obs@[i].context@ == c);
                            }
                        }
                        assert forall|i: int| 0 <= i < obs@.len() implies (#[trigger] obs@[i]).followers@
                            == corpus_followers_upto(data@, ord, obs@[i].context@, w as int)
                            + word_followers_upto(word@, ord, obs@[i].context@, jj) + (
                        if obs@[i].context@ == key_seq {
                            seq![padded_word(word@, ord)[jj + order]]
                        } else {
                            Seq::<Symbol>::empty()
                        }) by {
                            let cc = obs@[i].context@;
                            if i == idx as int {
                                assert(obs@[i].followers@ =~= corpus_followers_upto(
                                    data@,
                                    ord,
                                    cc,
                                    w as int,
                                ) + word_followers_upto(word@, ord, cc, jj) + seq![
                                    padded_word(word@, ord)[jj + order],
                                ]);
                            } else {
                                assert(cc != key_seq);
                                assert(obs@[i].followers@ =~= corpus_followers_upto(
                                    data@,
                                    ord,
                                    cc,
                                    w as int,
                                ) + word_followers_upto(word@, ord, cc, jj)
                                    + Seq::<Symbol>::empty());
                            }
                        }
                    }
                }
                None => {
                    let mut followers: Vec<Symbol> = Vec::new();
                    followers.push(next);
                    obs.push(
                        ObsEntry {
                            context: key,
                            followers,
                        },
                    );
                    proof {
                        assert(obs@ =~= old_obs.push(obs@[obs@.len() - 1]));
                        assert(!obs_has_key(old_obs, key_seq));
                        assert((corpus_followers_upto(data@, ord, key_seq, w as int)
                            + word_followers_upto(word@, ord, key_seq, jj)).len() == 0);
                        assert(corpus_followers_upto(data@, ord, key_seq, w as int) =~= Seq::empty());
                        assert(word_followers_upto(word@, ord, key_seq, jj) =~= Seq::empty());
                        assert(obs@[obs@.len() - 1].context@ == key_seq);
                        assert(obs_has_key(obs@, key_seq));
                        assert forall|c: Seq<Symbol>|
                            c != key_seq implies (obs_has_key(obs@, c) <==> obs_has_key(old_obs, c)) by {
                            if obs_has_key(obs@, c) {
                                let i = choose|i: int|
                                    0 <= i < obs@.len() && obs@[i].context@ == c;
                                if i == obs@.len() - 1 {
                                    assert(obs@[i].context@ == key_seq);
                                    assert(false);
                                }
                                assert(old_obs[i].context@ == c);
                            }
                            if obs_has_key(old_obs, c) {
                                let i = choose|i: int|
                                    0 <= i < old_obs.len() && old_obs[i].context@ == c;
                                assert(obs@[i].context@ == c);
                            }
                        }
                        assert forall|i: int| 0 <= i < obs@.len() implies (#[trigger] obs@[i]).followers@
                            == corpus_followers_upto(data@, ord, obs@[i].context@, w as int)
                            + word_followers_upto(word@, ord, obs@[i].context@, jj) + (
                        if obs@[i].context@ == key_seq {
                            seq![padded_word(word@, ord)[jj + order]]
                        } else {
                            Seq::<Symbol>::empty()
                        }) by {
                            let cc = obs@[i].context@;
                            if i == obs@.len() - 1 {
                                assert(obs@[i].followers@ =~= corpus_followers_upto(
                                    data@,
                                    ord,
                                    cc,
                                    w as int,
                                ) + word_followers_upto(word@, ord, cc, jj) + seq![
                                    padded_word(word@, ord)[jj + order],
                                ]);
                            } else {
                                assert(cc != key_seq);
                                assert(obs@[i].followers@ =~= corpus_followers_upto(
                                    data@,
                                    ord,
                                    cc,
                                    w as int,
                                ) + word_followers_upto(word@, ord, cc, jj)
                                    + Seq::<Symbol>::empty());
                            }
                        }
                    }
                }
            }
            j += 1;
            proof {
                assert forall|cc: Seq<Symbol>|
                    word_followers_upto(word@, ord, cc, jj + 1) == word_followers_upto(
                        word@,
                        ord,
                        cc,
                        jj,
                    ) + (
                    if padded_word(word@, ord).subrange(jj, jj + order) == cc {
                        seq![padded_word(word@, ord)[jj + order]]
                    } else {
                        Seq::<Symbol>::empty()
                    }) by {}
                assert forall|i: int| 0 <= i < obs@.len() implies (#[trigger] obs@[i]).followers@
                    == corpus_followers_upto(data@, ord, obs@[i].context@, w as int)
                    + word_followers_upto(word@, ord, obs@[i].context@, jj + 1) by {
                    let cc = obs@[i].context@;
                    if cc == padded_word(word@, ord).subrange(jj, jj + order) {
                        assert(obs@[i].followers@ =~= corpus_followers_upto(data@, ord, cc, w as int)
                            + word_followers_upto(word@, ord, cc, jj + 1));
                    } else {
                        assert(word_followers_upto(word@, ord, cc, jj + 1)
                            =~= word_followers_upto(word@, ord, cc, jj));
                        assert(obs@[i].followers@ =~= corpus_followers_upto(data@, ord, cc, w as int)
                            + word_followers_upto(word@, ord, cc, jj + 1));
                    }
                }
                assert forall|c: Seq<Symbol>|
                    #[trigger] obs_has_key(obs@, c) <==> (corpus_followers_upto(
                        data@,
                        ord,
                        c,
                        w as int,
                    ) + word_followers_upto(word@, ord, c, jj + 1)).len() > 0 by {
                    let with_j = corpus_followers_upto(data@, ord, c, w as int)
                        + word_followers_upto(word@, ord, c, jj);
                    let with_j1 = corpus_followers_upto(data@, ord, c, w as int)
                        + word_followers_upto(word@, ord, c, jj + 1);
                    if c == key_seq {
                        assert(obs_has_key(obs@, c));
                        assert(with_j1.len() == with_j.len() + 1);
                    } else {
                        assert(word_followers_upto(word@, ord, c, jj + 1)
                            =~= word_followers_upto(word@, ord, c, jj));
                        assert(with_j1.len() == with_j.len());
                        assert(obs_has_key(obs@, c) <==> obs_has_key(old_obs, c));
                    }
                }
            }
        }
        w += 1;
        proof {
            assert forall|cc: Seq<Symbol>|
                corpus_followers_upto(data@, ord, cc, w as int) == corpus_followers_upto(
                    data@,
                    ord,
                    cc,
                    w as int - 1,
                ) + word_followers(data@[w as int - 1]@, ord, cc) by {}
            assert forall|i: int| 0 <= i < obs@.len() implies (#[trigger] obs@[i]).followers@
                == corpus_followers_upto(data@, ord, obs@[i].context@, w as int) by {
                assert(obs@[i].followers@ =~= corpus_followers_upto(
                    data@,
                    ord,
                    obs@[i].context@,
                    w as int,
                ));
            }
        }
    }
    proof {
        assert(w as int == data@.len());
    }
    obs
}

/// Copies a vector of strings.
pub(crate) fn clone_strings(v: &Vec<String>) -> (r: Vec<String>)
    ensures
        r@ == v@,
{
    let mut r: Vec<String> = Vec::new();
    let mut i: usize = 0;
    while i < v.len()
        invariant
            0 <= i <= v@.len(),
            r@ =~= v@.take(i as int),
        decreases v@.len() - i,
    {
        r.push(v[i].clone());
        i += 1;
        proof {
            assert(r@ =~= v@.take(i as int));
        }
    }
    proof {
        assert(v@.take(v@.len() as int) =~= v@);
    }
    r
}

/// Copies a vector of characters.
pub(crate) fn clone_chars(v: &Vec<char>) -> (r: Vec<char>)
    ensures
        r@ == v@,
{
    let mut r: Vec<char> = Vec::new();
    let mut i: usize = 0;
    while i < v.len()
        invariant
            0 <= i <= v@.len(),
            r@ =~= v@.take(i as int),
        decreases v@.len() - i,
    {
        r.push(v[i]);
        i += 1;
        proof {
            assert(r@ =~= v@.take(i as int));
        }
    }
    proof {
        assert(v@.take(v@.len() as int) =~= v@);
    }
    r
}

/// Counts how often the predicted symbol occurs in an observation list.
fn count_matches(observation: &Vec<Symbol>, prediction: Symbol) -> (r: usize)
    ensures
        r as int == count_sym(observation@, prediction),
{
    let mut count: usize = 0;
    let mut i: usize = 0;
    while i < observation.len()
        invariant
            0 <= i <= observation@.len(),
            count as int == count_sym(observation@.take(i as int), prediction),
            count <= i,
        decreases observation@.len() - i,
    {
        proof {
            assert(observation@.take(i as int + 1).drop_last() =~= observation@.take(i as int));
            assert(observation@.take(i as int + 1).last() == observation@[i as int]);
        }
        if observation[i] == prediction {
            count += 1;
        }
        i += 1;
    }
    proof {
        assert(observation@.take(observation@.len() as int) =~= observation@);
    }
    count
}

/// The sum of the first `k` weights of a chain.
pub open spec fn prefix_total(weights: Seq<u64>, k: int) -> int
    decreases k,
{
    if k <= 0 {
        0
    } else {
        prefix_total(weights, k - 1) + weights[k - 1]
    }
}

/// Sums the weights of a chain.  The total also bounds every prefix, so a
/// caller of `pick_index` knows the whole cumulative scan fits in the
/// accumulator.
fn sum_weights(weights: &Vec<u64>) -> (t: u128)
    ensures
        t as int == prefix_total(weights@, weights@.len() as int),
{
    let n = weights.len();
    let mut t: u128 = 0;
    let mut k: usize = 0;
    while k < n
        invariant
            0 <= k <= n,
            n == weights@.len(),
            t as int == prefix_total(weights@, k as int),
            t as int <= k as int * 0xFFFF_FFFF_FFFF_FFFF,
        decreases n - k,
    {
        let wk = weights[k];
        proof {
            assert(t as int + wk as int <= (k as int + 1) * 0xFFFF_FFFF_FFFF_FFFF
                && (k as int + 1) * 0xFFFF_FFFF_FFFF_FFFF <= 0x1_0000_0000_0000_0000
                * 0xFFFF_FFFF_FFFF_FFFF) by (nonlinear_arith)
                requires
                    t as int <= k as int * 0xFFFF_FFFF_FFFF_FFFF,
                    wk as int <= 0xFFFF_FFFF_FFFF_FFFF,
                    0 <= k as int <= 0xFFFF_FFFF_FFFF_FFFF,
            ;
        }
        t = t + wk as u128;
        k += 1;
    }
    t
}

/// Selects the index that a draw of `u` falls on: the first index whose
/// cumulative weight exceeds `u`.  Each index `i` is selected by exactly the
/// draws in `[prefix_total(w, i), prefix_total(w, i + 1))`, an interval of
/// size `w[i]`, so a uniform draw lands on `i` with probability
/// `w[i] / total`.
pub fn pick_index(weights: &Vec<u64>, u: u128) -> (r: usize)
    requires
        weights@.len() > 0,
        (u as int) < prefix_total(weights@, weights@.len() as int),
        prefix_total(weights@, weights@.len() as int) <= u128::MAX,
    ensures
        r < weights@.len(),
        prefix_total(weights@, r as int) <= u as int,
        (u as int) < prefix_total(weights@, r as int + 1),
{
    let n = weights.len();
    let mut acc: u128 = 0;
    let mut k: usize = 0;
    loop
        invariant_except_break
            0 <= k < n,
            n == weights@.len(),
            acc as int == prefix_total(weights@, k as int),
            prefix_total(weights@, k as int) <= u as int,
            (u as int) < prefix_total(weights@, n as int),
            prefix_total(weights@, n as int) <= u128::MAX,
        ensures
            k < weights@.len(),
            prefix_total(weights@, k as int) <= u as int,
            (u as int) < prefix_total(weights@, k as int + 1),
        decreases n - k,
    {
        proof {
            lemma_prefix_total_mono(weights@, k as int + 1, n as int);
        }
        let next = acc + weights[k] as u128;
        if u < next {
            break;
        }
        acc = next;
        k += 1;
    }
    k
}

/// Prefix totals only grow along a chain.
pub proof fn lemma_prefix_total_mono(weights: Seq<u64>, a: int, b: int)
    requires
        a <= b,
    ensures
        prefix_total(weights, a) <= prefix_total(weights, b),
    decreases b - a,
{
    if a < b {
        lemma_prefix_total_mono(weights, a, b - 1);
    }
}

/// The draws that select index `i` form exactly the half-open interval from
/// `prefix_total(w, i)` to `prefix_total(w, i + 1)`, which holds `w[i]`
/// values; every draw below the total selects exactly one index.  Over a
/// uniform draw the selection frequency of each index is therefore its
/// weight's share of the total.
pub proof fn lemma_selection_frequency(weights: Seq<u64>, u: int)
    requires
        0 <= u < prefix_total(weights, weights.len() as int),
    ensures
        exists|i: int|
            0 <= i < weights.len() && #[trigger] prefix_total(weights, i) <= u < prefix_total(
                weights,
                i + 1,
            ),
        forall|i: int, j: int|
            (0 <= i < weights.len() && #[trigger] prefix_total(weights, i) <= u < prefix_total(
                weights,
                i + 1,
            ) && 0 <= j < weights.len() && #[trigger] prefix_total(weights, j) <= u
                < prefix_total(weights, j + 1)) ==> i == j,
        forall|i: int|
            0 <= i < weights.len() ==> #[trigger] prefix_total(weights, i + 1) - prefix_total(
                weights,
                i,
            ) == weights[i],
{
    assert forall|i: int|
        0 <= i < weights.len() implies prefix_total(weights, i + 1) - prefix_total(weights, i)
        == weights[i] by {}
    assert forall|i: int, j: int|
        (0 <= i < weights.len() && #[trigger] prefix_total(weights, i) <= u < prefix_total(
            weights,
            i + 1,
        ) && 0 <= j < weights.len() && #[trigger] prefix_total(weights, j) <= u < prefix_total(
            weights,
            j + 1,
        )) implies i == j by {
        if i < j {
            lemma_prefix_total_mono(weights, i + 1, j);
        }
        if j < i {
            lemma_prefix_total_mono(weights, j + 1, i);
        }
    }
    lemma_selection_exists(weights, u, weights.len() as int);
}

/// Helper for the frequency law: a draw below a prefix total falls in some
/// weight's interval.
proof fn lemma_selection_exists(weights: Seq<u64>, u: int, k: int)
    requires
        0 <= u < prefix_total(weights, k),
        k <= weights.len(),
    ensures
        exists|i: int|
            0 <= i < k && #[trigger] prefix_total(weights, i) <= u < prefix_total(weights, i + 1),
    decreases k,
{
    if k > 0 {
        if u >= prefix_total(weights, k - 1) {
            assert(prefix_total(weights, k - 1) <= u < prefix_total(weights, k));
        } else {
            lemma_selection_exists(weights, u, k - 1);
        }
    }
}

/// Builds the chain table of an observation table: one row per observed
/// context, holding `prior + occurrences` for every alphabet symbol, in
/// alphabet order.
fn build_chain_table(obs: &Vec<ObsEntry>, alphabet: &Vec<char>, prior: u64) -> (r: Vec<ChainEntry>)
    requires
        forall|i: int|
            0 <= i < obs@.len() ==> prior as int + (#[trigger] obs@[i]).followers@.len()
                <= u64::MAX,
    ensures
        r@.len() == obs@.len(),
        forall|i: int|
            0 <= i < r@.len() ==> (#[trigger] r@[i]).context@ == obs@[i].context@,
        forall|i: int|
            0 <= i < r@.len() ==> (#[trigger] r@[i]).weights@.len() == alphabet@.len(),
        forall|i: int, k: int|
            0 <= i < r@.len() && 0 <= k < alphabet@.len()
                ==> (#[trigger] r@[i].weights@[k]) as int == prior as int + count_sym(
                obs@[i].followers@,
                sym_of(alphabet@[k]),
            ),
        forall|i: int, k: int|
            0 <= i < r@.len() && 0 <= k < alphabet@.len() ==> (#[trigger] r@[i].weights@[k])
                >= prior,
{
    let mut r: Vec<ChainEntry> = Vec::new();
    let mut i: usize = 0;
    while i < obs.len()
        invariant
            0 <= i <= obs@.len(),
            forall|e: int|
                0 <= e < obs@.len() ==> prior as int + (#[trigger] obs@[e]).followers@.len()
                    <= u64::MAX,
            r@.len() == i,
            forall|e: int|
                0 <= e < r@.len() ==> (#[trigger] r@[e]).context@ == obs@[e].context@,
            forall|e: int|
                0 <= e < r@.len() ==> (#[trigger] r@[e]).weights@.len() == alphabet@.len(),
            forall|e: int, k: int|
                0 <= e < r@.len() && 0 <= k < alphabet@.len()
                    ==> (#[trigger] r@[e].weights@[k]) as int == prior as int + count_sym(
                    obs@[e].followers@,
                    sym_of(alphabet@[k]),
                ),
            forall|e: int, k: int|
                0 <= e < r@.len() && 0 <= k < alphabet@.len() ==> (#[trigger] r@[e].weights@[k])
                    >= prior,
        decreases obs@.len() - i,
    {
        let entry = &obs[i];
        let mut weights: Vec<u64> = Vec::new();
        let mut k: usize = 0;
        while k < alphabet.len()
            invariant
                0 <= k <= alphabet@.len(),
                0 <= i < obs@.len(),
                entry == obs@[i as int],
                prior as int + entry.followers@.len() <= u64::MAX,
                weights@.len() == k,
                forall|kk: int|
                    0 <= kk < k ==> (#[trigger] weights@[kk]) as int == prior as int + count_sym(
                        entry.followers@,
                        sym_of(alphabet@[kk]),
                    ),
                forall|kk: int| 0 <= kk < k ==> (#[trigger] weights@[kk]) >= prior,
            decreases alphabet@.len() - k,
        {
            let prediction = Symbol::Letter(alphabet[k] as u32);
            let count = count_matches(&entry.followers, prediction);
            proof {
                lemma_count_le_len(entry.followers@, prediction);
            }
            let weight = prior + count as u64;
            weights.push(weight);
            k += 1;
        }
        let context = slice_symbols(&entry.context, 0, entry.context.len());
        proof {
            assert(context@ =~= entry.context@);
        }
        r.push(ChainEntry { context, weights });
        i += 1;
    }
    r
}

/// After training, no follower list can outgrow the corpus's window count,
/// so every chain weight fits in its word.
proof fn lemma_trained_follower_bounds(m: Model)
    requires
        m.prior as int + total_windows(m.data@) <= u64::MAX,
        forall|i: int|
            0 <= i < m.observations@.len() ==> (#[trigger] m.observations@[i]).followers@
                == corpus_followers(m.data@, m.order as nat, m.observations@[i].context@),
    ensures
        forall|i: int|
            0 <= i < m.observations@.len() ==> m.prior as int + (#[trigger] m.observations@[i]).followers@.len()
                <= u64::MAX,
{
    assert forall|i: int|
        0 <= i < m.observations@.len() implies m.prior as int
        + (#[trigger] m.observations@[i]).followers@.len() <= u64::MAX by {
        lemma_corpus_followers_len(
            m.data@,
            m.order as nat,
            m.observations@[i].context@,
            m.data@.len() as int,
        );
    }
}

/// A nonempty observation table can only come from a nonempty corpus, so
/// such a model always has a symbol to emit.
proof fn lemma_nonempty_table_needs_corpus(m: Model)
    requires
        m.data@.len() > 0 ==> m.alphabet@.len() > 0,
        forall|c: Seq<Symbol>|
            #[trigger] obs_has_key(m.observations@, c) <==> corpus_followers(
                m.data@,
                m.order as nat,
                c,
            ).len() > 0,
    ensures
        m.observations@.len() > 0 ==> m.alphabet@.len() > 0,
{
    if m.observations@.len() > 0 {
        assert(obs_has_key(m.observations@, m.observations@[0].context@));
        if m.data@.len() == 0 {
            assert(corpus_followers(m.data@, m.order as nat, m.observations@[0].context@).len()
                == 0);
            assert(false);
        }
    }
}

/// A statistical model of one fixed order, trained on a corpus of words.
#[derive(Debug, Clone, PartialEq)]
pub struct Model {
    /// The training corpus the model was built from.
    pub data: Vec<String>,
    /// The context length: how many preceding symbols determine the next
    /// symbol's distribution.
    pub order: usize,
    /// The additive smoothing weight granted to every alphabet symbol.
    pub prior: u64,
    /// The symbols the model can emit, sorted and deduplicated.
    pub alphabet: Vec<char>,
    /// Context to every symbol observed right after it.
    pub observations: Vec<ObsEntry>,
    /// Context to one sampling weight per alphabet symbol.
    pub chains: Vec<ChainEntry>,
}

/// The mathematical content of a model: every field as a sequence.
#[verifier::ext_equal]
pub struct ModelView {
    pub data: Seq<Seq<char>>,
    pub order: nat,
    pub prior: u64,
    pub alphabet: Seq<char>,
    pub observations: Seq<(Seq<Symbol>, Seq<Symbol>)>,
    pub chains: Seq<(Seq<Symbol>, Seq<u64>)>,
}

impl View for Model {
    type V = ModelView;

    open spec fn view(&self) -> ModelView {
        ModelView {
            data: Seq::new(self.data@.len(), |i: int| self.data@[i]@),
            order: self.order as nat,
            prior: self.prior,
            alphabet: self.alphabet@,
            observations: Seq::new(self.observations@.len(), |i: int| self.observations@[i]@),
            chains: Seq::new(self.chains@.len(), |i: int| self.chains@[i]@),
        }
    }
}

impl Model {
    /// The order of this model.
    pub fn order(&self) -> (r: usize)
        ensures
            r == self.order,
    {
        self.order
    }

    /// Structural well-formedness: what every model holds by construction
    /// and what a decoded model is re-checked against.
    pub open spec fn wf(self) -> bool {
        &&& self.order >= 1
        &&& forall|i: int, j: int|
            0 <= i < j < self.alphabet@.len() ==> (self.alphabet@[i] as u32)
                < (self.alphabet@[j] as u32)
        &&& obs_unique(self.observations@)
        &&& forall|i: int|
            0 <= i < self.observations@.len() ==> (#[trigger] self.observations@[i]).context@.len()
                == self.order
        &&& self.chains@.len() == self.observations@.len()
        &&& forall|i: int|
            0 <= i < self.chains@.len() ==> (#[trigger] self.chains@[i]).context@
                == self.observations@[i].context@
        &&& forall|i: int|
            0 <= i < self.chains@.len() ==> (#[trigger] self.chains@[i]).weights@.len()
                == self.alphabet@.len()
        &&& forall|i: int, k: int|
            0 <= i < self.chains@.len() && 0 <= k < self.alphabet@.len()
                ==> (#[trigger] self.chains@[i].weights@[k]) >= self.prior
        &&& (self.observations@.len() > 0 ==> self.alphabet@.len() > 0)
    }

    /// The semantic tie between the tables and the corpus: the observation
    /// table holds exactly the followers of every context that occurs, and
    /// every chain weight is the prior plus the matching follower count.
    pub open spec fn trained(self) -> bool {
        &&& forall|c: Seq<Symbol>|
            #[trigger] obs_has_key(self.observations@, c) <==> corpus_followers(
                self.data@,
                self.order as nat,
                c,
            ).len() > 0
        &&& forall|i: int|
            0 <= i < self.observations@.len() ==> (#[trigger] self.observations@[i]).followers@
                == corpus_followers(
                self.data@,
                self.order as nat,
                self.observations@[i].context@,
            )
        &&& forall|i: int, k: int|
            0 <= i < self.chains@.len() && 0 <= k < self.alphabet@.len()
                ==> (#[trigger] self.chains@[i].weights@[k]) as int == self.prior as int
                + count_sym(
                corpus_followers(self.data@, self.order as nat, self.chains@[i].context@),
                sym_of(self.alphabet@[k]),
            )
    }

    /// The machine limits a corpus, prior and alphabet must respect for a
    /// model to be buildable: padded words fit in memory, no weight
    /// overflows, the alphabet is sorted, and a nonempty corpus brings a
    /// nonempty alphabet.
    pub open spec fn buildable(
        data: Seq<String>,
        order: usize,
        prior: u64,
        alphabet: Seq<char>,
    ) -> bool {
        &&& order >= 1
        &&& forall|i: int|
            0 <= i < data.len() ==> order + (#[trigger] data[i])@.len() + 1 <= usize::MAX
        &&& prior as int + total_windows(data) <= u64::MAX
        &&& forall|i: int, j: int|
            0 <= i < j < alphabet.len() ==> (alphabet[i] as u32) < (alphabet[j] as u32)
        &&& (data.len() > 0 ==> alphabet.len() > 0)
    }

    /// Creates a new Markov model: stores the inputs, then builds the
    /// observation table and derives the chain table from it.
    pub fn new(data: &Vec<String>, order: usize, prior: u64, alphabet: &Vec<char>) -> (r: Model)
        requires
            Model::buildable(data@, order, prior, alphabet@),
        ensures
            r.wf(),
            r.trained(),
            r.data@ == data@,
            r.order == order,
            r.prior == prior,
            r.alphabet@ == alphabet@,
    {
        let mut model = Model {
            data: clone_strings(data),
            order,
            prior,
            alphabet: clone_chars(alphabet),
            observations: Vec::new(),
            chains: Vec::new(),
        };
        model.train();
        proof {
            lemma_trained_follower_bounds(model);
        }
        model.build_chains();
        proof {
            lemma_nonempty_table_needs_corpus(model);
        }
        model
    }

    /// Retrains the model on its stored corpus, regenerating both tables.
    pub fn retrain(&mut self)
        requires
            Model::buildable(
                old(self).data@,
                old(self).order,
                old(self).prior,
                old(self).alphabet@,
            ),
        ensures
            final(self).wf(),
            final(self).trained(),
            final(self).data == old(self).data,
            final(self).order == old(self).order,
            final(self).prior == old(self).prior,
            final(self).alphabet == old(self).alphabet,
    {
        self.train();
        proof {
            lemma_trained_follower_bounds(*self);
        }
        self.build_chains();
        proof {
            lemma_nonempty_table_needs_corpus(*self);
        }
    }

    /// Rebuilds the observation table from the stored corpus.
    fn train(&mut self)
        requires
            forall|i: int|
                0 <= i < old(self).data@.len() ==> old(self).order + (#[trigger] old(self).data@[i])@.len() + 1 <= usize::MAX,
        ensures
            final(self).data == old(self).data,
            final(self).order == old(self).order,
            final(self).prior == old(self).prior,
            final(self).alphabet == old(self).alphabet,
            final(self).chains == old(self).chains,
            obs_unique(final(self).observations@),
            forall|i: int|
                0 <= i < final(self).observations@.len() ==> (#[trigger] final(self).observations@[i]).context@.len() == final(self).order,
            forall|c: Seq<Symbol>|
                #[trigger] obs_has_key(final(self).observations@, c) <==> corpus_followers(
                    final(self).data@,
                    final(self).order as nat,
                    c,
                ).len() > 0,
            forall|i: int|
                0 <= i < final(self).observations@.len() ==> (#[trigger] final(self).observations@[i]).followers@ == corpus_followers(
                    final(self).data@,
                    final(self).order as nat,
                    final(self).observations@[i].context@,
                ),
    {
        self.observations = train_table(&self.data, self.order);
    }

    /// Derives the chain table from the observation table.
    fn build_chains(&mut self)
        requires
            forall|i: int|
                0 <= i < old(self).observations@.len() ==> old(self).prior as int + (#[trigger] old(self).observations@[i]).followers@.len() <= u64::MAX,
        ensures
            final(self).data == old(self).data,
            final(self).order == old(self).order,
            final(self).prior == old(self).prior,
            final(self).alphabet == old(self).alphabet,
            final(self).observations == old(self).observations,
            final(self).chains@.len() == final(self).observations@.len(),
            forall|i: int|
                0 <= i < final(self).chains@.len() ==> (#[trigger] final(self).chains@[i]).context@
                    == final(self).observations@[i].context@,
            forall|i: int|
                0 <= i < final(self).chains@.len() ==> (#[trigger] final(self).chains@[i]).weights@.len()
                    == final(self).alphabet@.len(),
            forall|i: int, k: int|
                0 <= i < final(self).chains@.len() && 0 <= k < final(self).alphabet@.len()
                    ==> (#[trigger] final(self).chains@[i].weights@[k]) as int == final(self).prior as int + count_sym(
                    final(self).observations@[i].followers@,
                    sym_of(final(self).alphabet@[k]),
                ),
            forall|i: int, k: int|
                0 <= i < final(self).chains@.len() && 0 <= k < final(self).alphabet@.len()
                    ==> (#[trigger] final(self).chains@[i].weights@[k]) >= final(self).prior,
    {
        self.chains = build_chain_table(&self.observations, &self.alphabet, self.prior);
    }

    /// Attempts to generate the next symbol of a word given the context:
    /// the previous `order` symbols.  A context that is absent or whose
    /// weight vector has no mass — with prior 0, one after which nothing
    /// but the terminator was ever observed — yields `None`, the signal to
    /// back off to a lower order.  A live context yields an alphabet
    /// symbol of positive weight, drawn with probability proportional to
    /// its chain weight.
    pub fn generate(&self, context: &Vec<Symbol>) -> (r: Option<char>)
        requires
            self.wf(),
        ensures
            (r is Some) <==> chain_live(self.chains@, context@),
            match r {
                Some(c) => exists|row: int|
                    0 <= row < self.chains@.len() && (#[trigger] self.chains@[row]).context@
                        == context@ && (exists|k: int|
                        0 <= k < self.alphabet@.len() && c == self.alphabet@[k]
                            && self.chains@[row].weights@[k] > 0),
                None => true,
            },
    {
        proof {
            assert forall|a: int, b: int|
                0 <= a < b < self.chains@.len() implies (#[trigger] self.chains@[a]).context@
                != (#[trigger] self.chains@[b]).context@ by {
                assert(self.observations@[a].context@ != self.observations@[b].context@);
            }
        }
        match chain_find(&self.chains, context) {
            None => {
                proof {
                    assert(!chain_live(self.chains@, context@)) by {
                        if chain_live(self.chains@, context@) {
                            let row = choose|row: int|
                                0 <= row < self.chains@.len() && (#[trigger] self.chains@[row]).context@
                                    == context@ && prefix_total(
                                    self.chains@[row].weights@,
                                    self.chains@[row].weights@.len() as int,
                                ) > 0;
                            assert(chain_has_key(self.chains@, context@));
                        }
                    }
                }
                None
            },
            Some(row) => {
                let ghost rr = row as int;
                let total = sum_weights(&self.chains[row].weights);
                if total == 0 {
                    proof {
                        assert(!chain_live(self.chains@, context@)) by {
                            if chain_live(self.chains@, context@) {
                                let other = choose|other: int|
                                    0 <= other < self.chains@.len() && (#[trigger] self.chains@[other]).context@
                                        == context@ && prefix_total(
                                        self.chains@[other].weights@,
                                        self.chains@[other].weights@.len() as int,
                                    ) > 0;
                                assert(other == rr);
                            }
                        }
                    }
                    None
                } else {
                    let u = draw_below(total);
                    let k = pick_index(&self.chains[row].weights, u);
                    proof {
                        assert(prefix_total(self.chains@[rr].weights@, k as int + 1) - prefix_total(
                            self.chains@[rr].weights@,
                            k as int,
                        ) == self.chains@[rr].weights@[k as int]);
                        assert(self.chains@[rr].weights@[k as int] > 0);
                        assert(chain_live(self.chains@, context@));
                    }
                    Some(self.alphabet[k])
                }
            },
        }
    }
}

/// Whether a chain table can continue a context: it holds the context and
/// grants it positive weight mass.
pub open spec fn chain_live(chains: Seq<ChainEntry>, c: Seq<Symbol>) -> bool {
    exists|row: int|
        0 <= row < chains.len() && (#[trigger] chains[row]).context@ == c && prefix_total(
            chains[row].weights@,
            chains[row].weights@.len() as int,
        ) > 0
}

/// Every key of a well-formed model's observation table is a context of
/// exactly the model's order.
pub proof fn lemma_observation_key_length(m: Model, i: int)
    requires
        m.wf(),
        0 <= i < m.observations@.len(),
    ensures
        m.observations@[i].context@.len() == m.order,
{
}

/// Every row of a well-formed model's chain table carries one weight per
/// alphabet symbol, and every weight is at least the prior.
pub proof fn lemma_chain_row_shape(m: Model, i: int)
    requires
        m.wf(),
        0 <= i < m.chains@.len(),
    ensures
        m.chains@[i].weights@.len() == m.alphabet@.len(),
        forall|k: int|
            0 <= k < m.chains@[i].weights@.len() ==> #[trigger] m.chains@[i].weights@[k]
                >= m.prior,
        m.chains@.len() == m.observations@.len(),
        m.chains@[i].context@ == m.observations@[i].context@,
{
}

/// A symbol occurs in a list exactly when it is counted there.
pub proof fn lemma_count_pos(s: Seq<Symbol>, x: Symbol)
    ensures
        count_sym(s, x) > 0 <==> s.contains(x),
    decreases s.len(),
{
    if s.len() > 0 {
        lemma_count_pos(s.drop_last(), x);
        lemma_count_le_len(s.drop_last(), x);
        if s.last() == x {
            assert(s[s.len() - 1] == x);
            assert(s.contains(x));
        }
        if s.contains(x) && s.last() != x {
            let i = choose|i: int| 0 <= i < s.len() && s[i] == x;
            assert(s.drop_last()[i] == x);
            assert(s.drop_last().contains(x));
        }
        if s.drop_last().contains(x) {
            let i = choose|i: int| 0 <= i < s.drop_last().len() && s.drop_last()[i] == x;
            assert(s[i] == x);
            assert(s.contains(x));
        }
    }
}

/// Counting distributes over concatenation.
pub proof fn lemma_count_concat(a: Seq<Symbol>, b: Seq<Symbol>, x: Symbol)
    ensures
        count_sym(a + b, x) == count_sym(a, x) + count_sym(b, x),
    decreases b.len(),
{
    if b.len() == 0 {
        assert(a + b =~= a);
    } else {
        lemma_count_concat(a, b.drop_last(), x);
        assert((a + b).drop_last() =~= a + b.drop_last());
        assert((a + b).last() == b.last());
    }
}

/// Counts are never negative.
pub proof fn lemma_count_nonneg(s: Seq<Symbol>, x: Symbol)
    ensures
        count_sym(s, x) >= 0,
{
    lemma_count_le_len(s, x);
}

/// A later window prefix of one word never counts fewer followers.
proof fn lemma_word_count_mono(w: Seq<char>, order: nat, c: Seq<Symbol>, x: Symbol, i: int, j: int)
    requires
        i <= j,
    ensures
        count_sym(word_followers_upto(w, order, c, i), x) <= count_sym(
            word_followers_upto(w, order, c, j),
            x,
        ),
    decreases j - i,
{
    if i < j {
        lemma_word_count_mono(w, order, c, x, i, j - 1);
        lemma_count_concat(
            word_followers_upto(w, order, c, j - 1),
            if padded_word(w, order).subrange(j - 1, j - 1 + order) == c {
                seq![padded_word(w, order)[j - 1 + order]]
            } else {
                Seq::empty()
            },
            x,
        );
        lemma_count_nonneg(
            if padded_word(w, order).subrange(j - 1, j - 1 + order) == c {
                seq![padded_word(w, order)[j - 1 + order]]
            } else {
                Seq::empty()
            },
            x,
        );
    }
}

/// A longer corpus prefix never counts fewer followers.
proof fn lemma_corpus_count_mono(
    data: Seq<String>,
    order: nat,
    c: Seq<Symbol>,
    x: Symbol,
    i: int,
    j: int,
)
    requires
        i <= j,
    ensures
        count_sym(corpus_followers_upto(data, order, c, i), x) <= count_sym(
            corpus_followers_upto(data, order, c, j),
            x,
        ),
    decreases j - i,
{
    if i < j {
        lemma_corpus_count_mono(data, order, c, x, i, j - 1);
        lemma_count_concat(
            corpus_followers_upto(data, order, c, j - 1),
            word_followers(data[j - 1]@, order, c),
            x,
        );
        lemma_count_nonneg(word_followers(data[j - 1]@, order, c), x);
    }
}

/// A prefix total over nonnegative weights is nonnegative.
proof fn lemma_prefix_total_nonneg(w: Seq<u64>, n: int)
    requires
        forall|i: int| 0 <= i < n ==> #[trigger] w[i] >= 0,
    ensures
        prefix_total(w, n) >= 0,
    decreases n,
{
    if n > 0 {
        lemma_prefix_total_nonneg(w, n - 1);
    }
}

/// One positive weight gives the whole vector positive mass.
proof fn lemma_prefix_total_lower(w: Seq<u64>, k: int, n: int)
    requires
        0 <= k < n <= w.len(),
        forall|i: int| 0 <= i < n ==> #[trigger] w[i] >= 0,
    ensures
        prefix_total(w, n) >= w[k],
    decreases n,
{
    if k == n - 1 {
        lemma_prefix_total_nonneg(w, n - 1);
    } else {
        lemma_prefix_total_lower(w, k, n - 1);
    }
}

/// A trained model on a nonempty corpus can always start a word: the
/// all-terminator context is in its chain table with positive mass,
/// provided the alphabet covers the corpus's first letter.  This is what
/// makes a word generated from a trained cascade nonempty.
pub proof fn lemma_start_context_live(m: Model)
    requires
        m.wf(),
        m.trained(),
        m.data@.len() > 0,
        m.data@[0]@.len() > 0,
        m.alphabet@.contains(m.data@[0]@[0]),
    ensures
        chain_live(m.chains@, Seq::new(m.order as nat, |i: int| Symbol::Terminator)),
{
    let ord = m.order as nat;
    let start = Seq::new(ord, |i: int| Symbol::Terminator);
    let w = m.data@[0]@;
    let first = sym_of(w[0]);
    let padded = padded_word(w, ord);
    // the very first window of the first word observes the first letter
    // right after the all-terminator context
    assert(padded.subrange(0, ord as int) =~= start);
    assert(letters_of(w)[0] == first);
    assert(padded[ord as int] == first);
    assert(word_followers_upto(w, ord, start, 0) == Seq::<Symbol>::empty());
    assert(word_followers_upto(w, ord, start, 1) =~= seq![first]);
    assert(count_sym(seq![first], first) == 1) by {
        assert(seq![first].drop_last() =~= Seq::<Symbol>::empty());
        assert(count_sym(Seq::<Symbol>::empty(), first) == 0);
        assert(seq![first].last() == first);
    }
    lemma_word_count_mono(w, ord, start, first, 1, word_windows(w));
    assert(corpus_followers_upto(m.data@, ord, start, 0) == Seq::<Symbol>::empty());
    assert(corpus_followers_upto(m.data@, ord, start, 1) =~= word_followers(w, ord, start));
    lemma_corpus_count_mono(m.data@, ord, start, first, 1, m.data@.len() as int);
    let followers = corpus_followers(m.data@, ord, start);
    assert(count_sym(followers, first) >= 1);
    lemma_count_le_len(followers, first);
    assert(obs_has_key(m.observations@, start));
    let row = choose|row: int|
        0 <= row < m.observations@.len() && (#[trigger] m.observations@[row]).context@ == start;
    assert(m.chains@[row].context@ == start);
    let k = choose|k: int| 0 <= k < m.alphabet@.len() && m.alphabet@[k] == m.data@[0]@[0];
    assert(m.chains@[row].weights@[k] as int == m.prior as int + count_sym(followers, first));
    assert(m.chains@[row].weights@[k] >= 1);
    assert forall|i: int|
        0 <= i < m.chains@[row].weights@.len() implies #[trigger] m.chains@[row].weights@[i]
        >= 0 by {
        assert(m.chains@[row].weights@[i] >= m.prior);
    }
    lemma_prefix_total_lower(m.chains@[row].weights@, k, m.chains@[row].weights@.len() as int);
    assert(prefix_total(m.chains@[row].weights@, m.chains@[row].weights@.len() as int) > 0);
}

} // verus!
