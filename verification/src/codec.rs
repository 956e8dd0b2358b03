//! The canonical byte format of a generator.
//!
//! `serialize_generator` lays a generator out as length-prefixed fields —
//! integers little-endian, strings as UTF-8 — and `deserialize_generator`
//! reads it back.  The decoder provably inverts the encoder: feeding it any
//! well-formed generator's encoding returns a generator with the same
//! mathematical content.  Anything else may be rejected; a rejected cache
//! artifact only costs a rebuild.

use vstd::prelude::*;

use vstd::utf8::{decode_utf8, encode_utf8, valid_utf8};

use crate::model::{Model, ModelView};
use crate::generator::{Generator, GeneratorView};
use crate::symbol::Symbol;
use crate::table::{ChainEntry, ObsEntry, obs_unique};
use crate::text::chars_of_str;

verus! {

broadcast use
    vstd::utf8::encode_utf8_valid_utf8,
    vstd::utf8::encode_utf8_decode_utf8;

/// Byte `i` of the little-endian layout of a 64-bit word.
pub open spec fn u64_byte(v: u64, i: int) -> u8 {
    ((v >> ((8 * i) as u64)) & 0xFF) as u8
}

/// A 64-bit word, little-endian.
pub open spec fn enc_u64(v: u64) -> Seq<u8> {
    Seq::new(8, |i: int| u64_byte(v, i))
}

/// One symbol: a tag byte, then for a letter its scalar value.
pub open spec fn enc_sym(s: Symbol) -> Seq<u8> {
    match s {
        Symbol::Terminator => seq![0u8],
        Symbol::Letter(c) => seq![1u8] + enc_u64(c as u64),
    }
}

/// The first `i` items of a list, encoded back to back.
pub open spec fn enc_items_upto<T>(s: Seq<T>, i: int, f: spec_fn(T) -> Seq<u8>) -> Seq<u8>
    decreases i,
{
    if i <= 0 {
        Seq::empty()
    } else {
        enc_items_upto(s, i - 1, f) + f(s[i - 1])
    }
}

/// The items of the half-open range `[i, j)`, encoded back to back.
pub open spec fn enc_items_range<T>(s: Seq<T>, i: int, j: int, f: spec_fn(T) -> Seq<u8>) -> Seq<
    u8,
>
    decreases j - i,
{
    if j <= i {
        Seq::empty()
    } else {
        enc_items_range(s, i, j - 1, f) + f(s[j - 1])
    }
}

/// A list: its length, then every item.
pub open spec fn enc_list<T>(s: Seq<T>, f: spec_fn(T) -> Seq<u8>) -> Seq<u8> {
    enc_u64(s.len() as u64) + enc_items_upto(s, s.len() as int, f)
}

/// A prefix of encoded items followed by the rest of them makes all of
/// them.
pub proof fn lemma_items_split<T>(s: Seq<T>, i: int, j: int, f: spec_fn(T) -> Seq<u8>)
    requires
        0 <= i <= j,
    ensures
        enc_items_upto(s, j, f) == enc_items_upto(s, i, f) + enc_items_range(s, i, j, f),
    decreases j - i,
{
    if j <= i {
        assert(enc_items_upto(s, j, f) =~= enc_items_upto(s, i, f) + enc_items_range(s, i, j, f));
    } else {
        lemma_items_split(s, i, j - 1, f);
        assert(enc_items_upto(s, j, f) =~= enc_items_upto(s, i, f) + enc_items_range(s, i, j, f));
    }
}

/// A nonempty range of encoded items starts with its first item.
pub proof fn lemma_range_head<T>(s: Seq<T>, i: int, j: int, f: spec_fn(T) -> Seq<u8>)
    requires
        i < j,
    ensures
        enc_items_range(s, i, j, f) == f(s[i]) + enc_items_range(s, i + 1, j, f),
    decreases j - i,
{
    if i + 1 == j {
        assert(enc_items_range(s, i, i, f) == Seq::<u8>::empty());
        assert(enc_items_range(s, i + 1, j, f) == Seq::<u8>::empty());
        assert(enc_items_range(s, i, j, f) =~= f(s[i]) + enc_items_range(s, i + 1, j, f));
    } else {
        lemma_range_head(s, i, j - 1, f);
        assert(enc_items_range(s, i, j, f) =~= f(s[i]) + enc_items_range(s, i + 1, j, f));
    }
}

/// Whoever starts with a concatenation starts with its first part, and
/// after it with the second.
pub proof fn lemma_prefix_split(whole: Seq<u8>, a: Seq<u8>, b: Seq<u8>)
    requires
        (a + b).is_prefix_of(whole),
    ensures
        a.is_prefix_of(whole),
        b.is_prefix_of(whole.skip(a.len() as int)),
{
    assert(a =~= (a + b).subrange(0, a.len() as int));
    assert(a.is_prefix_of(whole));
    let tail = whole.skip(a.len() as int);
    assert forall|k: int| 0 <= k < b.len() implies b[k] == tail.subrange(0, b.len() as int)[k] by {
        assert((a + b)[a.len() + k] == b[k]);
        assert((a + b)[a.len() + k] == whole.subrange(0, (a + b).len() as int)[a.len() + k]);
        assert(tail[k] == whole[a.len() + k]);
    }
    assert(b =~= tail.subrange(0, b.len() as int));
}

/// The encoding function of a symbol, as a value.
pub open spec fn sym_codec() -> spec_fn(Symbol) -> Seq<u8> {
    |x: Symbol| enc_sym(x)
}

/// The encoding function of a weight, as a value.
pub open spec fn weight_codec() -> spec_fn(u64) -> Seq<u8> {
    |x: u64| enc_u64(x)
}

/// A string of symbols: its length, then every symbol.
pub open spec fn enc_syms(s: Seq<Symbol>) -> Seq<u8> {
    enc_list(s, sym_codec())
}

/// A weight vector: its length, then every weight.
pub open spec fn enc_weights(s: Seq<u64>) -> Seq<u8> {
    enc_list(s, weight_codec())
}

/// A string of characters: the byte length of its UTF-8 form, then those
/// bytes.
pub open spec fn enc_string(s: Seq<char>) -> Seq<u8> {
    enc_u64(encode_utf8(s).len() as u64) + encode_utf8(s)
}

/// The encoding function of a corpus word, as a value.
pub open spec fn string_codec() -> spec_fn(Seq<char>) -> Seq<u8> {
    |x: Seq<char>| enc_string(x)
}

/// A word list: its length, then every word.
pub open spec fn enc_strings(s: Seq<Seq<char>>) -> Seq<u8> {
    enc_list(s, string_codec())
}

/// One observation row: its context, then its followers.
pub open spec fn enc_obs_entry(e: (Seq<Symbol>, Seq<Symbol>)) -> Seq<u8> {
    enc_syms(e.0) + enc_syms(e.1)
}

/// The encoding function of an observation row, as a value.
pub open spec fn obs_codec() -> spec_fn((Seq<Symbol>, Seq<Symbol>)) -> Seq<u8> {
    |x: (Seq<Symbol>, Seq<Symbol>)| enc_obs_entry(x)
}

/// An observation table: its length, then every row.
pub open spec fn enc_obs(s: Seq<(Seq<Symbol>, Seq<Symbol>)>) -> Seq<u8> {
    enc_list(s, obs_codec())
}

/// One chain row: its context, then its weights.
pub open spec fn enc_chain_entry(e: (Seq<Symbol>, Seq<u64>)) -> Seq<u8> {
    enc_syms(e.0) + enc_weights(e.1)
}

/// The encoding function of a chain row, as a value.
pub open spec fn chain_codec() -> spec_fn((Seq<Symbol>, Seq<u64>)) -> Seq<u8> {
    |x: (Seq<Symbol>, Seq<u64>)| enc_chain_entry(x)
}

/// A chain table: its length, then every row.
pub open spec fn enc_chains(s: Seq<(Seq<Symbol>, Seq<u64>)>) -> Seq<u8> {
    enc_list(s, chain_codec())
}

/// One model: order, prior, alphabet, corpus, observation table, chain
/// table.
pub open spec fn enc_model(m: ModelView) -> Seq<u8> {
    enc_u64(m.order as u64) + enc_u64(m.prior) + enc_string(m.alphabet) + enc_strings(m.data)
        + enc_obs(m.observations) + enc_chains(m.chains)
}

/// The encoding function of a model, as a value.
pub open spec fn model_codec() -> spec_fn(ModelView) -> Seq<u8> {
    |x: ModelView| enc_model(x)
}

/// A whole generator: its order, then its model cascade.
pub open spec fn enc_generator(g: GeneratorView) -> Seq<u8> {
    enc_u64(g.order as u64) + enc_list(g.models, model_codec())
}

/// Appends the little-endian bytes of a 64-bit word.
fn push_u64(buf: &mut Vec<u8>, v: u64)
    ensures
        final(buf)@ == old(buf)@ + enc_u64(v),
{
    let ghost start = buf@;
    let mut i: usize = 0;
    while i < 8
        invariant
            0 <= i <= 8,
            buf@ =~= start + enc_u64(v).take(i as int),
        decreases 8 - i,
    {
        let shift: u64 = 8 * (i as u64);
        let masked: u64 = (v >> shift) & 0xFF;
        proof {
            assert((v >> shift) & 0xFF <= 0xFF) by (bit_vector);
        }
        let byte: u8 = masked as u8;
        buf.push(byte);
        i += 1;
        proof {
            assert(byte == u64_byte(v, i as int - 1));
            assert(buf@ =~= start + enc_u64(v).take(i as int));
        }
    }
    proof {
        assert(enc_u64(v).take(8) =~= enc_u64(v));
        assert(buf@ =~= start + enc_u64(v));
    }
}

/// Recovers a 64-bit word from 8 little-endian bytes.
proof fn lemma_u64_roundtrip(v: u64, r: u64)
    by (bit_vector)
    requires
        r == (((v >> 0u64) & 0xFF) | (((v >> 8u64) & 0xFF) << 8u64) | (((v >> 16u64) & 0xFF)
            << 16u64) | (((v >> 24u64) & 0xFF) << 24u64) | (((v >> 32u64) & 0xFF) << 32u64) | (((v
            >> 40u64) & 0xFF) << 40u64) | (((v >> 48u64) & 0xFF) << 48u64) | (((v >> 56u64) & 0xFF)
            << 56u64)),
    ensures
        r == v,
{
}

/// Reads a 64-bit word.  Fed any byte string that starts, at `pos`, with
/// the encoding of a word, it returns that word.
fn dec_u64(bytes: &Vec<u8>, pos: usize) -> (r: Option<(u64, usize)>)
    requires
        pos <= bytes@.len(),
    ensures
        r matches Some((v, p)) ==> pos < p <= bytes@.len(),
        forall|v: u64|
            (#[trigger] enc_u64(v)).is_prefix_of(bytes@.skip(pos as int)) ==> (r matches Some(rr)
                && rr.0 == v && rr.1 == pos + 8),
{
    if bytes.len() - pos < 8 {
        proof {
            assert forall|v: u64| !(#[trigger] enc_u64(v)).is_prefix_of(
                bytes@.skip(pos as int),
            ) by {
                assert(bytes@.skip(pos as int).len() < 8);
            }
        }
        return None;
    }
    let b0 = bytes[pos] as u64;
    let b1 = bytes[pos + 1] as u64;
    let b2 = bytes[pos + 2] as u64;
    let b3 = bytes[pos + 3] as u64;
    let b4 = bytes[pos + 4] as u64;
    let b5 = bytes[pos + 5] as u64;
    let b6 = bytes[pos + 6] as u64;
    let b7 = bytes[pos + 7] as u64;
    let value: u64 = b0 | (b1 << 8u64) | (b2 << 16u64) | (b3 << 24u64) | (b4 << 32u64) | (b5
        << 40u64) | (b6 << 48u64) | (b7 << 56u64);
    proof {
        assert forall|v: u64|
            (#[trigger] enc_u64(v)).is_prefix_of(bytes@.skip(pos as int)) implies value == v by {
            assert forall|i: int| 0 <= i < 8 implies bytes@[pos + i] == u64_byte(v, i) by {
                assert(enc_u64(v)[i] == bytes@.skip(pos as int)[i]);
            }
            assert(bytes@[pos as int] == u64_byte(v, 0));
            assert(bytes@[pos as int + 1] == u64_byte(v, 1));
            assert(bytes@[pos as int + 2] == u64_byte(v, 2));
            assert(bytes@[pos as int + 3] == u64_byte(v, 3));
            assert(bytes@[pos as int + 4] == u64_byte(v, 4));
            assert(bytes@[pos as int + 5] == u64_byte(v, 5));
            assert(bytes@[pos as int + 6] == u64_byte(v, 6));
            assert(bytes@[pos as int + 7] == u64_byte(v, 7));
            assert(u64_byte(v, 0) == ((v >> 0u64) & 0xFF) as u8);
            assert(u64_byte(v, 1) == ((v >> 8u64) & 0xFF) as u8);
            assert(u64_byte(v, 2) == ((v >> 16u64) & 0xFF) as u8);
            assert(u64_byte(v, 3) == ((v >> 24u64) & 0xFF) as u8);
            assert(u64_byte(v, 4) == ((v >> 32u64) & 0xFF) as u8);
            assert(u64_byte(v, 5) == ((v >> 40u64) & 0xFF) as u8);
            assert(u64_byte(v, 6) == ((v >> 48u64) & 0xFF) as u8);
            assert(u64_byte(v, 7) == ((v >> 56u64) & 0xFF) as u8);
            assert((((v >> 0u64) & 0xFF) as u8) as u64 == ((v >> 0u64) & 0xFF)) by (bit_vector);
            assert((((v >> 8u64) & 0xFF) as u8) as u64 == ((v >> 8u64) & 0xFF)) by (bit_vector);
            assert((((v >> 16u64) & 0xFF) as u8) as u64 == ((v >> 16u64) & 0xFF)) by (bit_vector);
            assert((((v >> 24u64) & 0xFF) as u8) as u64 == ((v >> 24u64) & 0xFF)) by (bit_vector);
            assert((((v >> 32u64) & 0xFF) as u8) as u64 == ((v >> 32u64) & 0xFF)) by (bit_vector);
            assert((((v >> 40u64) & 0xFF) as u8) as u64 == ((v >> 40u64) & 0xFF)) by (bit_vector);
            assert((((v >> 48u64) & 0xFF) as u8) as u64 == ((v >> 48u64) & 0xFF)) by (bit_vector);
            assert((((v >> 56u64) & 0xFF) as u8) as u64 == ((v >> 56u64) & 0xFF)) by (bit_vector);
            lemma_u64_roundtrip(v, value);
        }
    }
    Some((value, pos + 8))
}

/// All machine-size limits a symbol string respects.
pub open spec fn sized_syms(s: Seq<Symbol>) -> bool {
    s.len() <= usize::MAX
}

/// All machine-size limits a word list respects.
pub open spec fn sized_strings(s: Seq<Seq<char>>) -> bool {
    &&& s.len() <= usize::MAX
    &&& forall|i: int| 0 <= i < s.len() ==> encode_utf8(#[trigger] s[i]).len() <= usize::MAX
}

/// All machine-size limits an observation table respects.
pub open spec fn sized_obs(s: Seq<(Seq<Symbol>, Seq<Symbol>)>) -> bool {
    &&& s.len() <= usize::MAX
    &&& forall|i: int|
        0 <= i < s.len() ==> sized_syms((#[trigger] s[i]).0) && sized_syms(s[i].1)
}

/// All machine-size limits a chain table respects.
pub open spec fn sized_chains(s: Seq<(Seq<Symbol>, Seq<u64>)>) -> bool {
    &&& s.len() <= usize::MAX
    &&& forall|i: int|
        0 <= i < s.len() ==> sized_syms((#[trigger] s[i]).0) && s[i].1.len() <= usize::MAX
}

/// All machine-size limits a model respects: every list it holds, and the
/// UTF-8 form of every string, fits in an address space.
pub open spec fn sized_model(m: ModelView) -> bool {
    &&& m.order <= usize::MAX
    &&& encode_utf8(m.alphabet).len() <= usize::MAX
    &&& sized_strings(m.data)
    &&& sized_obs(m.observations)
    &&& sized_chains(m.chains)
}

/// All machine-size limits a generator respects.
pub open spec fn sized_generator(g: GeneratorView) -> bool {
    &&& g.order <= usize::MAX
    &&& g.models.len() <= usize::MAX
    &&& forall|k: int| 0 <= k < g.models.len() ==> sized_model(#[trigger] g.models[k])
}

/// Appends one symbol.
fn push_sym(buf: &mut Vec<u8>, s: Symbol)
    ensures
        final(buf)@ == old(buf)@ + enc_sym(s),
{
    match s {
        Symbol::Terminator => {
            buf.push(0u8);
            proof {
                assert(buf@ =~= old(buf)@ + enc_sym(s));
            }
        },
        Symbol::Letter(c) => {
            buf.push(1u8);
            push_u64(buf, c as u64);
            proof {
                assert(buf@ =~= old(buf)@ + enc_sym(s));
            }
        },
    }
}

/// Appends a string of symbols.
fn push_syms(buf: &mut Vec<u8>, s: &Vec<Symbol>)
    ensures
        final(buf)@ == old(buf)@ + enc_syms(s@),
{
    push_u64(buf, s.len() as u64);
    let ghost start = buf@;
    let mut i: usize = 0;
    while i < s.len()
        invariant
            0 <= i <= s@.len(),
            buf@ == start + enc_items_upto(s@, i as int, sym_codec()),
        decreases s@.len() - i,
    {
        push_sym(buf, s[i]);
        i += 1;
        proof {
            assert(sym_codec()(s@[i - 1]) == enc_sym(s@[i - 1]));
            assert(buf@ =~= start + enc_items_upto(s@, i as int, sym_codec()));
        }
    }
    proof {
        assert(buf@ =~= old(buf)@ + enc_syms(s@));
    }
}

/// Appends a weight vector.
fn push_weights(buf: &mut Vec<u8>, s: &Vec<u64>)
    ensures
        final(buf)@ == old(buf)@ + enc_weights(s@),
{
    push_u64(buf, s.len() as u64);
    let ghost start = buf@;
    let mut i: usize = 0;
    while i < s.len()
        invariant
            0 <= i <= s@.len(),
            buf@ == start + enc_items_upto(s@, i as int, weight_codec()),
        decreases s@.len() - i,
    {
        push_u64(buf, s[i]);
        i += 1;
        proof {
            assert(weight_codec()(s@[i - 1]) == enc_u64(s@[i - 1]));
            assert(buf@ =~= start + enc_items_upto(s@, i as int, weight_codec()));
        }
    }
    proof {
        assert(buf@ =~= old(buf)@ + enc_weights(s@));
    }
}

/// Appends one character string as UTF-8.
fn push_string(buf: &mut Vec<u8>, s: &str)
    ensures
        final(buf)@ == old(buf)@ + enc_string(s@),
        encode_utf8(s@).len() <= usize::MAX,
{
    let utf8 = s.as_bytes_vec();
    push_u64(buf, utf8.len() as u64);
    let ghost start = buf@;
    let mut i: usize = 0;
    while i < utf8.len()
        invariant
            0 <= i <= utf8@.len(),
            utf8@ == encode_utf8(s@),
            buf@ == start + utf8@.take(i as int),
        decreases utf8@.len() - i,
    {
        buf.push(utf8[i]);
        i += 1;
        proof {
            assert(buf@ =~= start + utf8@.take(i as int));
        }
    }
    proof {
        assert(utf8@.take(utf8@.len() as int) =~= utf8@);
        assert(buf@ =~= old(buf)@ + enc_string(s@));
    }
}

/// Reads one symbol.  Fed any byte string that starts, at `pos`, with the
/// encoding of a symbol, it returns that symbol.
fn dec_sym(bytes: &Vec<u8>, pos: usize) -> (r: Option<(Symbol, usize)>)
    requires
        pos <= bytes@.len(),
    ensures
        r matches Some((v, p)) ==> pos < p <= bytes@.len(),
        forall|v: Symbol|
            (#[trigger] enc_sym(v)).is_prefix_of(bytes@.skip(pos as int)) ==> (r matches Some(rr)
                && rr.0 == v && rr.1 == pos + enc_sym(v).len()),
{
    if pos >= bytes.len() {
        return None;
    }
    let tag = bytes[pos];
    if tag == 0 {
        proof {
            assert forall|v: Symbol|
                (#[trigger] enc_sym(v)).is_prefix_of(bytes@.skip(pos as int)) implies v
                == Symbol::Terminator by {
                assert(enc_sym(v)[0] == bytes@.skip(pos as int)[0]);
            }
        }
        return Some((Symbol::Terminator, pos + 1));
    }
    if tag != 1 {
        proof {
            assert forall|v: Symbol| !(#[trigger] enc_sym(v)).is_prefix_of(
                bytes@.skip(pos as int),
            ) by {
                assert(enc_sym(v)[0] == bytes@.skip(pos as int)[0] || !enc_sym(v).is_prefix_of(
                    bytes@.skip(pos as int),
                ));
            }
        }
        return None;
    }
    match dec_u64(bytes, pos + 1) {
        None => {
            proof {
                assert forall|v: Symbol| !(#[trigger] enc_sym(v)).is_prefix_of(
                    bytes@.skip(pos as int),
                ) by {
                    if enc_sym(v).is_prefix_of(bytes@.skip(pos as int)) {
                        assert(enc_sym(v)[0] == bytes@.skip(pos as int)[0]);
                        let c = v->Letter_0;
                        lemma_prefix_split(bytes@.skip(pos as int), seq![1u8], enc_u64(c as u64));
                        assert(bytes@.skip(pos as int).skip(1) =~= bytes@.skip(pos as int + 1));
                    }
                }
            }
            None
        },
        Some((code, p)) => {
            if code > 0xFFFF_FFFF {
                proof {
                    assert forall|v: Symbol| !(#[trigger] enc_sym(v)).is_prefix_of(
                        bytes@.skip(pos as int),
                    ) by {
                        if enc_sym(v).is_prefix_of(bytes@.skip(pos as int)) {
                            assert(enc_sym(v)[0] == bytes@.skip(pos as int)[0]);
                            let c = v->Letter_0;
                            lemma_prefix_split(
                                bytes@.skip(pos as int),
                                seq![1u8],
                                enc_u64(c as u64),
                            );
                            assert(bytes@.skip(pos as int).skip(1) =~= bytes@.skip(
                                pos as int + 1,
                            ));
                            assert(code == c as u64);
                        }
                    }
                }
                return None;
            }
            let sym = Symbol::Letter(code as u32);
            proof {
                assert forall|v: Symbol|
                    (#[trigger] enc_sym(v)).is_prefix_of(bytes@.skip(pos as int)) implies v == sym
                    && p == pos + enc_sym(v).len() by {
                    assert(enc_sym(v)[0] == bytes@.skip(pos as int)[0]);
                    let c = v->Letter_0;
                    lemma_prefix_split(bytes@.skip(pos as int), seq![1u8], enc_u64(c as u64));
                    assert(bytes@.skip(pos as int).skip(1) =~= bytes@.skip(pos as int + 1));
                    assert(code == c as u64);
                    assert(((c as u64) as u32) == c) by (bit_vector);
                }
            }
            Some((sym, p))
        },
    }
}

/// Composing two skips is one skip.
pub proof fn lemma_skip_skip(s: Seq<u8>, a: int, b: int)
    requires
        0 <= a,
        0 <= b,
        a + b <= s.len(),
    ensures
        s.skip(a).skip(b) == s.skip(a + b),
{
    assert(s.skip(a).skip(b) =~= s.skip(a + b));
}

/// Reads a string of symbols.  Fed any byte string that starts, at `pos`,
/// with the encoding of a machine-sized symbol string, it returns exactly
/// that string.
fn dec_syms(bytes: &Vec<u8>, pos: usize) -> (r: Option<(Vec<Symbol>, usize)>)
    requires
        pos <= bytes@.len(),
    ensures
        r matches Some((v, p)) ==> pos <= p <= bytes@.len(),
        forall|v: Seq<Symbol>|
            sized_syms(v) && (#[trigger] enc_syms(v)).is_prefix_of(bytes@.skip(pos as int))
                ==> (r matches Some(rr) && rr.0@ == v && rr.1 == pos + enc_syms(v).len()),
{
    let ghost whole = bytes@.skip(pos as int);
    proof {
        assert forall|v: Seq<Symbol>|
            (#[trigger] enc_syms(v)).is_prefix_of(whole) implies enc_u64(
            v.len() as u64,
        ).is_prefix_of(whole) && enc_items_upto(v, v.len() as int, sym_codec()).is_prefix_of(
            bytes@.skip(pos + 8),
        ) by {
            lemma_prefix_split(whole, enc_u64(v.len() as u64), enc_items_upto(v, v.len() as int, sym_codec()));
            lemma_skip_skip(bytes@, pos as int, 8);
        }
    }
    let first = dec_u64(bytes, pos);
    let (n64, p1) = match first {
        Some(x) => x,
        None => {
            return None;
        },
    };
    if n64 > usize::MAX as u64 {
        return None;
    }
    let n = n64 as usize;
    let mut out: Vec<Symbol> = Vec::new();
    let mut cur: usize = p1;
    let mut i: usize = 0;
    proof {
        assert forall|v: Seq<Symbol>|
            sized_syms(v) && (#[trigger] enc_syms(v)).is_prefix_of(whole) implies v.len() == n
            && enc_items_range(v, 0, v.len() as int, sym_codec()).is_prefix_of(
            bytes@.skip(cur as int),
        ) by {
            assert(enc_u64(v.len() as u64).is_prefix_of(whole));
            assert(n64 == v.len() as u64);
            assert(v.len() <= usize::MAX);
            assert(v.len() == n);
            assert(cur == pos + 8);
            lemma_items_split(v, 0, v.len() as int, sym_codec());
            assert(enc_items_upto(v, 0, sym_codec()) == Seq::<u8>::empty());
            assert(enc_items_range(v, 0, v.len() as int, sym_codec()) =~= enc_items_upto(
                v,
                v.len() as int,
                sym_codec(),
            ));
        }
    }
    while i < n
        invariant
            0 <= i <= n,
            pos <= cur <= bytes@.len(),
            out@.len() == i,
            whole == bytes@.skip(pos as int),
            forall|v: Seq<Symbol>|
                sized_syms(v) && (#[trigger] enc_syms(v)).is_prefix_of(whole) ==> (v.len() == n
                    && out@ == v.take(i as int) && cur == pos + 8 + enc_items_upto(
                    v,
                    i as int,
                    sym_codec(),
                ).len() && enc_items_range(v, i as int, v.len() as int, sym_codec()).is_prefix_of(
                    bytes@.skip(cur as int),
                )),
        decreases n - i,
    {
        let ghost cur0 = cur as int;
        let ghost out0 = out@;
        let step = dec_sym(bytes, cur);
        let (sym, p2) = match step {
            Some(x) => x,
            None => {
                proof {
                    assert forall|v: Seq<Symbol>|
                        !(sized_syms(v) && (#[trigger] enc_syms(v)).is_prefix_of(whole)) by {
                        if sized_syms(v) && enc_syms(v).is_prefix_of(whole) {
                            lemma_range_head(v, i as int, v.len() as int, sym_codec());
                            assert(sym_codec()(v[i as int]) == enc_sym(v[i as int]));
                            lemma_prefix_split(
                                bytes@.skip(cur as int),
                                enc_sym(v[i as int]),
                                enc_items_range(v, i as int + 1, v.len() as int, sym_codec()),
                            );
                            assert(enc_sym(v[i as int]).is_prefix_of(bytes@.skip(cur as int)));
                            assert(false);
                        }
                    }
                }
                return None;
            },
        };
        out.push(sym);
        cur = p2;
        i += 1;
        proof {
            assert forall|v: Seq<Symbol>|
                sized_syms(v) && (#[trigger] enc_syms(v)).is_prefix_of(whole) implies (v.len() == n
                && out@ == v.take(i as int) && cur == pos + 8 + enc_items_upto(
                v,
                i as int,
                sym_codec(),
            ).len() && enc_items_range(v, i as int, v.len() as int, sym_codec()).is_prefix_of(
                bytes@.skip(cur as int),
            )) by {
                let ii = i as int;
                lemma_range_head(v, ii - 1, v.len() as int, sym_codec());
                assert(sym_codec()(v[ii - 1]) == enc_sym(v[ii - 1]));
                lemma_prefix_split(
                    bytes@.skip(cur0),
                    enc_sym(v[ii - 1]),
                    enc_items_range(v, ii, v.len() as int, sym_codec()),
                );
                assert(enc_sym(v[ii - 1]).is_prefix_of(bytes@.skip(cur0)));
                assert(sym == v[ii - 1] && p2 == cur0 + enc_sym(v[ii - 1]).len());
                assert(out@ =~= v.take(ii));
                assert(enc_items_upto(v, ii, sym_codec()) == enc_items_upto(v, ii - 1, sym_codec())
                    + enc_sym(v[ii - 1]));
                lemma_skip_skip(bytes@, cur0, enc_sym(v[ii - 1]).len() as int);
            }
        }
    }
    proof {
        assert forall|v: Seq<Symbol>|
            sized_syms(v) && (#[trigger] enc_syms(v)).is_prefix_of(whole) implies out@ == v && cur
            == pos + enc_syms(v).len() by {
            assert(out@ == v.take(v.len() as int));
            assert(v.take(v.len() as int) =~= v);
        }
    }
    Some((out, cur))
}

/// All machine-size limits a weight vector respects.
pub open spec fn sized_weights(s: Seq<u64>) -> bool {
    s.len() <= usize::MAX
}

/// All machine-size limits a model cascade respects.
pub open spec fn sized_models(s: Seq<ModelView>) -> bool {
    &&& s.len() <= usize::MAX
    &&& forall|k: int| 0 <= k < s.len() ==> sized_model(#[trigger] s[k])
}

/// A model cascade: its length, then every model.
pub open spec fn enc_models(s: Seq<ModelView>) -> Seq<u8> {
    enc_list(s, model_codec())
}

/// Reads a weight vector.  Fed any byte string that starts, at `pos`, with the
/// encoding of a machine-sized one, it reproduces it exactly.
fn dec_weights(bytes: &Vec<u8>, pos: usize) -> (r: Option<(Vec<u64>, usize)>)
    requires
        pos <= bytes@.len(),
    ensures
        r matches Some((v, p)) ==> pos <= p <= bytes@.len(),
        forall|v: Seq<u64>|
            sized_weights(v) && (#[trigger] enc_weights(v)).is_prefix_of(bytes@.skip(pos as int))
                ==> (r matches Some(rr) && rr.0@ == v && rr.1 == pos + enc_weights(v).len()),
{
    let ghost whole = bytes@.skip(pos as int);
    proof {
        assert forall|v: Seq<u64>|
            (#[trigger] enc_weights(v)).is_prefix_of(whole) implies enc_u64(
            v.len() as u64,
        ).is_prefix_of(whole) && enc_items_upto(v, v.len() as int, weight_codec()).is_prefix_of(
            bytes@.skip(pos + 8),
        ) by {
            lemma_prefix_split(
                whole,
                enc_u64(v.len() as u64),
                enc_items_upto(v, v.len() as int, weight_codec()),
            );
            lemma_skip_skip(bytes@, pos as int, 8);
        }
    }
    let first = dec_u64(bytes, pos);
    let (n64, p1) = match first {
        Some(x) => x,
        None => {
            return None;
        },
    };
    if n64 > usize::MAX as u64 {
        return None;
    }
    let n = n64 as usize;
    let mut out: Vec<u64> = Vec::new();
    let mut cur: usize = p1;
    let mut i: usize = 0;
    proof {
        assert forall|v: Seq<u64>|
            sized_weights(v) && (#[trigger] enc_weights(v)).is_prefix_of(whole) implies v.len() == n
            && enc_items_range(v, 0, v.len() as int, weight_codec()).is_prefix_of(
            bytes@.skip(cur as int),
        ) by {
            assert(enc_u64(v.len() as u64).is_prefix_of(whole));
            assert(n64 == v.len() as u64);
            assert(v.len() <= usize::MAX);
            assert(v.len() == n);
            assert(cur == pos + 8);
            lemma_items_split(v, 0, v.len() as int, weight_codec());
            assert(enc_items_upto(v, 0, weight_codec()) == Seq::<u8>::empty());
            assert(enc_items_range(v, 0, v.len() as int, weight_codec()) =~= enc_items_upto(
                v,
                v.len() as int,
                weight_codec(),
            ));
        }
    }
    while i < n
        invariant
            0 <= i <= n,
            pos <= cur <= bytes@.len(),
            out@.len() == i,
            whole == bytes@.skip(pos as int),
            forall|v: Seq<u64>|
                sized_weights(v) && (#[trigger] enc_weights(v)).is_prefix_of(whole) ==> (v.len() == n
                    && (out@ == v.take(i as int)) && cur == pos + 8 + enc_items_upto(
                    v,
                    i as int,
                    weight_codec(),
                ).len() && enc_items_range(v, i as int, v.len() as int, weight_codec()).is_prefix_of(
                    bytes@.skip(cur as int),
                )),
        decreases n - i,
    {
        let ghost cur0 = cur as int;
        let ghost out0 = out@;
        let step = dec_u64(bytes, cur);
        let (sym, p2) = match step {
            Some(x) => x,
            None => {
                proof {
                    assert forall|v: Seq<u64>|
                        !(sized_weights(v) && (#[trigger] enc_weights(v)).is_prefix_of(whole)) by {
                        if sized_weights(v) && enc_weights(v).is_prefix_of(whole) {
                            lemma_range_head(v, i as int, v.len() as int, weight_codec());
                            assert(weight_codec()(v[i as int]) == enc_u64(v[i as int]));
                            lemma_prefix_split(
                                bytes@.skip(cur as int),
                                enc_u64(v[i as int]),
                                enc_items_range(v, i as int + 1, v.len() as int, weight_codec()),
                            );
                            assert(enc_u64(v[i as int]).is_prefix_of(bytes@.skip(cur as int)));
                            assert(false);
                        }
                    }
                }
                return None;
            },
        };
        out.push(sym);
        cur = p2;
        i += 1;
        proof {
            assert forall|v: Seq<u64>|
                sized_weights(v) && (#[trigger] enc_weights(v)).is_prefix_of(whole) implies (v.len() == n
                && (out@ == v.take(i as int)) && cur == pos + 8 + enc_items_upto(
                v,
                i as int,
                weight_codec(),
            ).len() && enc_items_range(v, i as int, v.len() as int, weight_codec()).is_prefix_of(
                bytes@.skip(cur as int),
            )) by {
                let ii = i as int;
                lemma_range_head(v, ii - 1, v.len() as int, weight_codec());
                assert(weight_codec()(v[ii - 1]) == enc_u64(v[ii - 1]));
                lemma_prefix_split(
                    bytes@.skip(cur0),
                    enc_u64(v[ii - 1]),
                    enc_items_range(v, ii, v.len() as int, weight_codec()),
                );
                assert(enc_u64(v[ii - 1]).is_prefix_of(bytes@.skip(cur0)));
                assert(sym == v[ii - 1] && p2 == cur0 + enc_u64(v[ii - 1]).len());
                assert(out@ =~= v.take(ii));
                assert(enc_items_upto(v, ii, weight_codec()) == enc_items_upto(v, ii - 1, weight_codec())
                    + enc_u64(v[ii - 1]));
                lemma_skip_skip(bytes@, cur0, enc_u64(v[ii - 1]).len() as int);
            }
        }
    }
    proof {
        assert forall|v: Seq<u64>|
            sized_weights(v) && (#[trigger] enc_weights(v)).is_prefix_of(whole) implies (out@ == v)
            && cur == pos + enc_weights(v).len() by {
            assert(out@ == v.take(v.len() as int));
            assert(v.take(v.len() as int) =~= v);
        }
    }
    Some((out, cur))
}

/// Reads a word list.  Fed any byte string that starts, at `pos`, with the
/// encoding of a machine-sized one, it reproduces it exactly.
fn dec_strings(bytes: &Vec<u8>, pos: usize) -> (r: Option<(Vec<String>, usize)>)
    requires
        pos <= bytes@.len(),
    ensures
        r matches Some((v, p)) ==> pos <= p <= bytes@.len(),
        forall|v: Seq<Seq<char>>|
            sized_strings(v) && (#[trigger] enc_strings(v)).is_prefix_of(bytes@.skip(pos as int))
                ==> (r matches Some(rr) && rr.0@.len() == v.len() && (forall|j: int| 0 <= j < v.len() ==> (#[trigger] rr.0@[j])@ == v[j]) && rr.1 == pos + enc_strings(v).len()),
{
    let ghost whole = bytes@.skip(pos as int);
    proof {
        assert forall|v: Seq<Seq<char>>|
            (#[trigger] enc_strings(v)).is_prefix_of(whole) implies enc_u64(
            v.len() as u64,
        ).is_prefix_of(whole) && enc_items_upto(v, v.len() as int, string_codec()).is_prefix_of(
            bytes@.skip(pos + 8),
        ) by {
            lemma_prefix_split(
                whole,
                enc_u64(v.len() as u64),
                enc_items_upto(v, v.len() as int, string_codec()),
            );
            lemma_skip_skip(bytes@, pos as int, 8);
        }
    }
    let first = dec_u64(bytes, pos);
    let (n64, p1) = match first {
        Some(x) => x,
        None => {
            return None;
        },
    };
    if n64 > usize::MAX as u64 {
        return None;
    }
    let n = n64 as usize;
    let mut out: Vec<String> = Vec::new();
    let mut cur: usize = p1;
    let mut i: usize = 0;
    proof {
        assert forall|v: Seq<Seq<char>>|
            sized_strings(v) && (#[trigger] enc_strings(v)).is_prefix_of(whole) implies v.len() == n
            && enc_items_range(v, 0, v.len() as int, string_codec()).is_prefix_of(
            bytes@.skip(cur as int),
        ) by {
            assert(enc_u64(v.len() as u64).is_prefix_of(whole));
            assert(n64 == v.len() as u64);
            assert(v.len() <= usize::MAX);
            assert(v.len() == n);
            assert(cur == pos + 8);
            lemma_items_split(v, 0, v.len() as int, string_codec());
            assert(enc_items_upto(v, 0, string_codec()) == Seq::<u8>::empty());
            assert(enc_items_range(v, 0, v.len() as int, string_codec()) =~= enc_items_upto(
                v,
                v.len() as int,
                string_codec(),
            ));
        }
    }
    while i < n
        invariant
            0 <= i <= n,
            pos <= cur <= bytes@.len(),
            out@.len() == i,
            whole == bytes@.skip(pos as int),
            forall|v: Seq<Seq<char>>|
                sized_strings(v) && (#[trigger] enc_strings(v)).is_prefix_of(whole) ==> (v.len() == n
                    && (out@.len() == i && (forall|j: int| 0 <= j < i ==> (#[trigger] out@[j])@ == v[j])) && cur == pos + 8 + enc_items_upto(
                    v,
                    i as int,
                    string_codec(),
                ).len() && enc_items_range(v, i as int, v.len() as int, string_codec()).is_prefix_of(
                    bytes@.skip(cur as int),
                )),
        decreases n - i,
    {
        let ghost cur0 = cur as int;
        let ghost out0 = out@;
        let step = dec_string(bytes, cur);
        let (sym, p2) = match step {
            Some(x) => x,
            None => {
                proof {
                    assert forall|v: Seq<Seq<char>>|
                        !(sized_strings(v) && (#[trigger] enc_strings(v)).is_prefix_of(whole)) by {
                        if sized_strings(v) && enc_strings(v).is_prefix_of(whole) {
                            lemma_range_head(v, i as int, v.len() as int, string_codec());
                            assert(string_codec()(v[i as int]) == enc_string(v[i as int]));
                            lemma_prefix_split(
                                bytes@.skip(cur as int),
                                enc_string(v[i as int]),
                                enc_items_range(v, i as int + 1, v.len() as int, string_codec()),
                            );
                            assert(enc_string(v[i as int]).is_prefix_of(bytes@.skip(cur as int)));
                            assert(false);
                        }
                    }
                }
                return None;
            },
        };
        out.push(sym);
        cur = p2;
        i += 1;
        proof {
            assert forall|v: Seq<Seq<char>>|
                sized_strings(v) && (#[trigger] enc_strings(v)).is_prefix_of(whole) implies (v.len() == n
                && (out@.len() == i && (forall|j: int| 0 <= j < i ==> (#[trigger] out@[j])@ == v[j])) && cur == pos + 8 + enc_items_upto(
                v,
                i as int,
                string_codec(),
            ).len() && enc_items_range(v, i as int, v.len() as int, string_codec()).is_prefix_of(
                bytes@.skip(cur as int),
            )) by {
                let ii = i as int;
                lemma_range_head(v, ii - 1, v.len() as int, string_codec());
                assert(string_codec()(v[ii - 1]) == enc_string(v[ii - 1]));
                lemma_prefix_split(
                    bytes@.skip(cur0),
                    enc_string(v[ii - 1]),
                    enc_items_range(v, ii, v.len() as int, string_codec()),
                );
                assert(enc_string(v[ii - 1]).is_prefix_of(bytes@.skip(cur0)));
                assert(sym@ == v[ii - 1] && p2 == cur0 + enc_string(v[ii - 1]).len());
                
                assert(enc_items_upto(v, ii, string_codec()) == enc_items_upto(v, ii - 1, string_codec())
                    + enc_string(v[ii - 1]));
                lemma_skip_skip(bytes@, cur0, enc_string(v[ii - 1]).len() as int);
            }
        }
    }
    proof {
        assert forall|v: Seq<Seq<char>>|
            sized_strings(v) && (#[trigger] enc_strings(v)).is_prefix_of(whole) implies (out@.len() == v.len() && (forall|j: int| 0 <= j < v.len() ==> (#[trigger] out@[j])@ == v[j]))
            && cur == pos + enc_strings(v).len() by {

        }
    }
    Some((out, cur))
}

/// Reads an observation table.  Fed any byte string that starts, at `pos`, with the
/// encoding of a machine-sized one, it reproduces it exactly.
fn dec_obs(bytes: &Vec<u8>, pos: usize) -> (r: Option<(Vec<ObsEntry>, usize)>)
    requires
        pos <= bytes@.len(),
    ensures
        r matches Some((v, p)) ==> pos <= p <= bytes@.len(),
        forall|v: Seq<(Seq<Symbol>, Seq<Symbol>)>|
            sized_obs(v) && (#[trigger] enc_obs(v)).is_prefix_of(bytes@.skip(pos as int))
                ==> (r matches Some(rr) && rr.0@.len() == v.len() && (forall|j: int| 0 <= j < v.len() ==> (#[trigger] rr.0@[j])@ == v[j]) && rr.1 == pos + enc_obs(v).len()),
{
    let ghost whole = bytes@.skip(pos as int);
    proof {
        assert forall|v: Seq<(Seq<Symbol>, Seq<Symbol>)>|
            (#[trigger] enc_obs(v)).is_prefix_of(whole) implies enc_u64(
            v.len() as u64,
        ).is_prefix_of(whole) && enc_items_upto(v, v.len() as int, obs_codec()).is_prefix_of(
            bytes@.skip(pos + 8),
        ) by {
            lemma_prefix_split(
                whole,
                enc_u64(v.len() as u64),
                enc_items_upto(v, v.len() as int, obs_codec()),
            );
            lemma_skip_skip(bytes@, pos as int, 8);
        }
    }
    let first = dec_u64(bytes, pos);
    let (n64, p1) = match first {
        Some(x) => x,
        None => {
            return None;
        },
    };
    if n64 > usize::MAX as u64 {
        return None;
    }
    let n = n64 as usize;
    let mut out: Vec<ObsEntry> = Vec::new();
    let mut cur: usize = p1;
    let mut i: usize = 0;
    proof {
        assert forall|v: Seq<(Seq<Symbol>, Seq<Symbol>)>|
            sized_obs(v) && (#[trigger] enc_obs(v)).is_prefix_of(whole) implies v.len() == n
            && enc_items_range(v, 0, v.len() as int, obs_codec()).is_prefix_of(
            bytes@.skip(cur as int),
        ) by {
            assert(enc_u64(v.len() as u64).is_prefix_of(whole));
            assert(n64 == v.len() as u64);
            assert(v.len() <= usize::MAX);
            assert(v.len() == n);
            assert(cur == pos + 8);
            lemma_items_split(v, 0, v.len() as int, obs_codec());
            assert(enc_items_upto(v, 0, obs_codec()) == Seq::<u8>::empty());
            assert(enc_items_range(v, 0, v.len() as int, obs_codec()) =~= enc_items_upto(
                v,
                v.len() as int,
                obs_codec(),
            ));
        }
    }
    while i < n
        invariant
            0 <= i <= n,
            pos <= cur <= bytes@.len(),
            out@.len() == i,
            whole == bytes@.skip(pos as int),
            forall|v: Seq<(Seq<Symbol>, Seq<Symbol>)>|
                sized_obs(v) && (#[trigger] enc_obs(v)).is_prefix_of(whole) ==> (v.len() == n
                    && (out@.len() == i && (forall|j: int| 0 <= j < i ==> (#[trigger] out@[j])@ == v[j])) && cur == pos + 8 + enc_items_upto(
                    v,
                    i as int,
                    obs_codec(),
                ).len() && enc_items_range(v, i as int, v.len() as int, obs_codec()).is_prefix_of(
                    bytes@.skip(cur as int),
                )),
        decreases n - i,
    {
        let ghost cur0 = cur as int;
        let ghost out0 = out@;
        let step = dec_obs_entry(bytes, cur);
        let (sym, p2) = match step {
            Some(x) => x,
            None => {
                proof {
                    assert forall|v: Seq<(Seq<Symbol>, Seq<Symbol>)>|
                        !(sized_obs(v) && (#[trigger] enc_obs(v)).is_prefix_of(whole)) by {
                        if sized_obs(v) && enc_obs(v).is_prefix_of(whole) {
                            lemma_range_head(v, i as int, v.len() as int, obs_codec());
                            assert(obs_codec()(v[i as int]) == enc_obs_entry(v[i as int]));
                            lemma_prefix_split(
                                bytes@.skip(cur as int),
                                enc_obs_entry(v[i as int]),
                                enc_items_range(v, i as int + 1, v.len() as int, obs_codec()),
                            );
                            assert(enc_obs_entry(v[i as int]).is_prefix_of(bytes@.skip(cur as int)));
                            assert(false);
                        }
                    }
                }
                return None;
            },
        };
        out.push(sym);
        cur = p2;
        i += 1;
        proof {
            assert forall|v: Seq<(Seq<Symbol>, Seq<Symbol>)>|
                sized_obs(v) && (#[trigger] enc_obs(v)).is_prefix_of(whole) implies (v.len() == n
                && (out@.len() == i && (forall|j: int| 0 <= j < i ==> (#[trigger] out@[j])@ == v[j])) && cur == pos + 8 + enc_items_upto(
                v,
                i as int,
                obs_codec(),
            ).len() && enc_items_range(v, i as int, v.len() as int, obs_codec()).is_prefix_of(
                bytes@.skip(cur as int),
            )) by {
                let ii = i as int;
                lemma_range_head(v, ii - 1, v.len() as int, obs_codec());
                assert(obs_codec()(v[ii - 1]) == enc_obs_entry(v[ii - 1]));
                lemma_prefix_split(
                    bytes@.skip(cur0),
                    enc_obs_entry(v[ii - 1]),
                    enc_items_range(v, ii, v.len() as int, obs_codec()),
                );
                assert(enc_obs_entry(v[ii - 1]).is_prefix_of(bytes@.skip(cur0)));
                assert(sym@ == v[ii - 1] && p2 == cur0 + enc_obs_entry(v[ii - 1]).len());
                
                assert(enc_items_upto(v, ii, obs_codec()) == enc_items_upto(v, ii - 1, obs_codec())
                    + enc_obs_entry(v[ii - 1]));
                lemma_skip_skip(bytes@, cur0, enc_obs_entry(v[ii - 1]).len() as int);
            }
        }
    }
    proof {
        assert forall|v: Seq<(Seq<Symbol>, Seq<Symbol>)>|
            sized_obs(v) && (#[trigger] enc_obs(v)).is_prefix_of(whole) implies (out@.len() == v.len() && (forall|j: int| 0 <= j < v.len() ==> (#[trigger] out@[j])@ == v[j]))
            && cur == pos + enc_obs(v).len() by {

        }
    }
    Some((out, cur))
}

/// Reads a chain table.  Fed any byte string that starts, at `pos`, with the
/// encoding of a machine-sized one, it reproduces it exactly.
fn dec_chains(bytes: &Vec<u8>, pos: usize) -> (r: Option<(Vec<ChainEntry>, usize)>)
    requires
        pos <= bytes@.len(),
    ensures
        r matches Some((v, p)) ==> pos <= p <= bytes@.len(),
        forall|v: Seq<(Seq<Symbol>, Seq<u64>)>|
            sized_chains(v) && (#[trigger] enc_chains(v)).is_prefix_of(bytes@.skip(pos as int))
                ==> (r matches Some(rr) && rr.0@.len() == v.len() && (forall|j: int| 0 <= j < v.len() ==> (#[trigger] rr.0@[j])@ == v[j]) && rr.1 == pos + enc_chains(v).len()),
{
    let ghost whole = bytes@.skip(pos as int);
    proof {
        assert forall|v: Seq<(Seq<Symbol>, Seq<u64>)>|
            (#[trigger] enc_chains(v)).is_prefix_of(whole) implies enc_u64(
            v.len() as u64,
        ).is_prefix_of(whole) && enc_items_upto(v, v.len() as int, chain_codec()).is_prefix_of(
            bytes@.skip(pos + 8),
        ) by {
            lemma_prefix_split(
                whole,
                enc_u64(v.len() as u64),
                enc_items_upto(v, v.len() as int, chain_codec()),
            );
            lemma_skip_skip(bytes@, pos as int, 8);
        }
    }
    let first = dec_u64(bytes, pos);
    let (n64, p1) = match first {
        Some(x) => x,
        None => {
            return None;
        },
    };
    if n64 > usize::MAX as u64 {
        return None;
    }
    let n = n64 as usize;
    let mut out: Vec<ChainEntry> = Vec::new();
    let mut cur: usize = p1;
    let mut i: usize = 0;
    proof {
        assert forall|v: Seq<(Seq<Symbol>, Seq<u64>)>|
            sized_chains(v) && (#[trigger] enc_chains(v)).is_prefix_of(whole) implies v.len() == n
            && enc_items_range(v, 0, v.len() as int, chain_codec()).is_prefix_of(
            bytes@.skip(cur as int),
        ) by {
            assert(enc_u64(v.len() as u64).is_prefix_of(whole));
            assert(n64 == v.len() as u64);
            assert(v.len() <= usize::MAX);
            assert(v.len() == n);
            assert(cur == pos + 8);
            lemma_items_split(v, 0, v.len() as int, chain_codec());
            assert(enc_items_upto(v, 0, chain_codec()) == Seq::<u8>::empty());
            assert(enc_items_range(v, 0, v.len() as int, chain_codec()) =~= enc_items_upto(
                v,
                v.len() as int,
                chain_codec(),
            ));
        }
    }
    while i < n
        invariant
            0 <= i <= n,
            pos <= cur <= bytes@.len(),
            out@.len() == i,
            whole == bytes@.skip(pos as int),
            forall|v: Seq<(Seq<Symbol>, Seq<u64>)>|
                sized_chains(v) && (#[trigger] enc_chains(v)).is_prefix_of(whole) ==> (v.len() == n
                    && (out@.len() == i && (forall|j: int| 0 <= j < i ==> (#[trigger] out@[j])@ == v[j])) && cur == pos + 8 + enc_items_upto(
                    v,
                    i as int,
                    chain_codec(),
                ).len() && enc_items_range(v, i as int, v.len() as int, chain_codec()).is_prefix_of(
                    bytes@.skip(cur as int),
                )),
        decreases n - i,
    {
        let ghost cur0 = cur as int;
        let ghost out0 = out@;
        let step = dec_chain_entry(bytes, cur);
        let (sym, p2) = match step {
            Some(x) => x,
            None => {
                proof {
                    assert forall|v: Seq<(Seq<Symbol>, Seq<u64>)>|
                        !(sized_chains(v) && (#[trigger] enc_chains(v)).is_prefix_of(whole)) by {
                        if sized_chains(v) && enc_chains(v).is_prefix_of(whole) {
                            lemma_range_head(v, i as int, v.len() as int, chain_codec());
                            assert(chain_codec()(v[i as int]) == enc_chain_entry(v[i as int]));
                            lemma_prefix_split(
                                bytes@.skip(cur as int),
                                enc_chain_entry(v[i as int]),
                                enc_items_range(v, i as int + 1, v.len() as int, chain_codec()),
                            );
                            assert(enc_chain_entry(v[i as int]).is_prefix_of(bytes@.skip(cur as int)));
                            assert(false);
                        }
                    }
                }
                return None;
            },
        };
        out.push(sym);
        cur = p2;
        i += 1;
        proof {
            assert forall|v: Seq<(Seq<Symbol>, Seq<u64>)>|
                sized_chains(v) && (#[trigger] enc_chains(v)).is_prefix_of(whole) implies (v.len() == n
                && (out@.len() == i && (forall|j: int| 0 <= j < i ==> (#[trigger] out@[j])@ == v[j])) && cur == pos + 8 + enc_items_upto(
                v,
                i as int,
                chain_codec(),
            ).len() && enc_items_range(v, i as int, v.len() as int, chain_codec()).is_prefix_of(
                bytes@.skip(cur as int),
            )) by {
                let ii = i as int;
                lemma_range_head(v, ii - 1, v.len() as int, chain_codec());
                assert(chain_codec()(v[ii - 1]) == enc_chain_entry(v[ii - 1]));
                lemma_prefix_split(
                    bytes@.skip(cur0),
                    enc_chain_entry(v[ii - 1]),
                    enc_items_range(v, ii, v.len() as int, chain_codec()),
                );
                assert(enc_chain_entry(v[ii - 1]).is_prefix_of(bytes@.skip(cur0)));
                assert(sym@ == v[ii - 1] && p2 == cur0 + enc_chain_entry(v[ii - 1]).len());
                
                assert(enc_items_upto(v, ii, chain_codec()) == enc_items_upto(v, ii - 1, chain_codec())
                    + enc_chain_entry(v[ii - 1]));
                lemma_skip_skip(bytes@, cur0, enc_chain_entry(v[ii - 1]).len() as int);
            }
        }
    }
    proof {
        assert forall|v: Seq<(Seq<Symbol>, Seq<u64>)>|
            sized_chains(v) && (#[trigger] enc_chains(v)).is_prefix_of(whole) implies (out@.len() == v.len() && (forall|j: int| 0 <= j < v.len() ==> (#[trigger] out@[j])@ == v[j]))
            && cur == pos + enc_chains(v).len() by {

        }
    }
    Some((out, cur))
}

/// Reads a model cascade.  Fed any byte string that starts, at `pos`, with the
/// encoding of a machine-sized one, it reproduces it exactly.
fn dec_models(bytes: &Vec<u8>, pos: usize) -> (r: Option<(Vec<Model>, usize)>)
    requires
        pos <= bytes@.len(),
    ensures
        r matches Some((v, p)) ==> pos <= p <= bytes@.len(),
        forall|v: Seq<ModelView>|
            sized_models(v) && (#[trigger] enc_models(v)).is_prefix_of(bytes@.skip(pos as int))
                ==> (r matches Some(rr) && rr.0@.len() == v.len() && (forall|j: int| 0 <= j < v.len() ==> (#[trigger] rr.0@[j])@ == v[j]) && rr.1 == pos + enc_models(v).len()),
{
    let ghost whole = bytes@.skip(pos as int);
    proof {
        assert forall|v: Seq<ModelView>|
            (#[trigger] enc_models(v)).is_prefix_of(whole) implies enc_u64(
            v.len() as u64,
        ).is_prefix_of(whole) && enc_items_upto(v, v.len() as int, model_codec()).is_prefix_of(
            bytes@.skip(pos + 8),
        ) by {
            lemma_prefix_split(
                whole,
                enc_u64(v.len() as u64),
                enc_items_upto(v, v.len() as int, model_codec()),
            );
            lemma_skip_skip(bytes@, pos as int, 8);
        }
    }
    let first = dec_u64(bytes, pos);
    let (n64, p1) = match first {
        Some(x) => x,
        None => {
            return None;
        },
    };
    if n64 > usize::MAX as u64 {
        return None;
    }
    let n = n64 as usize;
    let mut out: Vec<Model> = Vec::new();
    let mut cur: usize = p1;
    let mut i: usize = 0;
    proof {
        assert forall|v: Seq<ModelView>|
            sized_models(v) && (#[trigger] enc_models(v)).is_prefix_of(whole) implies v.len() == n
            && enc_items_range(v, 0, v.len() as int, model_codec()).is_prefix_of(
            bytes@.skip(cur as int),
        ) by {
            assert(enc_u64(v.len() as u64).is_prefix_of(whole));
            assert(n64 == v.len() as u64);
            assert(v.len() <= usize::MAX);
            assert(v.len() == n);
            assert(cur == pos + 8);
            lemma_items_split(v, 0, v.len() as int, model_codec());
            assert(enc_items_upto(v, 0, model_codec()) == Seq::<u8>::empty());
            assert(enc_items_range(v, 0, v.len() as int, model_codec()) =~= enc_items_upto(
                v,
                v.len() as int,
                model_codec(),
            ));
        }
    }
    while i < n
        invariant
            0 <= i <= n,
            pos <= cur <= bytes@.len(),
            out@.len() == i,
            whole == bytes@.skip(pos as int),
            forall|v: Seq<ModelView>|
                sized_models(v) && (#[trigger] enc_models(v)).is_prefix_of(whole) ==> (v.len() == n
                    && (out@.len() == i && (forall|j: int| 0 <= j < i ==> (#[trigger] out@[j])@ == v[j])) && cur == pos + 8 + enc_items_upto(
                    v,
                    i as int,
                    model_codec(),
                ).len() && enc_items_range(v, i as int, v.len() as int, model_codec()).is_prefix_of(
                    bytes@.skip(cur as int),
                )),
        decreases n - i,
    {
        let ghost cur0 = cur as int;
        let ghost out0 = out@;
        let step = dec_model(bytes, cur);
        let (sym, p2) = match step {
            Some(x) => x,
            None => {
                proof {
                    assert forall|v: Seq<ModelView>|
                        !(sized_models(v) && (#[trigger] enc_models(v)).is_prefix_of(whole)) by {
                        if sized_models(v) && enc_models(v).is_prefix_of(whole) {
                            lemma_range_head(v, i as int, v.len() as int, model_codec());
                            assert(model_codec()(v[i as int]) == enc_model(v[i as int]));
                            lemma_prefix_split(
                                bytes@.skip(cur as int),
                                enc_model(v[i as int]),
                                enc_items_range(v, i as int + 1, v.len() as int, model_codec()),
                            );
                            assert(enc_model(v[i as int]).is_prefix_of(bytes@.skip(cur as int)));
                            assert(false);
                        }
                    }
                }
                return None;
            },
        };
        out.push(sym);
        cur = p2;
        i += 1;
        proof {
            assert forall|v: Seq<ModelView>|
                sized_models(v) && (#[trigger] enc_models(v)).is_prefix_of(whole) implies (v.len() == n
                && (out@.len() == i && (forall|j: int| 0 <= j < i ==> (#[trigger] out@[j])@ == v[j])) && cur == pos + 8 + enc_items_upto(
                v,
                i as int,
                model_codec(),
            ).len() && enc_items_range(v, i as int, v.len() as int, model_codec()).is_prefix_of(
                bytes@.skip(cur as int),
            )) by {
                let ii = i as int;
                lemma_range_head(v, ii - 1, v.len() as int, model_codec());
                assert(model_codec()(v[ii - 1]) == enc_model(v[ii - 1]));
                lemma_prefix_split(
                    bytes@.skip(cur0),
                    enc_model(v[ii - 1]),
                    enc_items_range(v, ii, v.len() as int, model_codec()),
                );
                assert(enc_model(v[ii - 1]).is_prefix_of(bytes@.skip(cur0)));
                assert(sym@ == v[ii - 1] && p2 == cur0 + enc_model(v[ii - 1]).len());
                
                assert(enc_items_upto(v, ii, model_codec()) == enc_items_upto(v, ii - 1, model_codec())
                    + enc_model(v[ii - 1]));
                lemma_skip_skip(bytes@, cur0, enc_model(v[ii - 1]).len() as int);
            }
        }
    }
    proof {
        assert forall|v: Seq<ModelView>|
            sized_models(v) && (#[trigger] enc_models(v)).is_prefix_of(whole) implies (out@.len() == v.len() && (forall|j: int| 0 <= j < v.len() ==> (#[trigger] out@[j])@ == v[j]))
            && cur == pos + enc_models(v).len() by {

        }
    }
    Some((out, cur))
}

/// Recovers a string from its UTF-8 bytes.
///
/// Relies on `String::from_utf8`: it accepts exactly the valid UTF-8 byte
/// strings and returns the string of the characters they encode.
#[verifier::external_body]
fn string_from_utf8(bytes: Vec<u8>) -> (r: Option<String>)
    ensures
        r matches Some(s) ==> encode_utf8(s@) == bytes@,
        valid_utf8(bytes@) ==> r is Some,
{
    String::from_utf8(bytes).ok()
}

/// Copies the bytes of the half-open range `[from, to)` out of a vector.
fn copy_byte_range(bytes: &Vec<u8>, from: usize, to: usize) -> (r: Vec<u8>)
    requires
        from <= to <= bytes@.len(),
    ensures
        r@ == bytes@.subrange(from as int, to as int),
{
    let mut r: Vec<u8> = Vec::new();
    let mut i: usize = from;
    while i < to
        invariant
            from <= i <= to <= bytes@.len(),
            r@ =~= bytes@.subrange(from as int, i as int),
        decreases to - i,
    {
        r.push(bytes[i]);
        i += 1;
        proof {
            assert(r@ =~= bytes@.subrange(from as int, i as int));
        }
    }
    r
}

/// Reads one character string.  Fed any byte string that starts, at `pos`,
/// with the encoding of a machine-sized string, it reproduces that string.
fn dec_string(bytes: &Vec<u8>, pos: usize) -> (r: Option<(String, usize)>)
    requires
        pos <= bytes@.len(),
    ensures
        r matches Some((v, p)) ==> pos <= p <= bytes@.len(),
        forall|v: Seq<char>|
            encode_utf8(v).len() <= usize::MAX && (#[trigger] enc_string(v)).is_prefix_of(
                bytes@.skip(pos as int),
            ) ==> (r matches Some(rr) && rr.0@ == v && rr.1 == pos + enc_string(v).len()),
{
    let ghost whole = bytes@.skip(pos as int);
    proof {
        assert forall|v: Seq<char>|
            (#[trigger] enc_string(v)).is_prefix_of(whole) implies enc_u64(
            encode_utf8(v).len() as u64,
        ).is_prefix_of(whole) && encode_utf8(v).is_prefix_of(bytes@.skip(pos + 8)) by {
            lemma_prefix_split(whole, enc_u64(encode_utf8(v).len() as u64), encode_utf8(v));
            lemma_skip_skip(bytes@, pos as int, 8);
        }
    }
    let first = dec_u64(bytes, pos);
    let (n64, p1) = match first {
        Some(x) => x,
        None => {
            return None;
        },
    };
    if n64 > (bytes.len() - p1) as u64 {
        proof {
            assert forall|v: Seq<char>|
                !(encode_utf8(v).len() <= usize::MAX && (#[trigger] enc_string(v)).is_prefix_of(
                    whole,
                )) by {
                if encode_utf8(v).len() <= usize::MAX && enc_string(v).is_prefix_of(whole) {
                    assert(n64 == encode_utf8(v).len() as u64);
                    assert(encode_utf8(v).is_prefix_of(bytes@.skip(pos + 8)));
                    assert(encode_utf8(v).len() <= bytes@.len() - (pos + 8));
                    assert(false);
                }
            }
        }
        return None;
    }
    let n = n64 as usize;
    let slice = copy_byte_range(bytes, p1, p1 + n);
    let parsed = string_from_utf8(slice);
    match parsed {
        Some(st) => {
            proof {
                assert forall|v: Seq<char>|
                    encode_utf8(v).len() <= usize::MAX && (#[trigger] enc_string(v)).is_prefix_of(
                        whole,
                    ) implies st@ == v && p1 + n == pos + enc_string(v).len() by {
                    assert(n64 == encode_utf8(v).len() as u64);
                    assert(encode_utf8(v).is_prefix_of(bytes@.skip(pos + 8)));
                    assert(bytes@.subrange(p1 as int, p1 + n) =~= encode_utf8(v));
                    assert(encode_utf8(st@) == encode_utf8(v));
                    assert(decode_utf8(encode_utf8(st@)) == st@);
                    assert(decode_utf8(encode_utf8(v)) == v);
                }
            }
            Some((st, p1 + n))
        },
        None => {
            proof {
                assert forall|v: Seq<char>|
                    !(encode_utf8(v).len() <= usize::MAX && (#[trigger] enc_string(
                        v,
                    )).is_prefix_of(whole)) by {
                    if encode_utf8(v).len() <= usize::MAX && enc_string(v).is_prefix_of(whole) {
                        assert(n64 == encode_utf8(v).len() as u64);
                        assert(encode_utf8(v).is_prefix_of(bytes@.skip(pos + 8)));
                        assert(bytes@.subrange(p1 as int, p1 + n) =~= encode_utf8(v));
                        assert(valid_utf8(encode_utf8(v)));
                        assert(false);
                    }
                }
            }
            None
        },
    }
}

/// Reads one observation row.
fn dec_obs_entry(bytes: &Vec<u8>, pos: usize) -> (r: Option<(ObsEntry, usize)>)
    requires
        pos <= bytes@.len(),
    ensures
        r matches Some((v, p)) ==> pos <= p <= bytes@.len(),
        forall|v: (Seq<Symbol>, Seq<Symbol>)|
            sized_syms(v.0) && sized_syms(v.1) && (#[trigger] enc_obs_entry(v)).is_prefix_of(
                bytes@.skip(pos as int),
            ) ==> (r matches Some(rr) && rr.0@ == v && rr.1 == pos + enc_obs_entry(v).len()),
{
    let ghost whole = bytes@.skip(pos as int);
    proof {
        assert forall|v: (Seq<Symbol>, Seq<Symbol>)|
            (#[trigger] enc_obs_entry(v)).is_prefix_of(whole) implies enc_syms(
            v.0,
        ).is_prefix_of(whole) by {
            lemma_prefix_split(whole, enc_syms(v.0), enc_syms(v.1));
        }
    }
    let step1 = dec_syms(bytes, pos);
    let (context, p1) = match step1 {
        Some(x) => x,
        None => {
            return None;
        },
    };
    proof {
        assert forall|v: (Seq<Symbol>, Seq<Symbol>)|
            sized_syms(v.0) && sized_syms(v.1) && (#[trigger] enc_obs_entry(v)).is_prefix_of(
                whole,
            ) implies context@ == v.0 && p1 == pos + enc_syms(v.0).len() && enc_syms(
            v.1,
        ).is_prefix_of(bytes@.skip(p1 as int)) by {
            lemma_prefix_split(whole, enc_syms(v.0), enc_syms(v.1));
            lemma_skip_skip(bytes@, pos as int, enc_syms(v.0).len() as int);
        }
    }
    let step2 = dec_syms(bytes, p1);
    let (followers, p2) = match step2 {
        Some(x) => x,
        None => {
            return None;
        },
    };
    proof {
        assert forall|v: (Seq<Symbol>, Seq<Symbol>)|
            sized_syms(v.0) && sized_syms(v.1) && (#[trigger] enc_obs_entry(v)).is_prefix_of(
                whole,
            ) implies followers@ == v.1 && p2 == pos + enc_obs_entry(v).len() by {
        }
    }
    Some((ObsEntry { context, followers }, p2))
}

/// Reads one chain row.
fn dec_chain_entry(bytes: &Vec<u8>, pos: usize) -> (r: Option<(ChainEntry, usize)>)
    requires
        pos <= bytes@.len(),
    ensures
        r matches Some((v, p)) ==> pos <= p <= bytes@.len(),
        forall|v: (Seq<Symbol>, Seq<u64>)|
            sized_syms(v.0) && sized_weights(v.1) && (#[trigger] enc_chain_entry(v)).is_prefix_of(
                bytes@.skip(pos as int),
            ) ==> (r matches Some(rr) && rr.0@ == v && rr.1 == pos + enc_chain_entry(v).len()),
{
    let ghost whole = bytes@.skip(pos as int);
    proof {
        assert forall|v: (Seq<Symbol>, Seq<u64>)|
            (#[trigger] enc_chain_entry(v)).is_prefix_of(whole) implies enc_syms(
            v.0,
        ).is_prefix_of(whole) by {
            lemma_prefix_split(whole, enc_syms(v.0), enc_weights(v.1));
        }
    }
    let step1 = dec_syms(bytes, pos);
    let (context, p1) = match step1 {
        Some(x) => x,
        None => {
            return None;
        },
    };
    proof {
        assert forall|v: (Seq<Symbol>, Seq<u64>)|
            sized_syms(v.0) && sized_weights(v.1) && (#[trigger] enc_chain_entry(v)).is_prefix_of(
                whole,
            ) implies context@ == v.0 && p1 == pos + enc_syms(v.0).len() && enc_weights(
            v.1,
        ).is_prefix_of(bytes@.skip(p1 as int)) by {
            lemma_prefix_split(whole, enc_syms(v.0), enc_weights(v.1));
            lemma_skip_skip(bytes@, pos as int, enc_syms(v.0).len() as int);
        }
    }
    let step2 = dec_weights(bytes, p1);
    let (weights, p2) = match step2 {
        Some(x) => x,
        None => {
            return None;
        },
    };
    proof {
        assert forall|v: (Seq<Symbol>, Seq<u64>)|
            sized_syms(v.0) && sized_weights(v.1) && (#[trigger] enc_chain_entry(v)).is_prefix_of(
                whole,
            ) implies weights@ == v.1 && p2 == pos + enc_chain_entry(v).len() by {
        }
    }
    Some((ChainEntry { context, weights }, p2))
}

/// Reads one model.  Fed any byte string that starts, at `pos`, with the
/// encoding of a machine-sized model, it reproduces that model's content.
fn dec_model(bytes: &Vec<u8>, pos: usize) -> (r: Option<(Model, usize)>)
    requires
        pos <= bytes@.len(),
    ensures
        r matches Some((v, p)) ==> pos <= p <= bytes@.len(),
        forall|m: ModelView|
            sized_model(m) && (#[trigger] enc_model(m)).is_prefix_of(bytes@.skip(pos as int))
                ==> (r matches Some(rr) && rr.0@ == m && rr.1 == pos + enc_model(m).len()),
{
    let ghost whole = bytes@.skip(pos as int);
    proof {
        assert forall|m: ModelView|
            (#[trigger] enc_model(m)).is_prefix_of(whole) implies enc_u64(
            m.order as u64,
        ).is_prefix_of(whole) && (enc_u64(m.prior) + (enc_string(m.alphabet) + (enc_strings(m.data)
            + (enc_obs(m.observations) + enc_chains(m.chains))))).is_prefix_of(
            bytes@.skip(pos + 8),
        ) by {
            assert(enc_model(m) =~= enc_u64(m.order as u64) + (enc_u64(m.prior) + (enc_string(
                m.alphabet,
            ) + (enc_strings(m.data) + (enc_obs(m.observations) + enc_chains(m.chains))))));
            lemma_prefix_split(
                whole,
                enc_u64(m.order as u64),
                enc_u64(m.prior) + (enc_string(m.alphabet) + (enc_strings(m.data) + (enc_obs(
                    m.observations,
                ) + enc_chains(m.chains)))),
            );
            lemma_skip_skip(bytes@, pos as int, 8);
        }
    }
    let step_order = dec_u64(bytes, pos);
    let (order64, p1) = match step_order {
        Some(x) => x,
        None => {
            return None;
        },
    };
    if order64 > usize::MAX as u64 {
        return None;
    }
    let order = order64 as usize;
    proof {
        assert forall|m: ModelView|
            sized_model(m) && (#[trigger] enc_model(m)).is_prefix_of(whole) implies order64
            == m.order as u64 && order as nat == m.order && enc_u64(m.prior).is_prefix_of(
            bytes@.skip(p1 as int),
        ) && (enc_string(m.alphabet) + (enc_strings(m.data) + (enc_obs(m.observations)
            + enc_chains(m.chains)))).is_prefix_of(bytes@.skip(p1 + 8)) by {
            lemma_prefix_split(
                bytes@.skip(p1 as int),
                enc_u64(m.prior),
                enc_string(m.alphabet) + (enc_strings(m.data) + (enc_obs(m.observations)
                    + enc_chains(m.chains))),
            );
            lemma_skip_skip(bytes@, p1 as int, 8);
        }
    }
    let step_prior = dec_u64(bytes, p1);
    let (prior, p2) = match step_prior {
        Some(x) => x,
        None => {
            return None;
        },
    };
    proof {
        assert forall|m: ModelView|
            sized_model(m) && (#[trigger] enc_model(m)).is_prefix_of(whole) implies prior
            == m.prior && enc_string(m.alphabet).is_prefix_of(bytes@.skip(p2 as int)) && (
        enc_strings(m.data) + (enc_obs(m.observations) + enc_chains(m.chains))).is_prefix_of(
            bytes@.skip(p2 + enc_string(m.alphabet).len()),
        ) by {
            lemma_prefix_split(
                bytes@.skip(p2 as int),
                enc_string(m.alphabet),
                enc_strings(m.data) + (enc_obs(m.observations) + enc_chains(m.chains)),
            );
            lemma_skip_skip(bytes@, p2 as int, enc_string(m.alphabet).len() as int);
        }
    }
    let step_alpha = dec_string(bytes, p2);
    let (alpha_str, p3) = match step_alpha {
        Some(x) => x,
        None => {
            return None;
        },
    };
    let alphabet = chars_of_str(alpha_str.as_str());
    proof {
        assert forall|m: ModelView|
            sized_model(m) && (#[trigger] enc_model(m)).is_prefix_of(whole) implies alphabet@
            == m.alphabet && enc_strings(m.data).is_prefix_of(bytes@.skip(p3 as int)) && (enc_obs(
            m.observations,
        ) + enc_chains(m.chains)).is_prefix_of(bytes@.skip(p3 + enc_strings(m.data).len())) by {
            lemma_prefix_split(
                bytes@.skip(p3 as int),
                enc_strings(m.data),
                enc_obs(m.observations) + enc_chains(m.chains),
            );
            lemma_skip_skip(bytes@, p3 as int, enc_strings(m.data).len() as int);
        }
    }
    let step_data = dec_strings(bytes, p3);
    let (data, p4) = match step_data {
        Some(x) => x,
        None => {
            return None;
        },
    };
    proof {
        assert forall|m: ModelView|
            sized_model(m) && (#[trigger] enc_model(m)).is_prefix_of(whole) implies (data@.len()
            == m.data.len() && (forall|j: int|
            0 <= j < m.data.len() ==> (#[trigger] data@[j])@ == m.data[j])) && enc_obs(
            m.observations,
        ).is_prefix_of(bytes@.skip(p4 as int)) && enc_chains(m.chains).is_prefix_of(
            bytes@.skip(p4 + enc_obs(m.observations).len()),
        ) by {
            lemma_prefix_split(
                bytes@.skip(p4 as int),
                enc_obs(m.observations),
                enc_chains(m.chains),
            );
            lemma_skip_skip(bytes@, p4 as int, enc_obs(m.observations).len() as int);
        }
    }
    let step_obs = dec_obs(bytes, p4);
    let (observations, p5) = match step_obs {
        Some(x) => x,
        None => {
            return None;
        },
    };
    let step_chains = dec_chains(bytes, p5);
    let (chains, p6) = match step_chains {
        Some(x) => x,
        None => {
            return None;
        },
    };
    let model = Model { data, order, prior, alphabet, observations, chains };
    proof {
        assert forall|m: ModelView|
            sized_model(m) && (#[trigger] enc_model(m)).is_prefix_of(whole) implies model@ == m
            && p6 == pos + enc_model(m).len() by {
            assert(model@.data =~= m.data);
            assert(model@.observations =~= m.observations);
            assert(model@.chains =~= m.chains);
            assert(model@ =~= m);
        }
    }
    Some((model, p6))
}

/// Appends one observation row.
fn push_obs_entry(buf: &mut Vec<u8>, e: &ObsEntry)
    ensures
        final(buf)@ == old(buf)@ + enc_obs_entry(e@),
{
    push_syms(buf, &e.context);
    push_syms(buf, &e.followers);
    proof {
        assert(buf@ =~= old(buf)@ + enc_obs_entry(e@));
    }
}

/// Appends one chain row.
fn push_chain_entry(buf: &mut Vec<u8>, e: &ChainEntry)
    ensures
        final(buf)@ == old(buf)@ + enc_chain_entry(e@),
{
    push_syms(buf, &e.context);
    push_weights(buf, &e.weights);
    proof {
        assert(buf@ =~= old(buf)@ + enc_chain_entry(e@));
    }
}

/// Appends a word list.
fn push_strings(buf: &mut Vec<u8>, s: &Vec<String>)
    ensures
        final(buf)@ == old(buf)@ + enc_strings(Seq::new(s@.len(), |i: int| s@[i]@)),
        sized_strings(Seq::new(s@.len(), |i: int| s@[i]@)),
{
    let ghost items = Seq::new(s@.len(), |i: int| s@[i]@);
    push_u64(buf, s.len() as u64);
    let ghost start = buf@;
    let mut i: usize = 0;
    while i < s.len()
        invariant
            0 <= i <= s@.len(),
            items == Seq::new(s@.len(), |j: int| s@[j]@),
            buf@ == start + enc_items_upto(items, i as int, string_codec()),
            forall|j: int| 0 <= j < i ==> encode_utf8(#[trigger] items[j]).len() <= usize::MAX,
        decreases s@.len() - i,
    {
        push_string(buf, s[i].as_str());
        i += 1;
        proof {
            assert(string_codec()(items[i - 1]) == enc_string(items[i - 1]));
            assert(buf@ =~= start + enc_items_upto(items, i as int, string_codec()));
        }
    }
    proof {
        assert(buf@ =~= old(buf)@ + enc_strings(items));
    }
}

/// Appends an observation table.
fn push_obs(buf: &mut Vec<u8>, s: &Vec<ObsEntry>)
    ensures
        final(buf)@ == old(buf)@ + enc_obs(Seq::new(s@.len(), |i: int| s@[i]@)),
        sized_obs(Seq::new(s@.len(), |i: int| s@[i]@)),
{
    let ghost items = Seq::new(s@.len(), |i: int| s@[i]@);
    push_u64(buf, s.len() as u64);
    let ghost start = buf@;
    let mut i: usize = 0;
    while i < s.len()
        invariant
            0 <= i <= s@.len(),
            items == Seq::new(s@.len(), |j: int| s@[j]@),
            buf@ == start + enc_items_upto(items, i as int, obs_codec()),
        decreases s@.len() - i,
    {
        push_obs_entry(buf, &s[i]);
        i += 1;
        proof {
            assert(obs_codec()(items[i - 1]) == enc_obs_entry(items[i - 1]));
            assert(buf@ =~= start + enc_items_upto(items, i as int, obs_codec()));
        }
    }
    proof {
        assert(buf@ =~= old(buf)@ + enc_obs(items));
        assert forall|j: int|
            0 <= j < items.len() implies sized_syms((#[trigger] items[j]).0) && sized_syms(
            items[j].1,
        ) by {
            assert(items[j] == s@[j]@);
            assert(vstd::std_specs::vec::spec_vec_len(&s@[j].context) == s@[j].context@.len());
            assert(vstd::std_specs::vec::spec_vec_len(&s@[j].followers) == s@[j].followers@.len());
        }
    }
}

/// Appends a chain table.
fn push_chains(buf: &mut Vec<u8>, s: &Vec<ChainEntry>)
    ensures
        final(buf)@ == old(buf)@ + enc_chains(Seq::new(s@.len(), |i: int| s@[i]@)),
        sized_chains(Seq::new(s@.len(), |i: int| s@[i]@)),
{
    let ghost items = Seq::new(s@.len(), |i: int| s@[i]@);
    push_u64(buf, s.len() as u64);
    let ghost start = buf@;
    let mut i: usize = 0;
    while i < s.len()
        invariant
            0 <= i <= s@.len(),
            items == Seq::new(s@.len(), |j: int| s@[j]@),
            buf@ == start + enc_items_upto(items, i as int, chain_codec()),
        decreases s@.len() - i,
    {
        push_chain_entry(buf, &s[i]);
        i += 1;
        proof {
            assert(chain_codec()(items[i - 1]) == enc_chain_entry(items[i - 1]));
            assert(buf@ =~= start + enc_items_upto(items, i as int, chain_codec()));
        }
    }
    proof {
        assert(buf@ =~= old(buf)@ + enc_chains(items));
        assert forall|j: int|
            0 <= j < items.len() implies sized_syms((#[trigger] items[j]).0) && items[j].1.len()
            <= usize::MAX by {
            assert(items[j] == s@[j]@);
            assert(vstd::std_specs::vec::spec_vec_len(&s@[j].context) == s@[j].context@.len());
            assert(vstd::std_specs::vec::spec_vec_len(&s@[j].weights) == s@[j].weights@.len());
        }
    }
}

/// Appends one model.
pub(crate) fn push_model(buf: &mut Vec<u8>, m: &Model)
    ensures
        final(buf)@ == old(buf)@ + enc_model(m@),
        sized_model(m@),
{
    push_u64(buf, m.order as u64);
    push_u64(buf, m.prior);
    let alpha = crate::text::string_from_chars(&m.alphabet);
    push_string(buf, alpha.as_str());
    push_strings(buf, &m.data);
    push_obs(buf, &m.observations);
    push_chains(buf, &m.chains);
    proof {
        assert(m@.data =~= Seq::new(m.data@.len(), |i: int| m.data@[i]@));
        assert(m@.observations =~= Seq::new(m.observations@.len(), |i: int| m.observations@[i]@));
        assert(m@.chains =~= Seq::new(m.chains@.len(), |i: int| m.chains@[i]@));
        assert(buf@ =~= old(buf)@ + enc_model(m@));
    }
}

/// Lays a generator out in its canonical byte format.
pub fn serialize_generator(g: &Generator) -> (r: Vec<u8>)
    ensures
        r@ == enc_generator(g@),
        sized_generator(g@),
{
    let ghost items = Seq::new(g.models@.len(), |i: int| g.models@[i]@);
    let mut buf: Vec<u8> = Vec::new();
    push_u64(&mut buf, g.order as u64);
    push_u64(&mut buf, g.models.len() as u64);
    let ghost start = buf@;
    let mut i: usize = 0;
    while i < g.models.len()
        invariant
            0 <= i <= g.models@.len(),
            items == Seq::new(g.models@.len(), |j: int| g.models@[j]@),
            buf@ == start + enc_items_upto(items, i as int, model_codec()),
            forall|j: int| 0 <= j < i ==> sized_model(#[trigger] items[j]),
        decreases g.models@.len() - i,
    {
        push_model(&mut buf, &g.models[i]);
        i += 1;
        proof {
            assert(model_codec()(items[i - 1]) == enc_model(items[i - 1]));
            assert(buf@ =~= start + enc_items_upto(items, i as int, model_codec()));
        }
    }
    proof {
        assert(g@.models =~= items);
        assert(buf@ =~= enc_generator(g@));
    }
    buf
}

/// Pairwise order of a character vector follows from adjacent order.
proof fn lemma_sorted_from_adjacent(a: Seq<char>, i: int, j: int)
    requires
        forall|k: int| 0 <= k < a.len() - 1 ==> ((#[trigger] a[k]) as u32) < (a[k + 1] as u32),
        0 <= i < j < a.len(),
    ensures
        (a[i] as u32) < (a[j] as u32),
    decreases j - i,
{
    if i + 1 < j {
        lemma_sorted_from_adjacent(a, i + 1, j);
    }
}

/// Checks a model against its structural well-formedness, exactly.
fn model_wf_check(m: &Model) -> (r: bool)
    ensures
        r == m.wf(),
{
    if m.order < 1 {
        return false;
    }
    let mut i: usize = 0;
    while i + 1 < m.alphabet.len()
        invariant
            0 <= i <= m.alphabet@.len(),
            i + 1 <= usize::MAX,
            forall|k: int| 0 <= k < i ==> ((#[trigger] m.alphabet@[k]) as u32) < (m.alphabet@[k
                + 1] as u32),
        decreases m.alphabet@.len() - i,
    {
        if m.alphabet[i] as u32 >= m.alphabet[i + 1] as u32 {
            return false;
        }
        i += 1;
    }
    proof {
        assert forall|a: int, b: int|
            0 <= a < b < m.alphabet@.len() implies ((#[trigger] m.alphabet@[a]) as u32)
            < ((#[trigger] m.alphabet@[b]) as u32) by {
            lemma_sorted_from_adjacent(m.alphabet@, a, b);
        }
    }
    let mut i: usize = 0;
    while i < m.observations.len()
        invariant
            0 <= i <= m.observations@.len(),
            forall|k: int| 0 <= k < i ==> (#[trigger] m.observations@[k]).context@.len()
                == m.order,
        decreases m.observations@.len() - i,
    {
        if m.observations[i].context.len() != m.order {
            return false;
        }
        i += 1;
    }
    let mut i: usize = 0;
    while i < m.observations.len()
        invariant
            0 <= i <= m.observations@.len(),
            forall|a: int, b: int|
                0 <= a < b < m.observations@.len() && a < i ==> (#[trigger] m.observations@[a]).context@
                    != (#[trigger] m.observations@[b]).context@,
        decreases m.observations@.len() - i,
    {
        let mut j: usize = i + 1;
        while j < m.observations.len()
            invariant
                0 <= i < j <= m.observations@.len() || (i + 1 == j && j > m.observations@.len()),
                i < m.observations@.len(),
                forall|b: int| i < b < j ==> (#[trigger] m.observations@[b]).context@
                    != m.observations@[i as int].context@,
            decreases m.observations@.len() - j,
        {
            if crate::symbol::symbols_eq(&m.observations[i].context, &m.observations[j].context) {
                proof {
                    assert(m.observations@[i as int].context@ == m.observations@[j as int].context@);
                    assert(!obs_unique(m.observations@));
                }
                return false;
            }
            j += 1;
        }
        i += 1;
    }
    if m.chains.len() != m.observations.len() {
        return false;
    }
    let mut i: usize = 0;
    while i < m.chains.len()
        invariant
            0 <= i <= m.chains@.len(),
            m.chains@.len() == m.observations@.len(),
            forall|k: int| 0 <= k < i ==> (#[trigger] m.chains@[k]).context@
                == m.observations@[k].context@,
            forall|k: int| 0 <= k < i ==> (#[trigger] m.chains@[k]).weights@.len()
                == m.alphabet@.len(),
            forall|k: int, w: int|
                0 <= k < i && 0 <= w < m.alphabet@.len() ==> (#[trigger] m.chains@[k].weights@[w])
                    >= m.prior,
        decreases m.chains@.len() - i,
    {
        if !crate::symbol::symbols_eq(&m.chains[i].context, &m.observations[i].context) {
            return false;
        }
        if m.chains[i].weights.len() != m.alphabet.len() {
            return false;
        }
        let mut w: usize = 0;
        while w < m.chains[i].weights.len()
            invariant
                0 <= i < m.chains@.len(),
                0 <= w <= m.chains@[i as int].weights@.len(),
                forall|ww: int| 0 <= ww < w ==> (#[trigger] m.chains@[i as int].weights@[ww])
                    >= m.prior,
            decreases m.chains@[i as int].weights@.len() - w,
        {
            if m.chains[i].weights[w] < m.prior {
                return false;
            }
            w += 1;
        }
        i += 1;
    }
    if m.observations.len() > 0 && m.alphabet.len() == 0 {
        return false;
    }
    proof {
        assert(m.wf());
    }
    true
}

/// Two models with the same content are equally well-formed: every clause
/// of `wf` speaks only of the view.
proof fn lemma_wf_of_view(a: Model, b: Model)
    requires
        a@ == b@,
    ensures
        a.wf() == b.wf(),
{
    assert(a.order == b.order) by {
        assert(a@.order == b@.order);
    }
    assert(a.prior == b.prior) by {
        assert(a@.prior == b@.prior);
    }
    assert(a.alphabet@ == b.alphabet@) by {
        assert(a@.alphabet == b@.alphabet);
    }
    assert(a.observations@.len() == b.observations@.len()) by {
        assert(a@.observations == Seq::new(a.observations@.len(), |i: int| a.observations@[i]@));
        assert(b@.observations == Seq::new(b.observations@.len(), |i: int| b.observations@[i]@));
        assert(a@.observations.len() == a.observations@.len());
        assert(b@.observations.len() == b.observations@.len());
    }
    assert forall|i: int|
        #![trigger a.observations@[i]]
        #![trigger b.observations@[i]]
        0 <= i < a.observations@.len() implies a.observations@[i]@ == b.observations@[i]@ by {
        assert(a@.observations[i] == b@.observations[i]);
    }
    assert(a.chains@.len() == b.chains@.len()) by {
        assert(a@.chains == Seq::new(a.chains@.len(), |i: int| a.chains@[i]@));
        assert(b@.chains == Seq::new(b.chains@.len(), |i: int| b.chains@[i]@));
        assert(a@.chains.len() == a.chains@.len());
        assert(b@.chains.len() == b.chains@.len());
    }
    assert forall|i: int|
        #![trigger a.chains@[i]]
        #![trigger b.chains@[i]]
        0 <= i < a.chains@.len() implies a.chains@[i]@ == b.chains@[i]@ by {
        assert(a@.chains[i] == b@.chains[i]);
    }
    assert(a.wf() ==> b.wf());
    assert(b.wf() ==> a.wf());
}

/// Checks a generator against its structural well-formedness, exactly.
fn generator_wf_check(g: &Generator) -> (r: bool)
    ensures
        r == g.wf(),
{
    if g.order < 1 {
        return false;
    }
    if g.models.len() < 1 || g.models.len() > g.order {
        return false;
    }
    let mut k: usize = 0;
    while k < g.models.len()
        invariant
            0 <= k <= g.models@.len(),
            g.models@.len() <= g.order,
            forall|i: int| 0 <= i < k ==> (#[trigger] g.models@[i]).wf(),
            forall|i: int| 0 <= i < k ==> (#[trigger] g.models@[i]).order == g.order - i,
        decreases g.models@.len() - k,
    {
        if !model_wf_check(&g.models[k]) {
            return false;
        }
        if g.models[k].order() != g.order - k {
            return false;
        }
        k += 1;
    }
    proof {
        assert(g.wf());
    }
    true
}

/// Two generators with the same content are equally well-formed.
proof fn lemma_generator_wf_of_view(a: Generator, b: Generator)
    requires
        a@ == b@,
    ensures
        a.wf() == b.wf(),
{
    assert(a.order == b.order) by {
        assert(a@.order == b@.order);
    }
    assert(a.models@.len() == b.models@.len()) by {
        assert(a@.models == Seq::new(a.models@.len(), |i: int| a.models@[i]@));
        assert(b@.models == Seq::new(b.models@.len(), |i: int| b.models@[i]@));
        assert(a@.models.len() == a.models@.len());
        assert(b@.models.len() == b.models@.len());
    }
    assert forall|k: int|
        #![trigger a.models@[k]]
        #![trigger b.models@[k]]
        0 <= k < a.models@.len() implies a.models@[k].wf() == b.models@[k].wf()
        && a.models@[k].order == b.models@[k].order by {
        assert(a@.models[k] == b@.models[k]);
        lemma_wf_of_view(a.models@[k], b.models@[k]);
        assert(a.models@[k]@.order == b.models@[k]@.order);
    }
    assert(a.wf() ==> b.wf());
    assert(b.wf() ==> a.wf());
}

/// Reads a generator back from its canonical byte format and re-checks its
/// well-formedness.  Fed the encoding of any well-formed, machine-sized
/// generator it returns a generator with exactly that content; anything it
/// cannot make sense of is rejected.
pub fn deserialize_generator(bytes: &Vec<u8>) -> (r: Option<Generator>)
    ensures
        r matches Some(g) ==> g.wf(),
        forall|g: Generator|
            g.wf() && sized_generator(g@) && bytes@ == #[trigger] enc_generator(g@) ==> (r
                matches Some(g2) && g2@ == g@),
{
    let ghost whole = bytes@.skip(0);
    proof {
        assert(whole =~= bytes@);
        assert forall|g: Generator|
            bytes@ == #[trigger] enc_generator(g@) implies enc_u64(g@.order as u64).is_prefix_of(
            whole,
        ) && enc_models(g@.models).is_prefix_of(bytes@.skip(8)) by {
            assert(enc_generator(g@) =~= enc_u64(g@.order as u64) + enc_models(g@.models));
            lemma_prefix_split(whole, enc_u64(g@.order as u64), enc_models(g@.models));
            lemma_skip_skip(bytes@, 0, 8);
            assert(enc_generator(g@).is_prefix_of(whole));
        }
    }
    let step_order = dec_u64(bytes, 0);
    let (order64, p1) = match step_order {
        Some(x) => x,
        None => {
            return None;
        },
    };
    if order64 > usize::MAX as u64 {
        return None;
    }
    let order = order64 as usize;
    let step_models = dec_models(bytes, p1);
    let (models, p2) = match step_models {
        Some(x) => x,
        None => {
            proof {
                assert forall|g: Generator|
                    !(g.wf() && sized_generator(g@) && bytes@ == #[trigger] enc_generator(
                        g@,
                    )) by {
                    if g.wf() && sized_generator(g@) && bytes@ == enc_generator(g@) {
                        assert(sized_models(g@.models));
                        assert(false);
                    }
                }
            }
            return None;
        },
    };
    if p2 != bytes.len() {
        proof {
            assert forall|g: Generator|
                !(g.wf() && sized_generator(g@) && bytes@ == #[trigger] enc_generator(g@)) by {
                if g.wf() && sized_generator(g@) && bytes@ == enc_generator(g@) {
                    assert(sized_models(g@.models));
                    assert(p2 == 8 + enc_models(g@.models).len());
                    assert(bytes@.len() == enc_generator(g@).len());
                    assert(false);
                }
            }
        }
        return None;
    }
    let candidate = Generator { order, models };
    if !generator_wf_check(&candidate) {
        proof {
            assert forall|g: Generator|
                !(g.wf() && sized_generator(g@) && bytes@ == #[trigger] enc_generator(g@)) by {
                if g.wf() && sized_generator(g@) && bytes@ == enc_generator(g@) {
                    assert(sized_models(g@.models));
                    assert(candidate@.models =~= g@.models);
                    assert(candidate@ =~= g@);
                    lemma_generator_wf_of_view(candidate, g);
                    assert(false);
                }
            }
        }
        return None;
    }
    proof {
        assert forall|g: Generator|
            g.wf() && sized_generator(g@) && bytes@ == #[trigger] enc_generator(g@) implies
            candidate@ == g@ by {
            assert(sized_models(g@.models));
            assert(candidate@.models =~= g@.models);
            assert(candidate@ =~= g@);
        }
    }
    Some(candidate)
}

/// The round-trip law: deserializing a serialized generator returns a
/// generator with exactly the same content.
pub fn deserialize_serialized(g: &Generator) -> (r: Generator)
    requires
        g.wf(),
    ensures
        r@ == g@,
        r.wf(),
{
    let bytes = serialize_generator(g);
    let decoded = deserialize_generator(&bytes);
    match decoded {
        Some(out) => out,
        None => {
            proof {
                assert(false);
            }
            Generator { order: 1, models: Vec::new() }
        },
    }
}

} // verus!
