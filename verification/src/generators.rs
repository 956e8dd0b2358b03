//! The flat value generators: random bytes and their encodings, digit
//! strings, bounded numbers, passwords, passphrases and pronounceable
//! usernames, and the Markov word generator's retry loop.

use vstd::prelude::*;

use crate::encoding::{b64_bytes, hex_bytes, to_base64, to_hex};
use crate::generator::{Generator, WORD_LENGTH_LIMIT, in_some_alphabet};
use crate::random::{draw_below, draw_index};
use crate::text::string_from_chars;

verus! {

/// How many words the Markov retry loop may sample before giving up on the
/// requested length window and returning an empty word.
pub const MARKOV_RETRY_LIMIT: usize = 1024;

/// The vowels a pronounceable username draws from.
pub open spec fn vowels() -> Seq<char> {
    seq!['a', 'e', 'i', 'o', 'u', 'y']
}

/// The consonants a pronounceable username draws from.
pub open spec fn consonants() -> Seq<char> {
    seq![
        'b',
        'c',
        'd',
        'f',
        'g',
        'h',
        'j',
        'k',
        'l',
        'm',
        'n',
        'p',
        'q',
        'r',
        's',
        't',
        'v',
        'w',
        'x',
        'z',
    ]
}

/// Picks a uniformly random vowel.
pub fn choose_random_vowel() -> (c: char)
    ensures
        vowels().contains(c),
{
    let i = draw_index(6);
    let c = if i == 0 {
        'a'
    } else if i == 1 {
        'e'
    } else if i == 2 {
        'i'
    } else if i == 3 {
        'o'
    } else if i == 4 {
        'u'
    } else {
        'y'
    };
    proof {
        if i < 5 {
            assert(vowels()[i as int] == c);
        } else {
            assert(vowels()[5] == c);
        }
    }
    c
}

/// Picks a uniformly random consonant.
pub fn choose_random_consonant() -> (c: char)
    ensures
        consonants().contains(c),
{
    let i = draw_index(20);
    let table = consonant_table();
    let c = table[i];
    proof {
        assert(consonants()[i as int] == c);
    }
    c
}

/// The consonants, as a vector.
fn consonant_table() -> (r: Vec<char>)
    ensures
        r@ == consonants(),
{
    let mut r: Vec<char> = Vec::new();
    r.push('b');
    r.push('c');
    r.push('d');
    r.push('f');
    r.push('g');
    r.push('h');
    r.push('j');
    r.push('k');
    r.push('l');
    r.push('m');
    r.push('n');
    r.push('p');
    r.push('q');
    r.push('r');
    r.push('s');
    r.push('t');
    r.push('v');
    r.push('w');
    r.push('x');
    r.push('z');
    proof {
        assert(r@ =~= consonants());
    }
    r
}

/// Appends a random vowel to a word under construction.
pub fn add_vowel(input: &mut Vec<char>)
    ensures
        final(input)@.len() == old(input)@.len() + 1,
        final(input)@ == old(input)@.push(final(input)@.last()),
        vowels().contains(final(input)@.last()),
{
    let value = choose_random_vowel();
    input.push(value);
    proof {
        assert(input@ =~= old(input)@.push(input@.last()));
    }
}

/// Appends a random consonant to a word under construction.
pub fn add_consonant(input: &mut Vec<char>)
    ensures
        final(input)@.len() == old(input)@.len() + 1,
        final(input)@ == old(input)@.push(final(input)@.last()),
        consonants().contains(final(input)@.last()),
{
    let value = choose_random_consonant();
    input.push(value);
    proof {
        assert(input@ =~= old(input)@.push(input@.last()));
    }
}

/// The two shapes a username syllable can take.
#[derive(Debug, Clone, Copy, PartialEq, Eq, Structural)]
pub enum SyllableType {
    /// Consonant, vowel, consonant.
    CLOSED,
    /// Consonant, vowel.
    OPEN,
}

/// Builds a closed syllable: consonant, vowel, consonant.
pub fn create_closed_syllable() -> (r: String)
    ensures
        r@.len() == 3,
        consonants().contains(r@[0]),
        vowels().contains(r@[1]),
        consonants().contains(r@[2]),
{
    let mut syllable: Vec<char> = Vec::new();
    add_consonant(&mut syllable);
    add_vowel(&mut syllable);
    add_consonant(&mut syllable);
    string_from_chars(&syllable)
}

/// Builds an open syllable: consonant, vowel.
pub fn create_open_syllable() -> (r: String)
    ensures
        r@.len() == 2,
        consonants().contains(r@[0]),
        vowels().contains(r@[1]),
{
    let mut syllable: Vec<char> = Vec::new();
    add_consonant(&mut syllable);
    add_vowel(&mut syllable);
    string_from_chars(&syllable)
}

/// The uppercase form of a character, per the Unicode tables: a fixed
/// function of the character alone, of at least one character.
pub uninterp spec fn upper_of(c: char) -> Seq<char>;

/// Relies on `char::to_uppercase`: the mapping depends on the character
/// alone and always yields at least one character.
#[verifier::external_body]
fn uppercase_char(c: char) -> (r: Vec<char>)
    ensures
        r@ == upper_of(c),
        r@.len() >= 1,
{
    c.to_uppercase().collect()
}

/// A word with its first letter capitalized when asked for.
pub open spec fn capitalized(s: Seq<char>, enable: bool) -> Seq<char> {
    if !enable || s.len() == 0 {
        s
    } else {
        upper_of(s[0]) + s.skip(1)
    }
}

/// Capitalizes the first letter of a word.
pub fn capitalize_first(word: &str) -> (r: String)
    ensures
        r@ == capitalized(word@, true),
{
    let n = word.unicode_len();
    if n == 0 {
        return word.to_owned();
    }
    let first = word.get_char(0);
    let mut out = uppercase_char(first);
    let mut i: usize = 1;
    while i < n
        invariant
            1 <= i <= n,
            n == word@.len(),
            out@ =~= upper_of(word@[0]) + word@.subrange(1, i as int),
        decreases n - i,
    {
        out.push(word.get_char(i));
        i += 1;
        proof {
            assert(out@ =~= upper_of(word@[0]) + word@.subrange(1, i as int));
        }
    }
    proof {
        assert(word@.subrange(1, n as int) =~= word@.skip(1));
    }
    string_from_chars(&out)
}

/// Generates uniformly random bytes.
pub fn generate_bytes(length: usize) -> (r: Vec<u8>)
    ensures
        r@.len() == length,
{
    let mut r: Vec<u8> = Vec::new();
    let mut i: usize = 0;
    while i < length
        invariant
            0 <= i <= length,
            r@.len() == i,
        decreases length - i,
    {
        let byte = draw_below(256) as u8;
        r.push(byte);
        i += 1;
    }
    r
}

/// Generates random bytes and encodes them as hexadecimal ASCII: two
/// digits per byte.
pub fn generate_hex(uppercase: bool, length: usize) -> (r: Vec<u8>)
    requires
        length * 2 <= usize::MAX,
    ensures
        r@.len() == 2 * length,
        exists|b: Seq<u8>| b.len() == length && r@ == hex_bytes(b, uppercase),
{
    if length == 0 {
        let r: Vec<u8> = Vec::new();
        proof {
            assert(r@ =~= hex_bytes(Seq::<u8>::empty(), uppercase));
        }
        return r;
    }
    let bytes = generate_bytes(length);
    let r = to_hex(&bytes, uppercase);
    proof {
        assert(r@ == hex_bytes(bytes@, uppercase));
    }
    r
}

/// Generates random bytes and encodes them as base64 ASCII: four
/// characters per started group of three bytes.
pub fn generate_base64(url_safe: bool, length: usize) -> (r: Vec<u8>)
    requires
        length * 2 <= usize::MAX,
    ensures
        r@.len() == 4 * ((length + 2) / 3),
        exists|b: Seq<u8>| b.len() == length && r@ == b64_bytes(b, url_safe),
{
    if length == 0 {
        let r: Vec<u8> = Vec::new();
        proof {
            assert(r@ =~= b64_bytes(Seq::<u8>::empty(), url_safe));
        }
        return r;
    }
    let bytes = generate_bytes(length);
    let r = to_base64(&bytes, url_safe);
    proof {
        crate::encoding::lemma_b64_len(bytes@, url_safe);
    }
    r
}

/// Generates a string of uniformly random decimal digits, as ASCII bytes.
pub fn generate_digits(length: usize) -> (r: Vec<u8>)
    ensures
        r@.len() == length,
        forall|i: int| 0 <= i < r@.len() ==> 48 <= #[trigger] r@[i] <= 57,
{
    let mut r: Vec<u8> = Vec::new();
    let mut i: usize = 0;
    while i < length
        invariant
            0 <= i <= length,
            r@.len() == i,
            forall|j: int| 0 <= j < r@.len() ==> 48 <= #[trigger] r@[j] <= 57,
        decreases length - i,
    {
        let digit = draw_index(10);
        r.push(48 + digit as u8);
        i += 1;
    }
    r
}

/// The decimal digits of a number, as ASCII bytes, most significant first.
pub open spec fn dec_digits(n: nat) -> Seq<u8>
    decreases n,
{
    if n < 10 {
        seq![(48 + n) as u8]
    } else {
        dec_digits(n / 10).push((48 + n % 10) as u8)
    }
}

/// Writes a number in decimal ASCII.
fn to_decimal(n: usize) -> (r: Vec<u8>)
    ensures
        r@ == dec_digits(n as nat),
    decreases n,
{
    if n < 10 {
        let mut r: Vec<u8> = Vec::new();
        r.push(48 + n as u8);
        proof {
            assert(r@ =~= dec_digits(n as nat));
        }
        r
    } else {
        let mut r = to_decimal(n / 10);
        r.push(48 + (n % 10) as u8);
        proof {
            assert(r@ =~= dec_digits(n as nat));
        }
        r
    }
}

/// Generates a uniformly random number between the bounds, inclusive, in
/// decimal ASCII.
pub fn generate_number(minimum: usize, maximum: usize) -> (r: Vec<u8>)
    requires
        minimum < maximum,
    ensures
        exists|n: nat| minimum <= n <= maximum && r@ == dec_digits(n),
{
    let span = (maximum - minimum) as u128 + 1;
    let offset = draw_below(span);
    let n = minimum + offset as usize;
    let r = to_decimal(n);
    proof {
        assert(minimum <= n <= maximum && r@ == dec_digits(n as nat));
    }
    r
}

/// Generates a password: uniformly random characters from the given set.
pub fn generate_password(character_set: &Vec<char>, length: usize) -> (r: String)
    requires
        length > 0 ==> character_set@.len() > 0,
    ensures
        r@.len() == length,
        forall|i: int| 0 <= i < r@.len() ==> character_set@.contains(#[trigger] r@[i]),
{
    let mut chars: Vec<char> = Vec::new();
    let mut i: usize = 0;
    while i < length
        invariant
            0 <= i <= length,
            chars@.len() == i,
            length > 0 ==> character_set@.len() > 0,
            forall|j: int| 0 <= j < chars@.len() ==> character_set@.contains(
                #[trigger] chars@[j],
            ),
        decreases length - i,
    {
        let k = draw_index(character_set.len());
        chars.push(character_set[k]);
        i += 1;
    }
    string_from_chars(&chars)
}

/// Words joined by a separator.
pub open spec fn joined(ws: Seq<Seq<char>>, sep: Seq<char>) -> Seq<char>
    decreases ws.len(),
{
    if ws.len() == 0 {
        Seq::empty()
    } else if ws.len() == 1 {
        ws[0]
    } else {
        joined(ws.drop_last(), sep) + sep + ws.last()
    }
}

/// Generates a passphrase: words drawn uniformly from the wordlist, joined
/// by the separator.
pub fn generate_passphrase(wordlist: &Vec<String>, separator: &str, length: usize) -> (r: String)
    requires
        length > 0 ==> wordlist@.len() > 0,
    ensures
        exists|ws: Seq<Seq<char>>|
            ws.len() == length && (forall|i: int|
                0 <= i < ws.len() ==> crate::wordlist::has_word(wordlist@, #[trigger] ws[i]))
                && r@ == joined(ws, separator@),
{
    let mut out = String::new();
    let ghost mut chosen: Seq<Seq<char>> = Seq::empty();
    let mut i: usize = 0;
    while i < length
        invariant
            0 <= i <= length,
            length > 0 ==> wordlist@.len() > 0,
            chosen.len() == i,
            forall|j: int|
                0 <= j < chosen.len() ==> crate::wordlist::has_word(
                    wordlist@,
                    #[trigger] chosen[j],
                ),
            out@ == joined(chosen, separator@),
        decreases length - i,
    {
        if i > 0 {
            out.append(separator);
        }
        let k = draw_index(wordlist.len());
        out.append(wordlist[k].as_str());
        proof {
            let prev = chosen;
            chosen = chosen.push(wordlist@[k as int]@);
            assert(wordlist@[k as int]@ == chosen.last());
            assert(crate::wordlist::has_word(wordlist@, chosen.last()));
            assert(chosen.drop_last() =~= prev);
            if i == 0 {
                assert(chosen.len() == 1);
                assert(joined(chosen, separator@) == chosen[0]);
                assert(out@ =~= chosen[0]);
            } else {
                assert(chosen.len() >= 2);
                assert(joined(chosen, separator@) == joined(prev, separator@) + separator@
                    + chosen.last());
                assert(out@ =~= joined(prev, separator@) + separator@ + chosen.last());
            }
        }
        i += 1;
    }
    proof {
        assert(chosen.len() == length);
    }
    out
}

/// Generates a simple pronounceable username: vowels and consonants in
/// strict alternation, starting from a coin flip.
pub fn generate_simple_username(capitalize: bool, length: usize) -> (r: String)
    ensures
        exists|raw: Seq<char>|
            raw.len() == length && (forall|i: int|
                0 <= i < raw.len() ==> vowels().contains(#[trigger] raw[i]) || consonants().contains(
                    raw[i],
                )) && r@ == capitalized(raw, capitalize),
{
    let mut output: Vec<char> = Vec::new();
    let start_vowel = draw_index(2) == 0;
    let mut i: usize = 0;
    while i < length
        invariant
            0 <= i <= length,
            output@.len() == i,
            forall|j: int|
                0 <= j < output@.len() ==> vowels().contains(#[trigger] output@[j])
                    || consonants().contains(output@[j]),
        decreases length - i,
    {
        if (i % 2 == 0) == start_vowel {
            add_vowel(&mut output);
        } else {
            add_consonant(&mut output);
        }
        i += 1;
    }
    let word = string_from_chars(&output);
    if capitalize {
        let r = capitalize_first(word.as_str());
        proof {
            assert(r@ == capitalized(output@, true));
        }
        r
    } else {
        word
    }
}

/// Generates a complex pronounceable username from random syllables: each
/// is a consonant and a vowel, optionally closed by another consonant.
pub fn generate_complex_username(capitalize: bool, length: usize) -> (r: String)
    requires
        3 * length <= usize::MAX,
    ensures
        exists|raw: Seq<char>|
            2 * length <= raw.len() <= 3 * length && (forall|i: int|
                0 <= i < raw.len() ==> vowels().contains(#[trigger] raw[i]) || consonants().contains(
                    raw[i],
                )) && r@ == capitalized(raw, capitalize),
{
    let mut output: Vec<char> = Vec::new();
    let mut i: usize = 0;
    while i < length
        invariant
            0 <= i <= length,
            3 * length <= usize::MAX,
            2 * i <= output@.len() <= 3 * i,
            forall|j: int|
                0 <= j < output@.len() ==> vowels().contains(#[trigger] output@[j])
                    || consonants().contains(output@[j]),
        decreases length - i,
    {
        add_consonant(&mut output);
        add_vowel(&mut output);
        if draw_index(2) == 0 {
            add_consonant(&mut output);
        }
        i += 1;
    }
    let word = string_from_chars(&output);
    let r = if capitalize {
        capitalize_first(word.as_str())
    } else {
        word
    };
    proof {
        let raw = output@;
        assert(2 * length <= raw.len() <= 3 * length);
        assert(r@ == capitalized(raw, capitalize));
        assert(exists|raw: Seq<char>|
            2 * length <= raw.len() <= 3 * length && (forall|i: int|
                0 <= i < raw.len() ==> vowels().contains(#[trigger] raw[i])
                    || consonants().contains(raw[i])) && r@ == capitalized(raw, capitalize));
    }
    r
}

/// Generates a Markov word whose length falls in `[minimum, maximum)`,
/// resampling up to the retry bound; past it the empty word is returned
/// rather than looping on.  The first letter is optionally capitalized.
pub fn generate_markov(
    generator: &Generator,
    capitalize: bool,
    minimum: usize,
    maximum: usize,
) -> (r: String)
    requires
        generator.wf(),
    ensures
        exists|raw: Seq<char>|
            (forall|i: int| 0 <= i < raw.len() ==> in_some_alphabet(*generator, #[trigger] raw[i]))
                && (raw.len() == 0 || minimum <= raw.len() < maximum) && r@ == capitalized(
                raw,
                capitalize,
            ),
{
    let mut word = String::new();
    let mut found = false;
    let mut attempts: usize = 0;
    while !found && attempts < MARKOV_RETRY_LIMIT
        invariant
            generator.wf(),
            0 <= attempts <= MARKOV_RETRY_LIMIT,
            found ==> (forall|i: int|
                0 <= i < word@.len() ==> in_some_alphabet(*generator, #[trigger] word@[i]))
                && minimum <= word@.len() < maximum,
            !found ==> word@.len() == 0,
        decreases MARKOV_RETRY_LIMIT - attempts + (if found { 0int } else { 1int }),
    {
        let candidate = generator.generate();
        let n = candidate.as_str().unicode_len();
        if minimum <= n && n < maximum {
            word = candidate;
            found = true;
        }
        attempts += 1;
    }
    if capitalize {
        let r = capitalize_first(word.as_str());
        proof {
            assert(r@ == capitalized(word@, true));
        }
        r
    } else {
        word
    }
}

} // verus!
