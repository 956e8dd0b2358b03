//! Assembling generator output: one value per request, or a requested
//! count of values joined by newlines.

use vstd::prelude::*;

use crate::config::{GenerateCommands, UsernameCommands};
use crate::encoding::{b64_bytes, hex_bytes};
use crate::generator::{Generator, in_some_alphabet};
use crate::generators::{
    capitalized, consonants, generate_base64, generate_bytes, generate_complex_username,
    generate_digits, generate_hex, generate_markov, generate_number, generate_passphrase,
    generate_password, generate_simple_username, joined, vowels,
};
use crate::random::shuffle_chars;
use crate::text::chars_of_str;
use crate::wordlist::has_word;

verus! {

broadcast use vstd::seq_lib::group_to_multiset_ensures;

/// The kinds of pronounceable username.
pub enum UsernameKind {
    /// Vowels and consonants in alternation.
    Simple,
    /// Built from syllables.
    Complex,
}

/// The newline separating the values of one batch.
pub open spec fn newline() -> Seq<char> {
    seq!['\n']
}

/// Byte strings joined by a separator byte.
pub open spec fn joined_bytes(items: Seq<Seq<u8>>, sep: u8) -> Seq<u8>
    decreases items.len(),
{
    if items.len() == 0 {
        Seq::empty()
    } else if items.len() == 1 {
        items[0]
    } else {
        joined_bytes(items.drop_last(), sep).push(sep) + items.last()
    }
}

/// A well-formed password over a character set.
pub open spec fn is_password(set: Seq<char>, length: int, s: Seq<char>) -> bool {
    s.len() == length && (forall|i: int| 0 <= i < s.len() ==> set.contains(#[trigger] s[i]))
}

/// A well-formed passphrase over a wordlist.
pub open spec fn is_passphrase(
    wordlist: Seq<String>,
    sep: Seq<char>,
    length: int,
    s: Seq<char>,
) -> bool {
    exists|ws: Seq<Seq<char>>|
        ws.len() == length && (forall|i: int|
            0 <= i < ws.len() ==> has_word(wordlist, #[trigger] ws[i])) && s == joined(ws, sep)
}

/// A well-formed simple username.
pub open spec fn is_simple_username(capitalize: bool, length: int, s: Seq<char>) -> bool {
    exists|raw: Seq<char>|
        raw.len() == length && (forall|i: int|
            0 <= i < raw.len() ==> vowels().contains(#[trigger] raw[i]) || consonants().contains(
                raw[i],
            )) && s == capitalized(raw, capitalize)
}

/// A well-formed complex username.
pub open spec fn is_complex_username(capitalize: bool, length: int, s: Seq<char>) -> bool {
    exists|raw: Seq<char>|
        2 * length <= raw.len() <= 3 * length && (forall|i: int|
            0 <= i < raw.len() ==> vowels().contains(#[trigger] raw[i]) || consonants().contains(
                raw[i],
            )) && s == capitalized(raw, capitalize)
}

/// A well-formed Markov word for a generator and length window.
pub open spec fn is_markov_word(
    g: Generator,
    capitalize: bool,
    minimum: int,
    maximum: int,
    s: Seq<char>,
) -> bool {
    exists|raw: Seq<char>|
        (forall|i: int| 0 <= i < raw.len() ==> in_some_alphabet(g, #[trigger] raw[i])) && (raw.len()
            == 0 || minimum <= raw.len() < maximum) && s == capitalized(raw, capitalize)
}

/// The character set the password flags select.
pub open spec fn spec_character_set(numbers: bool, symbols: bool) -> Seq<char> {
    if numbers && symbols {
        "0123456789!@*-_.abcdefghijklmnopqrstuvwxyzABCDEFGHIJKLMNOPQRSTUVWXYZ"@
    } else if numbers {
        "0123456789abcdefghijklmnopqrstuvwxyzABCDEFGHIJKLMNOPQRSTUVWXYZ"@
    } else if symbols {
        "!@*-_.abcdefghijklmnopqrstuvwxyzABCDEFGHIJKLMNOPQRSTUVWXYZ"@
    } else {
        "abcdefghijklmnopqrstuvwxyzABCDEFGHIJKLMNOPQRSTUVWXYZ"@
    }
}

/// Loads the character set the password flags select, shuffled.
pub fn get_character_set(numbers: bool, symbols: bool) -> (r: Vec<char>)
    ensures
        r@.to_multiset() == spec_character_set(numbers, symbols).to_multiset(),
        r@.len() == spec_character_set(numbers, symbols).len(),
{
    let mut set = if numbers && symbols {
        chars_of_str("0123456789!@*-_.abcdefghijklmnopqrstuvwxyzABCDEFGHIJKLMNOPQRSTUVWXYZ")
    } else if numbers {
        chars_of_str("0123456789abcdefghijklmnopqrstuvwxyzABCDEFGHIJKLMNOPQRSTUVWXYZ")
    } else if symbols {
        chars_of_str("!@*-_.abcdefghijklmnopqrstuvwxyzABCDEFGHIJKLMNOPQRSTUVWXYZ")
    } else {
        chars_of_str("abcdefghijklmnopqrstuvwxyzABCDEFGHIJKLMNOPQRSTUVWXYZ")
    };
    shuffle_chars(&mut set);
    set
}

/// Generates one batch of random bytes.
pub fn create_bytes(length: usize) -> (r: Vec<u8>)
    ensures
        r@.len() == length,
{
    generate_bytes(length)
}

/// Generates one batch of random bytes, hexadecimal-encoded.
pub fn create_hex(uppercase: bool, length: usize) -> (r: Vec<u8>)
    requires
        length * 2 <= usize::MAX,
    ensures
        r@.len() == 2 * length,
        exists|b: Seq<u8>| b.len() == length && r@ == hex_bytes(b, uppercase),
{
    generate_hex(uppercase, length)
}

/// Generates one batch of random bytes, base64-encoded.
pub fn create_base64(url_safe: bool, length: usize) -> (r: Vec<u8>)
    requires
        length * 2 <= usize::MAX,
    ensures
        r@.len() == 4 * ((length + 2) / 3),
        exists|b: Seq<u8>| b.len() == length && r@ == b64_bytes(b, url_safe),
{
    generate_base64(url_safe, length)
}

/// Generates the requested count of passwords, newline-joined.
pub fn create_password(character_set: &Vec<char>, length: usize, count: Option<usize>) -> (r:
    String)
    requires
        length > 0 ==> character_set@.len() > 0,
    ensures
        exists|items: Seq<Seq<char>>|
            items.len() == count_or_one(count) && (forall|i: int|
                0 <= i < items.len() ==> is_password(
                    character_set@,
                    length as int,
                    #[trigger] items[i],
                )) && r@ == joined(items, newline()),
{
    let max = match count {
        Some(c) => c,
        None => 1,
    };
    let mut out = String::new();
    let ghost mut items: Seq<Seq<char>> = Seq::empty();
    let mut i: usize = 0;
    while i < max
        invariant
            0 <= i <= max,
            length > 0 ==> character_set@.len() > 0,
            items.len() == i,
            forall|j: int|
                0 <= j < items.len() ==> is_password(
                    character_set@,
                    length as int,
                    #[trigger] items[j],
                ),
            out@ == joined(items, newline()),
        decreases max - i,
    {
        if i > 0 {
            out.append("\n");
        }
        let item = generate_password(character_set, length);
        out.append(item.as_str());
        proof {
            reveal_strlit("\n");
            assert("\n"@ =~= newline());
            let prev = items;
            items = items.push(item@);
            assert(is_password(character_set@, length as int, items.last()));
            assert(items.drop_last() =~= prev);
            proof_join_step(prev, items, item@, out@, i as int);
        }
        i += 1;
    }
    out
}

/// Appending one more item extends a newline join by a separator and the
/// item — or starts it, for the first item.
proof fn proof_join_step(
    prev: Seq<Seq<char>>,
    items: Seq<Seq<char>>,
    item: Seq<char>,
    outv: Seq<char>,
    i: int,
)
    requires
        items == prev.push(item),
        prev.len() == i,
        i == 0 ==> outv =~= item,
        i > 0 ==> outv =~= joined(prev, newline()) + newline() + item,
    ensures
        outv == joined(items, newline()),
{
    assert(items.drop_last() =~= prev);
    assert(items.last() == item);
    if i == 0 {
        assert(items.len() == 1);
        assert(joined(items, newline()) == items[0]);
        assert(outv =~= joined(items, newline()));
    } else {
        assert(items.len() >= 2);
        assert(joined(items, newline()) == joined(prev, newline()) + newline() + item);
        assert(outv =~= joined(items, newline()));
    }
}

/// Generates the requested count of passphrases, newline-joined.
pub fn create_passphrase(
    wordlist: &Vec<String>,
    separator: &str,
    length: usize,
    count: Option<usize>,
) -> (r: String)
    requires
        length > 0 ==> wordlist@.len() > 0,
    ensures
        exists|items: Seq<Seq<char>>|
            items.len() == count_or_one(count) && (forall|i: int|
                0 <= i < items.len() ==> is_passphrase(
                    wordlist@,
                    separator@,
                    length as int,
                    #[trigger] items[i],
                )) && r@ == joined(items, newline()),
{
    let max = match count {
        Some(c) => c,
        None => 1,
    };
    let mut out = String::new();
    let ghost mut items: Seq<Seq<char>> = Seq::empty();
    let mut i: usize = 0;
    while i < max
        invariant
            0 <= i <= max,
            length > 0 ==> wordlist@.len() > 0,
            items.len() == i,
            forall|j: int|
                0 <= j < items.len() ==> is_passphrase(
                    wordlist@,
                    separator@,
                    length as int,
                    #[trigger] items[j],
                ),
            out@ == joined(items, newline()),
        decreases max - i,
    {
        if i > 0 {
            out.append("\n");
        }
        let item = generate_passphrase(wordlist, separator, length);
        out.append(item.as_str());
        proof {
            reveal_strlit("\n");
            assert("\n"@ =~= newline());
            let prev = items;
            items = items.push(item@);
            assert(is_passphrase(wordlist@, separator@, length as int, items.last()));
            proof_join_step(prev, items, item@, out@, i as int);
        }
        i += 1;
    }
    out
}

/// Generates the requested count of usernames of the chosen kind,
/// newline-joined.
pub fn create_username(capitalize: bool, kind: UsernameKind, length: usize, count: Option<usize>)
    -> (r: String)
    requires
        kind is Complex ==> 3 * length <= usize::MAX,
    ensures
        exists|items: Seq<Seq<char>>|
            items.len() == count_or_one(count) && (forall|i: int|
                0 <= i < items.len() ==> (match kind {
                    UsernameKind::Simple => is_simple_username(
                        capitalize,
                        length as int,
                        #[trigger] items[i],
                    ),
                    UsernameKind::Complex => is_complex_username(
                        capitalize,
                        length as int,
                        items[i],
                    ),
                })) && r@ == joined(items, newline()),
{
    let max = match count {
        Some(c) => c,
        None => 1,
    };
    let mut out = String::new();
    let ghost mut items: Seq<Seq<char>> = Seq::empty();
    let mut i: usize = 0;
    while i < max
        invariant
            0 <= i <= max,
            kind is Complex ==> 3 * length <= usize::MAX,
            items.len() == i,
            forall|j: int|
                0 <= j < items.len() ==> (match kind {
                    UsernameKind::Simple => is_simple_username(
                        capitalize,
                        length as int,
                        #[trigger] items[j],
                    ),
                    UsernameKind::Complex => is_complex_username(
                        capitalize,
                        length as int,
                        items[j],
                    ),
                }),
            out@ == joined(items, newline()),
        decreases max - i,
    {
        if i > 0 {
            out.append("\n");
        }
        let item = match kind {
            UsernameKind::Simple => generate_simple_username(capitalize, length),
            UsernameKind::Complex => generate_complex_username(capitalize, length),
        };
        out.append(item.as_str());
        proof {
            reveal_strlit("\n");
            assert("\n"@ =~= newline());
            let prev = items;
            items = items.push(item@);
            proof_join_step(prev, items, item@, out@, i as int);
        }
        i += 1;
    }
    out
}

/// Generates the requested count of digit strings, newline-joined bytes.
pub fn create_digits(length: usize, count: Option<usize>) -> (r: Vec<u8>)
    ensures
        exists|items: Seq<Seq<u8>>|
            items.len() == count_or_one(count) && (forall|i: int|
                0 <= i < items.len() ==> (#[trigger] items[i]).len() == length && (forall|k: int|
                    0 <= k < items[i].len() ==> 48 <= #[trigger] items[i][k] <= 57)) && r@
                == joined_bytes(items, 10),
{
    let max = match count {
        Some(c) => c,
        None => 1,
    };
    let mut out: Vec<u8> = Vec::new();
    let ghost mut items: Seq<Seq<u8>> = Seq::empty();
    let mut i: usize = 0;
    while i < max
        invariant
            0 <= i <= max,
            items.len() == i,
            forall|j: int|
                0 <= j < items.len() ==> (#[trigger] items[j]).len() == length && (forall|k: int|
                    0 <= k < items[j].len() ==> 48 <= #[trigger] items[j][k] <= 57),
            out@ == joined_bytes(items, 10),
        decreases max - i,
    {
        if i > 0 {
            out.push(10);
        }
        let item = generate_digits(length);
        let ghost mid = out@;
        let mut k: usize = 0;
        while k < item.len()
            invariant
                0 <= k <= item@.len(),
                out@ == mid + item@.take(k as int),
            decreases item@.len() - k,
        {
            out.push(item[k]);
            k += 1;
            proof {
                assert(out@ =~= mid + item@.take(k as int));
            }
        }
        proof {
            assert(item@.take(item@.len() as int) =~= item@);
            let prev = items;
            items = items.push(item@);
            assert(items.drop_last() =~= prev);
            if i == 0 {
                assert(out@ =~= joined_bytes(items, 10));
            } else {
                assert(joined_bytes(items, 10) == joined_bytes(prev, 10).push(10) + item@);
                assert(out@ =~= joined_bytes(items, 10));
            }
        }
        i += 1;
    }
    out
}

/// Generates the requested count of random numbers in the inclusive range,
/// newline-joined decimal bytes.
pub fn create_number(minimum: usize, maximum: usize, count: Option<usize>) -> (r: Vec<u8>)
    requires
        minimum < maximum,
    ensures
        exists|items: Seq<Seq<u8>>|
            items.len() == count_or_one(count) && (forall|i: int|
                0 <= i < items.len() ==> exists|n: nat|
                    minimum <= n <= maximum && #[trigger] items[i] == crate::generators::dec_digits(
                        n,
                    )) && r@ == joined_bytes(items, 10),
{
    let max = match count {
        Some(c) => c,
        None => 1,
    };
    let mut out: Vec<u8> = Vec::new();
    let ghost mut items: Seq<Seq<u8>> = Seq::empty();
    let mut i: usize = 0;
    while i < max
        invariant
            0 <= i <= max,
            minimum < maximum,
            items.len() == i,
            forall|j: int|
                0 <= j < items.len() ==> exists|n: nat|
                    minimum <= n <= maximum && #[trigger] items[j] == crate::generators::dec_digits(
                        n,
                    ),
            out@ == joined_bytes(items, 10),
        decreases max - i,
    {
        if i > 0 {
            out.push(10);
        }
        let item = generate_number(minimum, maximum);
        let ghost mid = out@;
        let mut k: usize = 0;
        while k < item.len()
            invariant
                0 <= k <= item@.len(),
                out@ == mid + item@.take(k as int),
            decreases item@.len() - k,
        {
            out.push(item[k]);
            k += 1;
            proof {
                assert(out@ =~= mid + item@.take(k as int));
            }
        }
        proof {
            assert(item@.take(item@.len() as int) =~= item@);
            let prev = items;
            items = items.push(item@);
            assert(items.drop_last() =~= prev);
            if i == 0 {
                assert(out@ =~= joined_bytes(items, 10));
            } else {
                assert(joined_bytes(items, 10) == joined_bytes(prev, 10).push(10) + item@);
                assert(out@ =~= joined_bytes(items, 10));
            }
        }
        i += 1;
    }
    out
}

/// Generates the requested count of Markov words, newline-joined.
pub fn create_markov(
    generator: &Generator,
    capitalize: bool,
    minimum: usize,
    maximum: usize,
    count: Option<usize>,
) -> (r: String)
    requires
        generator.wf(),
    ensures
        exists|items: Seq<Seq<char>>|
            items.len() == count_or_one(count) && (forall|i: int|
                0 <= i < items.len() ==> is_markov_word(
                    *generator,
                    capitalize,
                    minimum as int,
                    maximum as int,
                    #[trigger] items[i],
                )) && r@ == joined(items, newline()),
{
    let max = match count {
        Some(c) => c,
        None => 1,
    };
    let mut out = String::new();
    let ghost mut items: Seq<Seq<char>> = Seq::empty();
    let mut i: usize = 0;
    while i < max
        invariant
            0 <= i <= max,
            generator.wf(),
            items.len() == i,
            forall|j: int|
                0 <= j < items.len() ==> is_markov_word(
                    *generator,
                    capitalize,
                    minimum as int,
                    maximum as int,
                    #[trigger] items[j],
                ),
            out@ == joined(items, newline()),
        decreases max - i,
    {
        if i > 0 {
            out.append("\n");
        }
        let item = generate_markov(generator, capitalize, minimum, maximum);
        out.append(item.as_str());
        proof {
            reveal_strlit("\n");
            assert("\n"@ =~= newline());
            let prev = items;
            items = items.push(item@);
            proof_join_step(prev, items, item@, out@, i as int);
        }
        i += 1;
    }
    out
}

/// How many values one request asks for: the given count, or one.
pub open spec fn count_or_one(count: Option<usize>) -> int {
    match count {
        Some(c) => c as int,
        None => 1,
    }
}

/// One batch of generator output: raw bytes, or text.
pub enum Output {
    /// Raw bytes, written as they are.
    Bytes(Vec<u8>),
    /// Text, written in UTF-8.
    Text(String),
}

/// Runs one non-Markov generator command and assembles its output.  The
/// wordlist parameter serves the passphrase command; any other command
/// ignores it.  Markov requests carry cache policy and so are driven by
/// the embedding program.
#[verifier::rlimit(100)]
pub fn generate(command: &GenerateCommands, wordlist: &Vec<String>) -> (r: Output)
    requires
        !(command is Markov),
        (command matches GenerateCommands::Hex { length, .. } ==> length * 2 <= usize::MAX),
        (command matches GenerateCommands::Base64 { length, .. } ==> length * 2 <= usize::MAX),
        (command matches GenerateCommands::Passphrase { length, .. } ==> (length > 0
            ==> wordlist@.len() > 0)),
        (command matches GenerateCommands::Username {
            command: UsernameCommands::Complex { length, .. },
            ..
        } ==> 3 * (length as int) <= usize::MAX),
        (command matches GenerateCommands::Number { minimum, maximum, .. } ==> (minimum as int) < (maximum as int)),
    ensures
        match *command {
            GenerateCommands::Bytes { length } => r matches Output::Bytes(b) && b@.len() == length,
            GenerateCommands::Hex { uppercase, length } => r matches Output::Bytes(b) && b@.len()
                == 2 * length && (exists|bs: Seq<u8>|
                bs.len() == length && b@ == #[trigger] hex_bytes(bs, uppercase)),
            GenerateCommands::Base64 { url_safe, length } => r matches Output::Bytes(b) && b@.len()
                == 4 * ((length + 2) / 3) && (exists|bs: Seq<u8>|
                bs.len() == length && b@ == #[trigger] b64_bytes(bs, url_safe)),
            GenerateCommands::Password { numbers, symbols, length, count } => r matches Output::Text(
                t,
            ) && (exists|items: Seq<Seq<char>>|
                #![trigger joined(items, newline())]
                items.len() == count_or_one(count) && (forall|i: int|
                    0 <= i < items.len() ==> is_password(
                        spec_character_set(numbers, symbols),
                        length as int,
                        #[trigger] items[i],
                    )) && t@ == joined(items, newline())),
            GenerateCommands::Passphrase { separator, length, count, .. } => r matches Output::Text(
                t,
            ) && (exists|items: Seq<Seq<char>>|
                #![trigger joined(items, newline())]
                items.len() == count_or_one(count) && (forall|i: int|
                    0 <= i < items.len() ==> is_passphrase(
                        wordlist@,
                        separator@,
                        length as int,
                        #[trigger] items[i],
                    )) && t@ == joined(items, newline())),
            GenerateCommands::Username { capitalize, command: inner } => r matches Output::Text(t)
                && (match inner {
                UsernameCommands::Simple { length, count } => exists|items: Seq<Seq<char>>|
                    #![trigger joined(items, newline())]
                    items.len() == count_or_one(count) && (forall|i: int|
                        0 <= i < items.len() ==> is_simple_username(
                            capitalize,
                            length as int,
                            #[trigger] items[i],
                        )) && t@ == joined(items, newline()),
                UsernameCommands::Complex { length, count } => exists|items: Seq<Seq<char>>|
                    #![trigger joined(items, newline())]
                    items.len() == count_or_one(count) && (forall|i: int|
                        0 <= i < items.len() ==> is_complex_username(
                            capitalize,
                            length as int,
                            #[trigger] items[i],
                        )) && t@ == joined(items, newline()),
            }),
            GenerateCommands::Digits { length, count } => r matches Output::Bytes(b) && (exists|
                items: Seq<Seq<u8>>,
            |
                #![trigger joined_bytes(items, 10)]
                items.len() == count_or_one(count) && (forall|i: int|
                    0 <= i < items.len() ==> (#[trigger] items[i]).len() == length && (forall|
                        k: int,
                    | 0 <= k < items[i].len() ==> 48 <= #[trigger] items[i][k] <= 57)) && b@
                    == joined_bytes(items, 10)),
            GenerateCommands::Number { minimum, maximum, count } => r matches Output::Bytes(b) && (
            exists|items: Seq<Seq<u8>>|
                #![trigger joined_bytes(items, 10)]
                items.len() == count_or_one(count) && (forall|i: int|
                    0 <= i < items.len() ==> (exists|n: nat|
                        minimum <= n <= maximum && #[trigger] items[i]
                            == crate::generators::dec_digits(n))) && b@ == joined_bytes(
                    items,
                    10,
                )),
            GenerateCommands::Markov { .. } => true,
        },
{
    match command {
        GenerateCommands::Bytes { length } => Output::Bytes(create_bytes(*length)),
        GenerateCommands::Hex { uppercase, length } => Output::Bytes(
            create_hex(*uppercase, *length),
        ),
        GenerateCommands::Base64 { url_safe, length } => Output::Bytes(
            create_base64(*url_safe, *length),
        ),
        GenerateCommands::Password { numbers, symbols, length, count } => {
            let character_set = get_character_set(*numbers, *symbols);
            proof {
                assert(spec_character_set(*numbers, *symbols).len() > 0) by {
                    if *numbers && *symbols {
                        reveal_strlit(
                            "0123456789!@*-_.abcdefghijklmnopqrstuvwxyzABCDEFGHIJKLMNOPQRSTUVWXYZ",
                        );
                    } else if *numbers {
                        reveal_strlit(
                            "0123456789abcdefghijklmnopqrstuvwxyzABCDEFGHIJKLMNOPQRSTUVWXYZ",
                        );
                    } else if *symbols {
                        reveal_strlit(
                            "!@*-_.abcdefghijklmnopqrstuvwxyzABCDEFGHIJKLMNOPQRSTUVWXYZ",
                        );
                    } else {
                        reveal_strlit(
                            "abcdefghijklmnopqrstuvwxyzABCDEFGHIJKLMNOPQRSTUVWXYZ",
                        );
                    }
                }
            }
            let text = create_password(&character_set, *length, *count);
            proof {
                let spec_set = spec_character_set(*numbers, *symbols);
                assert forall|c: char| character_set@.contains(c) implies spec_set.contains(
                    c,
                ) by {
                    assert(character_set@.to_multiset().count(c) > 0);
                    assert(spec_set.to_multiset().count(c) > 0);
                }
                let items = choose|items: Seq<Seq<char>>|
                    items.len() == count_or_one(*count) && (forall|i: int|
                        0 <= i < items.len() ==> is_password(
                            character_set@,
                            *length as int,
                            #[trigger] items[i],
                        )) && text@ == joined(items, newline());
                assert forall|i: int|
                    0 <= i < items.len() implies is_password(
                    spec_set,
                    *length as int,
                    #[trigger] items[i],
                ) by {
                    assert forall|j: int|
                        0 <= j < items[i].len() implies spec_set.contains(
                        #[trigger] items[i][j],
                    ) by {
                        assert(character_set@.contains(items[i][j]));
                    }
                }
            }
            Output::Text(text)
        },
        GenerateCommands::Passphrase { separator, length, count, .. } => {
            let sep = separator.as_str();
            let text = create_passphrase(wordlist, sep, *length, *count);
            proof {
                let items = choose|items: Seq<Seq<char>>|
                    items.len() == count_or_one(*count) && (forall|i: int|
                        0 <= i < items.len() ==> is_passphrase(
                            wordlist@,
                            sep@,
                            *length as int,
                            #[trigger] items[i],
                        )) && text@ == joined(items, newline());
                assert(sep@ == separator@);
                assert forall|i: int|
                    0 <= i < items.len() implies is_passphrase(
                    wordlist@,
                    separator@,
                    *length as int,
                    #[trigger] items[i],
                ) by {
                    assert(is_passphrase(wordlist@, sep@, *length as int, items[i]));
                }
            }
            Output::Text(text)
        },
        GenerateCommands::Username { capitalize, command } => match command {
            UsernameCommands::Simple { length, count } => Output::Text(
                create_username(*capitalize, UsernameKind::Simple, *length, *count),
            ),
            UsernameCommands::Complex { length, count } => Output::Text(
                create_username(*capitalize, UsernameKind::Complex, *length, *count),
            ),
        },
        GenerateCommands::Digits { length, count } => Output::Bytes(
            create_digits(*length, *count),
        ),
        GenerateCommands::Number { minimum, maximum, count } => Output::Bytes(
            create_number(*minimum, *maximum, *count),
        ),
        GenerateCommands::Markov { .. } => {
            proof {
                assert(false);
            }
            Output::Bytes(Vec::new())
        },
    }
}

} // verus!
