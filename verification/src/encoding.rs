//! Text encodings of byte strings: hexadecimal and base64.

use vstd::prelude::*;

verus! {

/// The ASCII code of the hexadecimal digit for a value below 16.
pub open spec fn hex_digit(v: u8, uppercase: bool) -> u8 {
    if v < 10 {
        (48 + v) as u8
    } else if uppercase {
        (55 + v) as u8
    } else {
        (87 + v) as u8
    }
}

/// The hexadecimal form of a byte string: two digits per byte, high nibble
/// first.
pub open spec fn hex_bytes(b: Seq<u8>, uppercase: bool) -> Seq<u8> {
    Seq::new(
        2 * b.len(),
        |i: int|
            if i % 2 == 0 {
                hex_digit(b[i / 2] / 16, uppercase)
            } else {
                hex_digit((b[i / 2] % 16) as u8, uppercase)
            },
    )
}

/// Encodes a byte string as hexadecimal ASCII.
pub fn to_hex(b: &Vec<u8>, uppercase: bool) -> (r: Vec<u8>)
    requires
        b@.len() * 2 <= usize::MAX,
    ensures
        r@ == hex_bytes(b@, uppercase),
{
    let mut r: Vec<u8> = Vec::new();
    let mut i: usize = 0;
    while i < b.len()
        invariant
            0 <= i <= b@.len(),
            b@.len() * 2 <= usize::MAX,
            r@ =~= hex_bytes(b@, uppercase).take(2 * i as int),
        decreases b@.len() - i,
    {
        let byte = b[i];
        let hi = byte / 16;
        let lo = byte % 16;
        let hc = if hi < 10 {
            48 + hi
        } else if uppercase {
            55 + hi
        } else {
            87 + hi
        };
        let lc = if lo < 10 {
            48 + lo
        } else if uppercase {
            55 + lo
        } else {
            87 + lo
        };
        r.push(hc);
        r.push(lc);
        i += 1;
        proof {
            assert(hc == hex_digit(b@[i - 1] / 16, uppercase));
            assert(lc == hex_digit((b@[i - 1] % 16) as u8, uppercase));
            assert(r@ =~= hex_bytes(b@, uppercase).take(2 * i as int));
        }
    }
    proof {
        assert(hex_bytes(b@, uppercase).take(2 * b@.len() as int) =~= hex_bytes(b@, uppercase));
    }
    r
}

/// The ASCII code of the base64 alphabet character for a value below 64,
/// in the standard or the URL-safe alphabet.
pub open spec fn b64_char(v: u8, url_safe: bool) -> u8 {
    if v < 26 {
        (65 + v) as u8
    } else if v < 52 {
        (71 + v) as u8
    } else if v < 62 {
        (v - 4) as u8
    } else if v == 62 {
        if url_safe {
            45
        } else {
            43
        }
    } else {
        if url_safe {
            95
        } else {
            47
        }
    }
}

/// The base64 form of a byte string: three bytes become four characters,
/// a short final group is padded with `=`.
pub open spec fn b64_bytes(b: Seq<u8>, url_safe: bool) -> Seq<u8>
    decreases b.len(),
{
    if b.len() == 0 {
        Seq::empty()
    } else if b.len() == 1 {
        seq![
            b64_char(b[0] / 4, url_safe),
            b64_char(((b[0] % 4) * 16) as u8, url_safe),
            61u8,
            61u8,
        ]
    } else if b.len() == 2 {
        seq![
            b64_char(b[0] / 4, url_safe),
            b64_char(((b[0] % 4) * 16 + b[1] / 16) as u8, url_safe),
            b64_char(((b[1] % 16) * 4) as u8, url_safe),
            61u8,
        ]
    } else {
        seq![
            b64_char(b[0] / 4, url_safe),
            b64_char(((b[0] % 4) * 16 + b[1] / 16) as u8, url_safe),
            b64_char(((b[1] % 16) * 4 + b[2] / 64) as u8, url_safe),
            b64_char((b[2] % 64) as u8, url_safe),
        ] + b64_bytes(b.skip(3), url_safe)
    }
}

/// Base64 output is four characters per started group of three bytes.
pub proof fn lemma_b64_len(b: Seq<u8>, url_safe: bool)
    ensures
        b64_bytes(b, url_safe).len() == 4 * ((b.len() + 2) / 3),
    decreases b.len(),
{
    if b.len() > 2 {
        lemma_b64_len(b.skip(3), url_safe);
    }
}

/// Encodes a byte string as base64 ASCII.
pub fn to_base64(b: &Vec<u8>, url_safe: bool) -> (r: Vec<u8>)
    requires
        b@.len() * 2 <= usize::MAX,
    ensures
        r@ == b64_bytes(b@, url_safe),
{
    let n = b.len();
    let mut r: Vec<u8> = Vec::new();
    let mut pos: usize = 0;
    proof {
        assert(b@.skip(0) =~= b@);
    }
    while pos < n
        invariant
            0 <= pos <= n,
            n == b@.len(),
            r@ + b64_bytes(b@.skip(pos as int), url_safe) =~= b64_bytes(b@, url_safe),
        decreases n - pos,
    {
        let ghost old_pos = pos as int;
        let remaining = n - pos;
        let b0 = b[pos];
        let c0 = enc64(b0 / 4, url_safe);
        if remaining == 1 {
            let c1 = enc64((b0 % 4) * 16, url_safe);
            r.push(c0);
            r.push(c1);
            r.push(61);
            r.push(61);
            pos = n;
            proof {
                let rest = b@.skip(old_pos);
                assert(rest.len() == 1);
                assert(rest[0] == b0);
                assert(b@.skip(pos as int) =~= Seq::<u8>::empty());
                assert(r@ + b64_bytes(b@.skip(pos as int), url_safe) =~= b64_bytes(b@, url_safe));
            }
        } else if remaining == 2 {
            let b1 = b[pos + 1];
            let c1 = enc64((b0 % 4) * 16 + b1 / 16, url_safe);
            let c2 = enc64((b1 % 16) * 4, url_safe);
            r.push(c0);
            r.push(c1);
            r.push(c2);
            r.push(61);
            pos = n;
            proof {
                let rest = b@.skip(old_pos);
                assert(rest.len() == 2);
                assert(rest[0] == b0 && rest[1] == b1);
                assert(b@.skip(pos as int) =~= Seq::<u8>::empty());
                assert(r@ + b64_bytes(b@.skip(pos as int), url_safe) =~= b64_bytes(b@, url_safe));
            }
        } else {
            let b1 = b[pos + 1];
            let b2 = b[pos + 2];
            let c1 = enc64((b0 % 4) * 16 + b1 / 16, url_safe);
            let c2 = enc64((b1 % 16) * 4 + b2 / 64, url_safe);
            let c3 = enc64(b2 % 64, url_safe);
            r.push(c0);
            r.push(c1);
            r.push(c2);
            r.push(c3);
            pos = pos + 3;
            proof {
                let rest = b@.skip(old_pos);
                assert(rest.len() >= 3);
                assert(rest[0] == b0 && rest[1] == b1 && rest[2] == b2);
                assert(rest.skip(3) =~= b@.skip(pos as int));
                assert(r@ + b64_bytes(b@.skip(pos as int), url_safe) =~= b64_bytes(b@, url_safe));
            }
        }
    }
    proof {
        assert(b@.skip(n as int) =~= Seq::<u8>::empty());
        assert(r@ =~= b64_bytes(b@, url_safe));
    }
    r
}

/// Maps a six-bit value to its base64 alphabet character.
fn enc64(v: u8, url_safe: bool) -> (r: u8)
    ensures
        r == b64_char(v, url_safe),
{
    if v < 26 {
        65 + v
    } else if v < 52 {
        71 + v
    } else if v < 62 {
        v - 4
    } else if v == 62 {
        if url_safe {
            45
        } else {
            43
        }
    } else {
        if url_safe {
            95
        } else {
            47
        }
    }
}

} // verus!
