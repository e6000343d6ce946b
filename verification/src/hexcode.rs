use vstd::prelude::*;

verus! {

// A move is an arbitrary byte sequence, so it is carried into the store's
// textual statement form as a hexadecimal blob literal. The encoding must
// round-trip every byte exactly — embedded zero bytes and quote characters
// included — which is proved here once and for all.

/// The lowercase hexadecimal digit for a value below sixteen.
pub open spec fn hex_digit(n: int) -> char {
    if n == 0 {
        '0'
    } else if n == 1 {
        '1'
    } else if n == 2 {
        '2'
    } else if n == 3 {
        '3'
    } else if n == 4 {
        '4'
    } else if n == 5 {
        '5'
    } else if n == 6 {
        '6'
    } else if n == 7 {
        '7'
    } else if n == 8 {
        '8'
    } else if n == 9 {
        '9'
    } else if n == 10 {
        'a'
    } else if n == 11 {
        'b'
    } else if n == 12 {
        'c'
    } else if n == 13 {
        'd'
    } else if n == 14 {
        'e'
    } else {
        'f'
    }
}

/// The value of a lowercase hexadecimal digit, or -1 for any other
/// character.
pub open spec fn hex_val(c: char) -> int {
    if c == '0' {
        0
    } else if c == '1' {
        1
    } else if c == '2' {
        2
    } else if c == '3' {
        3
    } else if c == '4' {
        4
    } else if c == '5' {
        5
    } else if c == '6' {
        6
    } else if c == '7' {
        7
    } else if c == '8' {
        8
    } else if c == '9' {
        9
    } else if c == 'a' {
        10
    } else if c == 'b' {
        11
    } else if c == 'c' {
        12
    } else if c == 'd' {
        13
    } else if c == 'e' {
        14
    } else if c == 'f' {
        15
    } else {
        -1
    }
}

/// Lowercase hexadecimal rendering of a byte sequence: two digits per
/// byte, high nibble first.
pub open spec fn hex_of(bytes: Seq<u8>) -> Seq<char>
    decreases bytes.len(),
{
    if bytes.len() == 0 {
        Seq::<char>::empty()
    } else {
        seq![
            hex_digit(bytes[0] as int / 16),
            hex_digit(bytes[0] as int % 16),
        ] + hex_of(bytes.skip(1))
    }
}

/// The bytes denoted by a hexadecimal rendering, or `None` when the text
/// is not one: odd length, or a character that is no lowercase digit.
pub open spec fn hex_decode_spec(s: Seq<char>) -> Option<Seq<u8>>
    decreases s.len(),
{
    if s.len() == 0 {
        Some(Seq::<u8>::empty())
    } else if s.len() == 1 {
        None
    } else {
        let hi = hex_val(s[0]);
        let lo = hex_val(s[1]);
        if hi < 0 || lo < 0 {
            None
        } else {
            match hex_decode_spec(s.skip(2)) {
                Some(rest) => Some(seq![(hi * 16 + lo) as u8] + rest),
                None => None,
            }
        }
    }
}

/// The hexadecimal rendering is twice as long as its input.
pub proof fn lemma_hex_of_len(bytes: Seq<u8>)
    ensures
        hex_of(bytes).len() == 2 * bytes.len(),
    decreases bytes.len(),
{
    if bytes.len() > 0 {
        lemma_hex_of_len(bytes.skip(1));
    }
}

/// Decoding inverts encoding: every byte sequence — embedded zero bytes
/// and quote characters included — is recovered exactly from its
/// hexadecimal rendering.
pub proof fn lemma_hex_round_trip(bytes: Seq<u8>)
    ensures
        hex_decode_spec(hex_of(bytes)) == Some(bytes),
    decreases bytes.len(),
{
    if bytes.len() == 0 {
        assert(hex_of(bytes) =~= Seq::<char>::empty());
        assert(hex_decode_spec(hex_of(bytes)) == Some(Seq::<u8>::empty()));
        assert(bytes =~= Seq::<u8>::empty());
    } else {
        let b = bytes[0];
        let s = hex_of(bytes);
        lemma_hex_of_len(bytes.skip(1));
        assert(s.len() == 2 + hex_of(bytes.skip(1)).len());
        assert(s.skip(2) =~= hex_of(bytes.skip(1)));
        lemma_hex_round_trip(bytes.skip(1));
        assert(hex_val(s[0]) == b as int / 16 && hex_val(s[1]) == b as int % 16) by {
            assert(0 <= b as int / 16 < 16 && 0 <= b as int % 16 < 16);
        }
        assert(hex_val(s[0]) * 16 + hex_val(s[1]) == b as int);
        assert(hex_decode_spec(s) == Some(seq![b] + bytes.skip(1)));
        assert(seq![b] + bytes.skip(1) =~= bytes);
    }
}

/// Relies on `hex::encode` of the hex crate: it renders each input byte as
/// two lowercase hexadecimal digits, high nibble first.
#[verifier::external_body]
pub(crate) fn hex_encode(bytes: &Vec<u8>) -> (r: String)
    ensures
        r@ == hex_of(bytes@),
{
    hex::encode(bytes.as_slice())
}

fn hex_nibble(c: char) -> (r: Option<u8>)
    ensures
        hex_val(c) >= 0 ==> r == Some(hex_val(c) as u8),
        hex_val(c) < 0 ==> r is None,
{
    match c {
        '0' => Some(0),
        '1' => Some(1),
        '2' => Some(2),
        '3' => Some(3),
        '4' => Some(4),
        '5' => Some(5),
        '6' => Some(6),
        '7' => Some(7),
        '8' => Some(8),
        '9' => Some(9),
        'a' => Some(10),
        'b' => Some(11),
        'c' => Some(12),
        'd' => Some(13),
        'e' => Some(14),
        'f' => Some(15),
        _ => None,
    }
}

/// Decodes a lowercase hexadecimal rendering back into bytes; `None`
/// exactly on text that no byte sequence renders to.
pub fn hex_decode(s: &str) -> (r: Option<Vec<u8>>)
    ensures
        match r {
            Some(v) => hex_decode_spec(s@) == Some(v@),
            None => hex_decode_spec(s@) is None,
        },
{
    let n = s.unicode_len();
    let mut out: Vec<u8> = Vec::new();
    let mut i: usize = 0;
    proof {
        assert(s@.skip(0) =~= s@);
        if hex_decode_spec(s@) is Some {
            assert(out@ + hex_decode_spec(s@)->Some_0 =~= hex_decode_spec(s@)->Some_0);
        }
    }
    while i + 1 < n
        invariant
            n == s@.len(),
            i <= n,
            i % 2 == 0,
            match hex_decode_spec(s@.skip(i as int)) {
                Some(t) => hex_decode_spec(s@) == Some(out@ + t),
                None => hex_decode_spec(s@) is None,
            },
        decreases n - i,
    {
        let hi = s.get_char(i);
        let lo = s.get_char(i + 1);
        proof {
            assert(s@.skip(i as int).len() >= 2);
            assert(s@.skip(i as int)[0] == s@[i as int]);
            assert(s@.skip(i as int)[1] == s@[i as int + 1]);
            assert(s@.skip(i as int).skip(2) =~= s@.skip(i as int + 2));
        }
        match (hex_nibble(hi), hex_nibble(lo)) {
            (Some(h), Some(l)) => {
                out.push(h * 16 + l);
                i += 2;
            },
            _ => {
                return None;
            },
        }
    }
    if i == n {
        proof {
            assert(s@.skip(i as int) =~= Seq::<char>::empty());
            assert(out@ + Seq::<u8>::empty() =~= out@);
        }
        Some(out)
    } else {
        proof {
            assert(s@.skip(i as int).len() == 1);
        }
        None
    }
}

} // verus!
