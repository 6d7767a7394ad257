//! Hex decoding and encoding, leading-zero-bit counts, and the canonical SHA-256 of a
//! student number and a nonce.

use sha2::Digest;
use vstd::prelude::*;
use vstd::string::StrSliceExecFns;
use vstd::string::StringSliceAdditionalSpecFns;
use vstd::utf8::encode_utf8;

verus! {

/// Fewest leading zero bits a solution must have to count as a share.
pub const MINIMUN_ZERO_BIT_LENGTH: u64 = 16;

/// Number of bytes in a SHA-256 digest.
pub const SHA256_LEN: usize = 32;

/// The SHA-256 digest of a byte sequence.
pub uninterp spec fn sha256_of(data: Seq<u8>) -> Seq<u8>;

/// Value of a hexadecimal digit, either case; `None` for any other character.
pub open spec fn hex_value(c: char) -> Option<u8> {
    if '0' <= c && c <= '9' {
        Some((c as u32 - '0' as u32) as u8)
    } else if 'a' <= c && c <= 'f' {
        Some((c as u32 - 'a' as u32 + 10) as u8)
    } else if 'A' <= c && c <= 'F' {
        Some((c as u32 - 'A' as u32 + 10) as u8)
    } else {
        None
    }
}

pub open spec fn is_hex_text(s: Seq<char>) -> bool {
    &&& s.len() % 2 == 0
    &&& forall|i: int| 0 <= i < s.len() ==> (#[trigger] hex_value(s[i])).is_some()
}

/// The bytes that a hex text spells, two digits per byte, high nibble first.
pub open spec fn hex_decode(s: Seq<char>) -> Seq<u8> {
    Seq::new(
        s.len() / 2,
        |i: int| (hex_value(s[2 * i]).unwrap() * 16 + hex_value(s[2 * i + 1]).unwrap()) as u8,
    )
}

/// Lowercase hexadecimal digit for a nibble.
pub open spec fn hex_digit(n: u8) -> char {
    if n < 10 {
        (('0' as u8) + n) as char
    } else {
        (('a' as u8) + n - 10) as char
    }
}

/// Lowercase hex text of a byte sequence, two digits per byte.
pub open spec fn hex_encode(b: Seq<u8>) -> Seq<char> {
    Seq::new(
        2 * b.len(),
        |i: int| if i % 2 == 0 { hex_digit(b[i / 2] / 16) } else { hex_digit(b[i / 2] % 16) },
    )
}

/// Leading zero bits of one byte.
pub open spec fn byte_leading_zeros(b: u8) -> nat {
    if b >= 128 {
        0
    } else if b >= 64 {
        1
    } else if b >= 32 {
        2
    } else if b >= 16 {
        3
    } else if b >= 8 {
        4
    } else if b >= 4 {
        5
    } else if b >= 2 {
        6
    } else if b >= 1 {
        7
    } else {
        8
    }
}

/// Contiguous zero bits counted from the most significant end of a byte sequence.
pub open spec fn leading_zero_bits(b: Seq<u8>) -> nat
    decreases b.len(),
{
    if b.len() == 0 {
        0
    } else if b[0] == 0 {
        8 + leading_zero_bits(b.drop_first())
    } else {
        byte_leading_zeros(b[0])
    }
}

/// The only accepted preimage: the UTF-8 bytes of the student number followed by those
/// of the nonce.
pub open spec fn preimage(student_number: Seq<char>, nonce: Seq<char>) -> Seq<u8> {
    encode_utf8(student_number) + encode_utf8(nonce)
}

/// Lowercase hex text of the SHA-256 digest of the preimage.
pub open spec fn canonical_hash(student_number: Seq<char>, nonce: Seq<char>) -> Seq<char> {
    hex_encode(sha256_of(preimage(student_number, nonce)))
}

/// The larger of two integers.
pub fn max(a: u64, b: u64) -> (r: u64)
    ensures
        r == if a > b { a } else { b },
{
    if a > b { a } else { b }
}

fn hex_digit_value(c: char) -> (r: Option<u8>)
    ensures
        r == hex_value(c),
{
    if '0' <= c && c <= '9' {
        Some((c as u32 - '0' as u32) as u8)
    } else if 'a' <= c && c <= 'f' {
        Some((c as u32 - 'a' as u32 + 10) as u8)
    } else if 'A' <= c && c <= 'F' {
        Some((c as u32 - 'A' as u32 + 10) as u8)
    } else {
        None
    }
}

/// Decodes hex text into bytes; fails on odd length or a character that is no hex digit.
pub fn hash_to_sha256_buffer(hash: &String) -> (r: Result<Vec<u8>, ()>)
    ensures
        r is Ok <==> is_hex_text(hash@),
        r matches Ok(b) ==> b@ == hex_decode(hash@),
{
    let s = hash.as_str();
    let n = s.unicode_len();
    if n % 2 != 0 {
        return Err(());
    }
    let mut buffer: Vec<u8> = Vec::new();
    let mut i: usize = 0;
    while i < n
        invariant
            n == hash@.len(),
            s@ == hash@,
            n % 2 == 0,
            i % 2 == 0,
            i <= n,
            buffer@.len() == i / 2,
            forall|j: int| 0 <= j < i ==> (#[trigger] hex_value(hash@[j])).is_some(),
            forall|k: int|
                0 <= k < i / 2 ==> #[trigger] buffer@[k] == (hex_value(hash@[2 * k]).unwrap() * 16
                    + hex_value(hash@[2 * k + 1]).unwrap()) as u8,
        decreases n - i,
    {
        let upper = match hex_digit_value(s.get_char(i)) {
            Some(v) => v,
            None => {
                return Err(());
            },
        };
        let lower = match hex_digit_value(s.get_char(i + 1)) {
            Some(v) => v,
            None => {
                assert(hex_value(hash@[i + 1 as int]).is_none());
                return Err(());
            },
        };
        assert(upper < 16 && lower < 16);
        let byte: u8 = upper * 16 + lower;
        buffer.push(byte);
        i = i + 2;
    }
    assert(buffer@ =~= hex_decode(hash@));
    Ok(buffer)
}

/// Counts the zero bits at the most significant end of a byte buffer.
pub fn count_leading_zero_bits(buffer: &[u8]) -> (r: u64)
    requires
        buffer@.len() <= 0x1000_0000_0000_0000,
    ensures
        r == leading_zero_bits(buffer@),
{
    let mut count: u64 = 0;
    let mut i: usize = 0;
    assert(buffer@.subrange(0, buffer@.len() as int) =~= buffer@);
    while i < buffer.len()
        invariant
            buffer@.len() <= 0x1000_0000_0000_0000,
            i <= buffer@.len(),
            count == 8 * i,
            leading_zero_bits(buffer@) == count + leading_zero_bits(buffer@.subrange(i as int, buffer@.len() as int)),
        decreases buffer@.len() - i,
    {
        let ghost rest = buffer@.subrange(i as int, buffer@.len() as int);
        let byte = buffer[i];
        if byte != 0 {
            let bits: u64 = if byte >= 128 {
                0
            } else if byte >= 64 {
                1
            } else if byte >= 32 {
                2
            } else if byte >= 16 {
                3
            } else if byte >= 8 {
                4
            } else if byte >= 4 {
                5
            } else if byte >= 2 {
                6
            } else {
                7
            };
            assert(rest[0] == byte);
            return count + bits;
        }
        assert(rest.drop_first() =~= buffer@.subrange(i + 1, buffer@.len() as int));
        count = count + 8;
        i = i + 1;
    }
    assert(buffer@.subrange(i as int, buffer@.len() as int).len() == 0);
    count
}

fn hex_digit_str(n: u8) -> (r: &'static str)
    requires
        n < 16,
    ensures
        r@ == seq![hex_digit(n)],
{
    proof {
        reveal_strlit("0");
        reveal_strlit("1");
        reveal_strlit("2");
        reveal_strlit("3");
        reveal_strlit("4");
        reveal_strlit("5");
        reveal_strlit("6");
        reveal_strlit("7");
        reveal_strlit("8");
        reveal_strlit("9");
        reveal_strlit("a");
        reveal_strlit("b");
        reveal_strlit("c");
        reveal_strlit("d");
        reveal_strlit("e");
        reveal_strlit("f");
    }
    match n {
        0 => "0",
        1 => "1",
        2 => "2",
        3 => "3",
        4 => "4",
        5 => "5",
        6 => "6",
        7 => "7",
        8 => "8",
        9 => "9",
        10 => "a",
        11 => "b",
        12 => "c",
        13 => "d",
        14 => "e",
        _ => "f",
    }
}

/// Lowercase hex text of a digest, two digits per byte.
pub fn sha245_to_string(sha256_buffer: &[u8]) -> (r: String)
    ensures
        r@ == hex_encode(sha256_buffer@),
{
    let mut result = String::new();
    let mut i: usize = 0;
    while i < sha256_buffer.len()
        invariant
            i <= sha256_buffer@.len(),
            result@ =~= hex_encode(sha256_buffer@.subrange(0, i as int)),
        decreases sha256_buffer@.len() - i,
    {
        let byte = sha256_buffer[i];
        result.append(hex_digit_str(byte / 16));
        result.append(hex_digit_str(byte % 16));
        i = i + 1;
        assert(result@ =~= hex_encode(sha256_buffer@.subrange(0, i as int)));
    }
    assert(sha256_buffer@.subrange(0, i as int) =~= sha256_buffer@);
    result
}

/// Relies on sha2's `Sha256::digest`: the SHA-256 digest of the input, 32 bytes long.
#[verifier::external_body]
fn sha256_digest(data: &Vec<u8>) -> (r: Vec<u8>)
    ensures
        r@ == sha256_of(data@),
        r@.len() == SHA256_LEN,
{
    sha2::Sha256::digest(data.as_slice()).to_vec()
}

/// Hex text of the SHA-256 digest of the student number followed by the nonce.
pub fn canonical_sha256(student_number: &String, nonce: &String) -> (r: String)
    ensures
        r@ == canonical_hash(student_number@, nonce@),
        r@.len() == 2 * SHA256_LEN,
{
    let mut data = student_number.as_str().as_bytes_vec();
    let mut tail = nonce.as_str().as_bytes_vec();
    data.append(&mut tail);
    let digest = sha256_digest(&data);
    sha245_to_string(digest.as_slice())
}

} // verus!
