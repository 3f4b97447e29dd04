//! Hex-encoded SHA-256 digests for the build cache, and the random session
//! token that guards the workbench.

use vstd::prelude::*;
use crate::text::push_char;

verus! {

/// The lowercase hexadecimal digit of a value below 16.
pub open spec fn hex_digit(n: nat) -> char {
    if n < 10 {
        crate::text::digit_char(n)
    } else if n == 10 {
        'a'
    } else if n == 11 {
        'b'
    } else if n == 12 {
        'c'
    } else if n == 13 {
        'd'
    } else if n == 14 {
        'e'
    } else {
        'f'
    }
}

/// Two lowercase hexadecimal digits per byte, high nibble first.
pub open spec fn hex_of(b: Seq<u8>) -> Seq<char>
    decreases b.len(),
{
    if b.len() == 0 {
        Seq::empty()
    } else {
        hex_of(b.drop_last()) + seq![hex_digit((b.last() / 16) as nat), hex_digit((b.last() % 16) as nat)]
    }
}

/// Every byte takes two digits.
pub proof fn lemma_hex_len(b: Seq<u8>)
    ensures
        hex_of(b).len() == 2 * b.len(),
    decreases b.len(),
{
    if b.len() > 0 {
        lemma_hex_len(b.drop_last());
    }
}

fn exec_hex_digit(n: u8) -> (c: char)
    requires
        n < 16,
    ensures
        c == hex_digit(n as nat),
{
    if n == 0 { '0' } else if n == 1 { '1' } else if n == 2 { '2' } else if n == 3 { '3' }
    else if n == 4 { '4' } else if n == 5 { '5' } else if n == 6 { '6' } else if n == 7 { '7' }
    else if n == 8 { '8' } else if n == 9 { '9' } else if n == 10 { 'a' } else if n == 11 { 'b' }
    else if n == 12 { 'c' } else if n == 13 { 'd' } else if n == 14 { 'e' } else { 'f' }
}

/// The lowercase hexadecimal spelling of a byte sequence.
pub fn hex_string(bytes: &[u8]) -> (s: String)
    ensures
        s@ == hex_of(bytes@),
{
    let mut s = String::new();
    let mut i: usize = 0;
    while i < bytes.len()
        invariant
            i <= bytes@.len(),
            s@ == hex_of(bytes@.take(i as int)),
        decreases bytes@.len() - i,
    {
        proof {
            assert(bytes@.take(i + 1).drop_last() =~= bytes@.take(i as int));
            assert(bytes@.take(i + 1).last() == bytes@[i as int]);
        }
        let b = bytes[i];
        push_char(&mut s, exec_hex_digit(b / 16));
        push_char(&mut s, exec_hex_digit(b % 16));
        i = i + 1;
    }
    proof {
        assert(bytes@.take(i as int) =~= bytes@);
    }
    s
}

/// The SHA-256 digest of a byte sequence.
pub uninterp spec fn sha256_digest(data: Seq<u8>) -> Seq<u8>;

/// Calls `sha2::Sha256::digest` (through `sha2::Digest`), whose output is
/// the 32-byte SHA-256 digest of the input; nothing else about the digest
/// is stated.
#[verifier::external_body]
fn digest_bytes(data: &[u8]) -> (d: Vec<u8>)
    ensures
        d@ == sha256_digest(data@),
        d@.len() == 32,
{
    <sha2::Sha256 as sha2::Digest>::digest(data).to_vec()
}

/// The lowercase hexadecimal SHA-256 digest of a byte sequence, as the build
/// cache records it.
pub fn sha256(bytes: &[u8]) -> (s: String)
    ensures
        s@ == hex_of(sha256_digest(bytes@)),
        s@.len() == 64,
{
    let digest = digest_bytes(bytes);
    proof {
        lemma_hex_len(digest@);
    }
    hex_string(digest.as_slice())
}

/// Calls `getrandom::fill`, which fills the buffer with bytes from the
/// system's random source or fails with the source's error, given here by
/// its message; it never changes the buffer's length. What the bytes are is
/// chance and is not stated.
#[verifier::external_body]
fn fill_random(dest: &mut Vec<u8>) -> (r: Result<(), String>)
    ensures
        final(dest)@.len() == old(dest)@.len(),
{
    match getrandom::fill(dest.as_mut_slice()) {
        Ok(()) => Ok(()),
        Err(e) => Err(format!("{e}")),
    }
}

/// No random bytes were available for a session token; the message is the
/// random source's.
#[derive(Debug)]
pub struct RandomFailure {
    pub message: String,
}

/// A fresh session token: 32 random bytes, in lowercase hexadecimal.
pub fn session_token() -> (r: Result<String, RandomFailure>)
    ensures
        r matches Ok(t) ==> t@.len() == 64 && exists|b: Seq<u8>| b.len() == 32 && t@ == hex_of(b),
{
    let mut bytes: Vec<u8> = Vec::new();
    let mut i: usize = 0;
    while i < 32
        invariant
            i <= 32,
            bytes@.len() == i,
        decreases 32 - i,
    {
        bytes.push(0u8);
        i = i + 1;
    }
    match fill_random(&mut bytes) {
        Ok(()) => {
            let token = hex_string(bytes.as_slice());
            proof {
                lemma_hex_len(bytes@);
            }
            Ok(token)
        },
        Err(message) => Err(RandomFailure { message }),
    }
}

} // verus!
