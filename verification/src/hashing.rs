//! Credential hashing: a deterministic, one-way transformation of a plaintext
//! password into a fixed-length, hex-encoded digest string. The digest is
//! computed at account creation and again at login, and the two are compared;
//! the plaintext itself is never stored.

use vstd::prelude::*;

verus! {

/// What SHA-256 returns for the UTF-8 bytes of a string. The digest is a pure
/// function of the characters alone: no salt, no randomness, no ambient state.
pub uninterp spec fn sha256_digest_of(password: Seq<char>) -> Seq<u8>;

/// Relies on sha2's `Sha256` (`update` then `finalize`): the digest depends on
/// the input bytes alone and is exactly 32 bytes long.
#[verifier::external_body]
fn sha256_of_str(password: &str) -> (digest: Vec<u8>)
    ensures
        digest@ == sha256_digest_of(password@),
        digest@.len() == 32,
{
    let mut hasher = <sha2::Sha256 as sha2::Digest>::new();
    sha2::Digest::update(&mut hasher, password.as_bytes());
    sha2::Digest::finalize(hasher).to_vec()
}

/// The lower-case hex digit standing for a value below 16.
pub open spec fn hex_char_of(v: u8) -> char {
    if v == 0 {
        '0'
    } else if v == 1 {
        '1'
    } else if v == 2 {
        '2'
    } else if v == 3 {
        '3'
    } else if v == 4 {
        '4'
    } else if v == 5 {
        '5'
    } else if v == 6 {
        '6'
    } else if v == 7 {
        '7'
    } else if v == 8 {
        '8'
    } else if v == 9 {
        '9'
    } else if v == 10 {
        'a'
    } else if v == 11 {
        'b'
    } else if v == 12 {
        'c'
    } else if v == 13 {
        'd'
    } else if v == 14 {
        'e'
    } else {
        'f'
    }
}

/// The lower-case hex rendering of a byte sequence: two digits per byte,
/// high nibble first.
pub open spec fn hex_of(bytes: Seq<u8>) -> Seq<char>
    decreases bytes.len(),
{
    if bytes.len() == 0 {
        Seq::empty()
    } else {
        seq![hex_char_of(bytes.first() / 16), hex_char_of(bytes.first() % 16)] + hex_of(
            bytes.drop_first(),
        )
    }
}

pub proof fn lemma_hex_of_len(bytes: Seq<u8>)
    ensures
        hex_of(bytes).len() == 2 * bytes.len(),
    decreases bytes.len(),
{
    if bytes.len() > 0 {
        lemma_hex_of_len(bytes.drop_first());
    }
}

pub(crate) fn hex_digit_str(v: u8) -> (r: &'static str)
    requires
        v < 16,
    ensures
        r@ =~= seq![hex_char_of(v)],
{
    proof {
        reveal_strlit("0");
        reveal_strlit("1");
        reveal_strlit("2");
        reveal_strlit("3");
        reveal_strlit("4");
        reveal_strlit("5");
        reveal_strlit("6");
        reveal_strlit("7");
        reveal_strlit("8");
        reveal_strlit("9");
        reveal_strlit("a");
        reveal_strlit("b");
        reveal_strlit("c");
        reveal_strlit("d");
        reveal_strlit("e");
        reveal_strlit("f");
    }
    if v == 0 {
        "0"
    } else if v == 1 {
        "1"
    } else if v == 2 {
        "2"
    } else if v == 3 {
        "3"
    } else if v == 4 {
        "4"
    } else if v == 5 {
        "5"
    } else if v == 6 {
        "6"
    } else if v == 7 {
        "7"
    } else if v == 8 {
        "8"
    } else if v == 9 {
        "9"
    } else if v == 10 {
        "a"
    } else if v == 11 {
        "b"
    } else if v == 12 {
        "c"
    } else if v == 13 {
        "d"
    } else if v == 14 {
        "e"
    } else {
        "f"
    }
}

fn bytes_to_hex(bytes: &Vec<u8>) -> (out: String)
    ensures
        out@ == hex_of(bytes@),
{
    let mut out = String::new();
    let n = bytes.len();
    proof {
        assert(bytes@.skip(0) =~= bytes@);
    }
    for i in 0..n
        invariant
            n == bytes@.len(),
            hex_of(bytes@) =~= out@ + hex_of(bytes@.skip(i as int)),
    {
        let b = bytes[i];
        out.append(hex_digit_str(b / 16));
        out.append(hex_digit_str(b % 16));
        proof {
            assert(bytes@.skip(i as int).first() == bytes@[i as int]);
            assert(bytes@.skip(i as int).drop_first() =~= bytes@.skip(i + 1));
        }
    }
    proof {
        assert(bytes@.skip(n as int) =~= Seq::<u8>::empty());
    }
    out
}

/// The digest string that the library stores for a password: the lower-case
/// hex rendering of its SHA-256 digest. Deterministic: one plaintext has one
/// digest, on every call and across process restarts.
pub open spec fn spec_password_digest(password: Seq<char>) -> Seq<char> {
    hex_of(sha256_digest_of(password))
}

/// Hash a plaintext password into its digest string. Total: no error path.
pub fn hash_password(password: &str) -> (digest: String)
    ensures
        digest@ == spec_password_digest(password@),
        digest@.len() == 64,
{
    let bytes = sha256_of_str(password);
    proof {
        lemma_hex_of_len(bytes@);
    }
    bytes_to_hex(&bytes)
}

} // verus!
