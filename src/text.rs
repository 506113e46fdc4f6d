//! Text rendering used by the canonical pre-image, and the digest primitive.
use vstd::prelude::*;
use sha2::Digest;

verus! {

/// A 256-bit digest; byte 0 is the most significant byte of its hex form.
pub type Hash = [u8; 32];

/// What SHA-256 returns on the UTF-8 bytes of a text.
pub uninterp spec fn sha256_of(s: Seq<char>) -> Seq<u8>;

/// Relies on `sha2::Sha256::digest`: the SHA-256 digest of the UTF-8 bytes
/// of `s`, which depends on `s` alone.
#[verifier::external_body]
pub(crate) fn sha256_text(s: &str) -> (r: Hash)
    ensures
        r@ == sha256_of(s@),
{
    sha2::Sha256::digest(s.as_bytes()).into()
}

/// Relies on `String::push`: appends one character.
#[verifier::external_body]
pub(crate) fn push_char(s: &mut String, c: char)
    ensures
        final(s)@ == old(s)@.push(c),
{
    s.push(c)
}

/// Relies on `String::push_str`: appends the characters of `t`.
#[verifier::external_body]
pub(crate) fn push_text(s: &mut String, t: &str)
    ensures
        final(s)@ == old(s)@ + t@,
{
    s.push_str(t)
}

/// The character of a digit below sixteen, in lower case.
pub open spec fn digit_char(n: nat) -> char {
    if n < 10 {
        (48 + n) as u8 as char
    } else {
        (97 + (n - 10)) as u8 as char
    }
}

/// Decimal rendering, without leading zeros.
pub open spec fn decimal(n: nat) -> Seq<char>
    decreases n,
{
    if n < 10 {
        seq![digit_char(n)]
    } else {
        decimal(n / 10).push(digit_char(n % 10))
    }
}

/// Lower-case hex rendering, two digits per byte, in order.
pub open spec fn hex(b: Seq<u8>) -> Seq<char>
    decreases b.len(),
{
    if b.len() == 0 {
        Seq::empty()
    } else {
        hex(b.drop_last()).push(digit_char(b.last() as nat / 16)).push(
            digit_char(b.last() as nat % 16),
        )
    }
}

fn digit(n: u8) -> (r: char)
    requires
        n < 16,
    ensures
        r == digit_char(n as nat),
{
    if n < 10 {
        (48u8 + n) as char
    } else {
        (97u8 + (n - 10)) as char
    }
}

/// Appends the decimal rendering of `n`.
pub fn push_decimal(s: &mut String, n: u64)
    ensures
        final(s)@ == old(s)@ + decimal(n as nat),
    decreases n,
{
    if n >= 10 {
        push_decimal(s, n / 10);
    }
    push_char(s, digit((n % 10) as u8));
    assert(final(s)@ =~= old(s)@ + decimal(n as nat));
}

/// Appends the hex rendering of `b`.
pub fn push_hex(s: &mut String, b: &Hash)
    ensures
        final(s)@ == old(s)@ + hex(b@),
{
    let ghost start = s@;
    let mut i: usize = 0;
    while i < 32
        invariant
            i <= 32,
            s@ == start + hex(b@.take(i as int)),
        decreases 32 - i,
    {
        let x = b[i];
        push_char(s, digit(x / 16));
        push_char(s, digit(x % 16));
        proof {
            let t = b@.take(i as int + 1);
            assert(t.drop_last() =~= b@.take(i as int));
            assert(t.last() == x);
        }
        i = i + 1;
        assert(s@ =~= start + hex(b@.take(i as int)));
    }
    assert(b@.take(32) =~= b@);
}

} // verus!
