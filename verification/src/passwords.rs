//! Password hashes, session tokens and other random names.
use argon2::password_hash::rand_core::OsRng;
use argon2::password_hash::SaltString;
use argon2::{Argon2, PasswordHash, PasswordHasher, PasswordVerifier};
use sha2::{Digest, Sha256};
use subtle::ConstantTimeEq;
use vstd::prelude::*;
use vstd::string::StringExecFns;

use crate::errors::Failure;
use crate::text::{begins_with, chars_of, digit, digits, starts_with};

verus! {

/// What Argon2 says of a password and a hash in its string form: whether the hash
/// can be read and was made from the password.
pub uninterp spec fn argon2_accepts(password: Seq<char>, hash: Seq<char>) -> bool;

/// Most bytes of a password that Argon2 takes.
pub const MAX_PASSWORD: usize = 0xffff_ffff;

/// Most lanes that Argon2 works in.
pub const MAX_LANES: u64 = 0xff_ffff;

/// The number that goes on with the digits of `s` from place `i` on, after `n`.
pub open spec fn number_from(s: Seq<char>, i: int, n: nat) -> nat
    decreases s.len() - i,
{
    if 0 <= i < s.len() && '0' <= s[i] <= '9' {
        number_from(s, i + 1, n * 10 + (s[i] as nat - 48) as nat)
    } else {
        n
    }
}

/// The number of lanes is named at place `i` of a hash in its string form.
pub open spec fn names_lanes(hash: Seq<char>, i: int) -> bool {
    0 <= i < hash.len() - 1 && hash[i] == 'p' && hash[i + 1] == '='
}

/// A hash in its string form names more lanes than Argon2 works in.
pub open spec fn too_many_lanes(hash: Seq<char>) -> bool {
    exists|i: int| #[trigger] names_lanes(hash, i) && number_from(hash, i + 2, 0) > MAX_LANES
}

proof fn lemma_number_grows(s: Seq<char>, i: int, n: nat)
    ensures
        n <= number_from(s, i, n),
    decreases s.len() - i,
{
    if 0 <= i < s.len() && '0' <= s[i] <= '9' {
        lemma_number_grows(s, i + 1, n * 10 + (s[i] as nat - 48) as nat);
    }
}

/// Whether the digits from place `at` on spell more than `MAX_LANES`.
fn exceeds_lanes(chars: &Vec<char>, at: usize) -> (r: bool)
    requires
        at <= chars.len(),
    ensures
        r == (number_from(chars@, at as int, 0) > MAX_LANES),
{
    let mut n: u64 = 0;
    let mut i: usize = at;
    while i < chars.len() && '0' <= chars[i] && chars[i] <= '9'
        invariant
            i <= chars.len(),
            n <= MAX_LANES,
            number_from(chars@, at as int, 0) == number_from(chars@, i as int, n as nat),
        decreases chars.len() - i,
    {
        n = n * 10 + (chars[i] as u64 - 48);
        i += 1;
        if n > MAX_LANES {
            proof {
                lemma_number_grows(chars@, i as int, n as nat);
            }
            return true;
        }
    }
    false
}

/// Finds out whether a hash names more lanes than Argon2 works in.
fn find_too_many_lanes(hash: &str) -> (r: bool)
    ensures
        r == too_many_lanes(hash@),
{
    let chars = chars_of(hash);
    let mut i: usize = 0;
    while i < chars.len()
        invariant
            chars@ == hash@,
            i <= chars.len(),
            forall|k: int|
                k < i && #[trigger] names_lanes(hash@, k) ==> number_from(hash@, k + 2, 0)
                    <= MAX_LANES,
        decreases chars.len() - i,
    {
        if chars.len() - i > 1 && chars[i] == 'p' && chars[i + 1] == '=' && exceeds_lanes(
            &chars,
            i + 2,
        ) {
            proof {
                assert(names_lanes(hash@, i as int));
            }
            return true;
        }
        i += 1;
    }
    false
}

/// The 32 bytes of the SHA-256 digest.
pub uninterp spec fn sha256_digest(bytes: Seq<u8>) -> Seq<u8>;

/// `PasswordHasher::hash_password` of `Argon2`, with a salt from
/// `SaltString::generate`: a new hash in its string form, which names an Argon2
/// algorithm first, one lane, and which `verify_password` accepts for the same password.
/// It comes for every password that is not too long. Which hash comes out depends on
/// the salt.
#[verifier::external_body]
pub(crate) fn argon2_hash(password: &str) -> (r: Result<String, String>)
    ensures
        r is Ok <==> utf8(password@).len() <= MAX_PASSWORD,
        r is Ok ==> begins_with(r->Ok_0@, "$argon2"@) && !too_many_lanes(r->Ok_0@)
            && argon2_accepts(password@, r->Ok_0@),
{
    let salt = SaltString::generate(&mut OsRng);
    Argon2::default()
        .hash_password(password.as_bytes(), &salt)
        .map(|hash| hash.to_string())
        .map_err(|err| err.to_string())
}

/// `PasswordHash::new` and `PasswordVerifier::verify_password` of `Argon2`:
/// whether the hash can be read, and was made from the password. The number of lanes is
/// multiplied before it is tested, so a hash that names too many is left out.
#[verifier::external_body]
pub(crate) fn argon2_verify(password: &str, hash: &str) -> (r: bool)
    requires
        !too_many_lanes(hash@),
    ensures
        r == argon2_accepts(password@, hash@),
{
    match PasswordHash::new(hash) {
        Ok(parsed) => Argon2::default().verify_password(password.as_bytes(), &parsed).is_ok(),
        Err(_) => false,
    }
}

/// `Sha256`: the digest of `bytes`, 32 bytes.
#[verifier::external_body]
pub(crate) fn sha256(bytes: &[u8]) -> (r: [u8; 32])
    ensures
        r@ == sha256_digest(bytes@),
{
    let mut hasher = Sha256::new();
    hasher.update(bytes);
    hasher.finalize().into()
}

/// `ConstantTimeEq::ct_eq` of byte slices: whether they are the same.
#[verifier::external_body]
pub(crate) fn same_bytes(a: &[u8], b: &[u8]) -> (r: bool)
    ensures
        r == (a@ == b@),
{
    a.ct_eq(b).into()
}

/// `rand::random`: twelve random bytes, of which nothing is claimed.
#[verifier::external_body]
pub(crate) fn random_bytes() -> [u8; 12] {
    rand::random()
}

/// A hexadecimal digit.
pub open spec fn hex_digit(d: int) -> char {
    if d < 10 {
        (48 + d) as char
    } else {
        (87 + d) as char
    }
}

/// Bytes in hexadecimal, two small digits each.
pub open spec fn hex(bytes: Seq<u8>) -> Seq<char>
    decreases bytes.len(),
{
    if bytes.len() == 0 {
        Seq::empty()
    } else {
        hex(bytes.drop_last()).push(hex_digit(bytes.last() as int / 16)).push(
            hex_digit(bytes.last() as int % 16),
        )
    }
}

fn hex_char(d: u8) -> (c: char)
    requires
        d < 16,
    ensures
        c == hex_digit(d as int),
{
    if d < 10 {
        (48 + d) as char
    } else {
        (87 + d) as char
    }
}

/// Bytes in hexadecimal.
pub fn to_hex(bytes: &[u8]) -> (r: String)
    ensures
        r@ == hex(bytes@),
{
    let mut out: String = String::new();
    let mut i: usize = 0;
    proof {
        assert(bytes@.take(0) =~= Seq::<u8>::empty());
    }
    while i < bytes.len()
        invariant
            i <= bytes.len(),
            out@ == hex(bytes@.take(i as int)),
        decreases bytes.len() - i,
    {
        let b: u8 = bytes[i];
        out.push(hex_char(b / 16));
        out.push(hex_char(b % 16));
        proof {
            assert(bytes@.take(i + 1).drop_last() =~= bytes@.take(i as int));
            assert(bytes@.take(i + 1).last() == b);
        }
        i += 1;
    }
    proof {
        assert(bytes@.take(i as int) =~= bytes@);
    }
    out
}

/// The bytes of a text in UTF-8.
pub open spec fn utf8(text: Seq<char>) -> Seq<u8> {
    vstd::utf8::encode_utf8(text)
}

/// The SHA-256 digest of a text, in hexadecimal.
pub fn sha256_hex(value: &str) -> (r: String)
    ensures
        r@ == hex(sha256_digest(utf8(value@))),
{
    let digest = sha256(value.as_bytes());
    to_hex(digest.as_slice())
}

/// Whether a hash is one of the present kind.
pub open spec fn is_argon2(hash: Seq<char>) -> bool {
    begins_with(hash, "$argon2"@)
}

/// Whether a password belongs to a stored hash. None belongs to a hash that names more
/// lanes than Argon2 works in. Hashes of the former kind are plain digests.
pub open spec fn accepts(password: Seq<char>, hash: Seq<char>) -> bool {
    if is_argon2(hash) {
        !too_many_lanes(hash) && argon2_accepts(password, hash)
    } else {
        hex(sha256_digest(utf8(password))) == hash
    }
}

/// Whether a password belongs to a stored hash, and whether the hash is of the
/// former kind.
pub fn verify_password(password: &str, hash: &str) -> (r: (bool, bool))
    ensures
        r.0 == accepts(password@, hash@),
        r.1 == !is_argon2(hash@),
{
    if starts_with(hash, "$argon2") {
        if find_too_many_lanes(hash) {
            return (false, false);
        }
        (argon2_verify(password, hash), false)
    } else {
        let expected = sha256_hex(password);
        let verified: bool = same_bytes(expected.as_str().as_bytes(), hash.as_bytes());
        proof {
            vstd::utf8::encode_utf8_decode_utf8(expected@);
            vstd::utf8::encode_utf8_decode_utf8(hash@);
        }
        (verified, true)
    }
}

/// Hashes a password unless it is too long; the password is accepted with the hash that
/// comes out.
pub fn hash_password_argon2(password: &str) -> (r: Result<String, Failure>)
    ensures
        r is Ok <==> utf8(password@).len() <= MAX_PASSWORD,
        r is Ok ==> is_argon2(r->Ok_0@) && accepts(password@, r->Ok_0@),
        r is Err ==> r->Err_0 is Hashing,
{
    match argon2_hash(password) {
        Ok(hash) => Ok(hash),
        Err(reason) => Err(Failure::Hashing { reason }),
    }
}

/// A name with random bytes behind it.
pub open spec fn tagged(prefix: Seq<char>, bytes: Seq<u8>) -> Seq<char> {
    prefix.push('_') + hex(bytes)
}

/// A name with the given bytes behind it.
pub fn tag(prefix: &str, bytes: &[u8; 12]) -> (r: String)
    ensures
        r@ == tagged(prefix@, bytes@),
{
    let mut out = prefix.to_owned();
    out.push('_');
    let tail = to_hex(bytes.as_slice());
    out.append(tail.as_str());
    out
}

/// `id` is made of `prefix` and some random bytes.
pub open spec fn is_random_id(id: Seq<char>, prefix: Seq<char>) -> bool {
    exists|bytes: Seq<u8>| #[trigger] tagged(prefix, bytes) == id && bytes.len() == 12
}

/// A new random name.
pub fn random_id(prefix: &str) -> (r: String)
    ensures
        is_random_id(r@, prefix@),
{
    let bytes = random_bytes();
    let r = tag(prefix, &bytes);
    proof {
        assert(tagged(prefix@, bytes@) == r@);
    }
    r
}

/// The value of a small hexadecimal digit.
pub open spec fn hex_value(c: char) -> int {
    if c <= '9' {
        c as int - 48
    } else {
        c as int - 87
    }
}

/// Each byte is written as two small hexadecimal digits, the one that weighs more first.
pub proof fn law_a_byte_is_two_digits(bytes: Seq<u8>, i: int)
    requires
        0 <= i < bytes.len(),
    ensures
        hex(bytes).len() == 2 * bytes.len(),
        16 * hex_value(hex(bytes)[2 * i]) + hex_value(hex(bytes)[2 * i + 1]) == bytes[i],
        0 <= hex_value(hex(bytes)[2 * i + 1]) < 16,
        ('0' <= hex(bytes)[2 * i] && hex(bytes)[2 * i] <= '9') || ('a' <= hex(bytes)[2 * i]
            && hex(bytes)[2 * i] <= 'f'),
        ('0' <= hex(bytes)[2 * i + 1] && hex(bytes)[2 * i + 1] <= '9') || ('a' <= hex(bytes)[2 * i
            + 1] && hex(bytes)[2 * i + 1] <= 'f'),
    decreases bytes.len(),
{
    let front = bytes.drop_last();
    lemma_hex_len(bytes);
    lemma_hex_len(front);
    if i < bytes.len() - 1 {
        law_a_byte_is_two_digits(front, i);
        assert(front[i] == bytes[i]);
        assert(hex(bytes)[2 * i] == hex(front)[2 * i]);
        assert(hex(bytes)[2 * i + 1] == hex(front)[2 * i + 1]);
    } else {
        let b = bytes.last() as int;
        assert(hex(bytes)[2 * i] == hex_digit(b / 16));
        assert(hex(bytes)[2 * i + 1] == hex_digit(b % 16));
        assert(0 <= b / 16 < 16 && 0 <= b % 16 < 16 && 16 * (b / 16) + b % 16 == b);
    }
}

proof fn lemma_hex_len(bytes: Seq<u8>)
    ensures
        hex(bytes).len() == 2 * bytes.len(),
    decreases bytes.len(),
{
    if bytes.len() > 0 {
        lemma_hex_len(bytes.drop_last());
    }
}

/// Different bytes are written differently, so different random bytes make different ids. An
/// id is its prefix, a line below, and 24 hexadecimal digits.
pub proof fn law_ids_tell_bytes_apart(prefix: Seq<char>, a: Seq<u8>, b: Seq<u8>)
    requires
        a.len() == 12,
        b.len() == 12,
    ensures
        tagged(prefix, a) == tagged(prefix, b) ==> a == b,
        is_random_id(tagged(prefix, a), prefix),
        tagged(prefix, a).len() == prefix.len() + 25,
        tagged(prefix, a).take(prefix.len() as int) == prefix,
        tagged(prefix, a)[prefix.len() as int] == '_',
{
    lemma_hex_len(a);
    lemma_hex_len(b);
    let n = prefix.len() as int;
    assert(tagged(prefix, a).take(n) =~= prefix);
    assert(tagged(prefix, a) == tagged(prefix, a));
    if tagged(prefix, a) == tagged(prefix, b) {
        assert(tagged(prefix, a).skip(n + 1) =~= hex(a));
        assert(tagged(prefix, b).skip(n + 1) =~= hex(b));
        assert forall|i: int| 0 <= i < 12 implies a[i] == b[i] by {
            law_a_byte_is_two_digits(a, i);
            law_a_byte_is_two_digits(b, i);
        }
        assert(a =~= b);
    }
}

/// A hash of the former kind is the digest of the password in hexadecimal: it accepts that
/// password, and one that it accepts has that digest.
pub proof fn law_former_hashes(password: Seq<char>, other: Seq<char>)
    ensures
        ({
            let former = hex(sha256_digest(utf8(password)));
            &&& !is_argon2(former)
            &&& accepts(password, former)
            &&& accepts(other, former) ==> hex(sha256_digest(utf8(other))) == former
        }),
{
    let digest = sha256_digest(utf8(password));
    let former = hex(digest);
    reveal_strlit("$argon2");
    lemma_hex_len(digest);
    if is_argon2(former) {
        law_a_byte_is_two_digits(digest, 0);
        assert(former.take(7)[0] == '$');
        assert(false);
    }
}

/// Digits are read one after the other.
proof fn lemma_number_read(s: Seq<char>, i: int, n: nat)
    requires
        0 <= i,
        i + digits(n).len() <= s.len(),
        s.subrange(i, i + digits(n).len()) == digits(n),
    ensures
        digits(n).len() > 0,
        number_from(s, i, 0) == number_from(s, i + digits(n).len(), n),
    decreases n,
{
    reveal_with_fuel(number_from, 2);
    let d = digits(n);
    if n < 10 {
        assert(s[i] == s.subrange(i, i + 1)[0]);
        assert(d[0] == digit(n));
    } else {
        let front = digits(n / 10);
        let k = i + front.len();
        assert(s.subrange(i, k) =~= front) by {
            assert(s.subrange(i, i + d.len()).take(front.len() as int) =~= s.subrange(i, k));
            assert(d.take(front.len() as int) =~= front);
        }
        lemma_number_read(s, i, n / 10);
        assert(s[k] == s.subrange(i, i + d.len())[front.len() as int]);
        assert(d[front.len() as int] == digit(n % 10));
    }
}

/// No password belongs to a hash that names more lanes than 16777215. Of a hash that names
/// none Argon2 alone decides, and it never accepts what Argon2 does not.
pub proof fn law_lanes_are_bounded(
    password: Seq<char>,
    hash: Seq<char>,
    front: Seq<char>,
    lanes: nat,
    tail: Seq<char>,
)
    requires
        is_argon2(hash),
    ensures
        hash == front + seq!['p', '='] + digits(lanes) + tail && lanes > 16_777_215 && (tail.len()
            == 0 || !('0' <= tail[0] <= '9')) ==> !accepts(password, hash),
        (forall|i: int| 0 <= i < hash.len() - 1 && #[trigger] hash[i] == 'p' ==> hash[i + 1] != '=')
            ==> (accepts(password, hash) <==> argon2_accepts(password, hash)),
        accepts(password, hash) ==> argon2_accepts(password, hash),
{
    if hash == front + seq!['p', '='] + digits(lanes) + tail && lanes > 16_777_215 && (tail.len()
        == 0 || !('0' <= tail[0] <= '9')) {
        let i = front.len() as int;
        let d = digits(lanes);
        assert(hash[i] == 'p' && hash[i + 1] == '=');
        assert(hash.subrange(i + 2, i + 2 + d.len()) =~= d);
        lemma_number_read(hash, i + 2, lanes);
        if tail.len() > 0 {
            assert(hash[i + 2 + d.len()] == tail[0]);
        }
        assert(names_lanes(hash, i));
    }
    if forall|i: int| 0 <= i < hash.len() - 1 && #[trigger] hash[i] == 'p' ==> hash[i + 1] != '=' {
        assert forall|i: int| !#[trigger] names_lanes(hash, i) by {
            if 0 <= i < hash.len() - 1 {
                assert(hash[i] != 'p' || hash[i + 1] != '=');
            }
        }
    }
}

} // verus!
