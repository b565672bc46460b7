//! Per-instance secrets: the pepper for media hashes and the alphabet of
//! public ids.
use rand::rngs::StdRng;
use rand::seq::SliceRandom;
use rand::RngExt;
use vstd::prelude::*;
use vstd::utf8::is_ascii_chars;

use crate::text::chars_of;

verus! {

#[verifier::external_type_specification]
#[verifier::external_body]
pub struct ExStdRng(StdRng);

/// The alphabet of public ids before shuffling: `sqids::DEFAULT_ALPHABET`.
pub open spec fn default_alphabet_text() -> Seq<char> {
    "abcdefghijklmnopqrstuvwxyzABCDEFGHIJKLMNOPQRSTUVWXYZ0123456789"@
}

/// `sqids::DEFAULT_ALPHABET`, the letters and digits of ASCII.
#[verifier::external_body]
fn default_alphabet() -> (r: &'static str)
    ensures
        r@ == default_alphabet_text(),
{
    sqids::DEFAULT_ALPHABET
}

/// `SliceRandom::shuffle` on the characters of `v`: a random permutation of
/// them (the implementation only swaps elements). Which permutation comes
/// out depends on the generator's state and is not stated.
#[verifier::external_body]
fn shuffle_chars(v: &mut Vec<char>, rng: &mut StdRng)
    ensures
        final(v)@.to_multiset() == old(v)@.to_multiset(),
{
    v.shuffle(rng)
}

/// `RngExt::random` for 32 bytes: random bytes, of which nothing is stated.
#[verifier::external_body]
fn random_bytes(rng: &mut StdRng) -> (r: [u8; 32]) {
    rng.random()
}

/// `String::from_iter` over the characters of `v`: the string made of them.
#[verifier::external_body]
fn string_from_chars(v: Vec<char>) -> (r: String)
    ensures
        r@ == v@,
{
    v.into_iter().collect()
}

/// The lowercase hexadecimal digit of `n`, which is below 16.
pub open spec fn hex_digit(n: int) -> char {
    if n < 10 {
        (48 + n) as char
    } else {
        (87 + n) as char
    }
}

/// How `u8::escape_ascii` writes a byte: tab, carriage return, line feed,
/// quotes and backslash as backslash escapes, other printable ASCII (0x20
/// to 0x7e) as itself, anything else as `\x` and two lowercase hex digits.
pub open spec fn escape_byte(b: u8) -> Seq<char> {
    if b == 0x09 {
        seq!['\\', 't']
    } else if b == 0x0d {
        seq!['\\', 'r']
    } else if b == 0x0a {
        seq!['\\', 'n']
    } else if b == 0x27 {
        seq!['\\', '\'']
    } else if b == 0x22 {
        seq!['\\', '"']
    } else if b == 0x5c {
        seq!['\\', '\\']
    } else if 0x20 <= b <= 0x7e {
        seq![b as char]
    } else {
        seq!['\\', 'x', hex_digit((b / 16) as int), hex_digit((b % 16) as int)]
    }
}

/// The bytes `s`, each escaped as `u8::escape_ascii` does, one after the
/// other.
pub open spec fn escape_bytes(s: Seq<u8>) -> Seq<char>
    decreases s.len(),
{
    if s.len() == 0 {
        Seq::empty()
    } else {
        escape_bytes(s.drop_last()) + escape_byte(s.last())
    }
}

fn hex_digit_char(n: u8) -> (c: char)
    requires
        n < 16,
    ensures
        c == hex_digit(n as int),
{
    if n < 10 {
        (48 + n) as char
    } else {
        (87 + n) as char
    }
}

/// Append the escape of `b` to `out`.
fn push_escaped(out: &mut Vec<char>, b: u8)
    ensures
        final(out)@ == old(out)@ + escape_byte(b),
{
    let ghost before = out@;
    if b == 0x09 {
        out.push('\\');
        out.push('t');
    } else if b == 0x0d {
        out.push('\\');
        out.push('r');
    } else if b == 0x0a {
        out.push('\\');
        out.push('n');
    } else if b == 0x27 {
        out.push('\\');
        out.push('\'');
    } else if b == 0x22 {
        out.push('\\');
        out.push('"');
    } else if b == 0x5c {
        out.push('\\');
        out.push('\\');
    } else if 0x20 <= b && b <= 0x7e {
        out.push(b as char);
    } else {
        out.push('\\');
        out.push('x');
        out.push(hex_digit_char(b / 16));
        out.push(hex_digit_char(b % 16));
    }
    assert(out@ =~= before + escape_byte(b));
}

/// The secrets of an instance.
#[derive(Debug, PartialEq)]
pub struct Secrets {
    /// Mixed into the hashes of media files.
    pub media_pepper: [u8; 32],
    /// The alphabet that encodes public ids; a shuffle of the default one.
    pub sqids_alphabet: String,
}

/// The default alphabet is ASCII.
proof fn lemma_default_alphabet_ascii()
    ensures
        is_ascii_chars(default_alphabet_text()),
        default_alphabet_text().len() == 62,
{
    reveal_strlit("abcdefghijklmnopqrstuvwxyzABCDEFGHIJKLMNOPQRSTUVWXYZ0123456789");
}

impl Secrets {
    /// A random shuffle of the default alphabet of public ids: the same
    /// characters, each as often, in an order drawn from `rng`.
    pub fn gen_alphabet(rng: &mut StdRng) -> (r: String)
        ensures
            r@.to_multiset() == default_alphabet_text().to_multiset(),
            r@.len() == 62,
            is_ascii_chars(r@),
    {
        broadcast use vstd::seq_lib::group_to_multiset_ensures;

        let mut chars = chars_of(default_alphabet());
        shuffle_chars(&mut chars, rng);
        let r = string_from_chars(chars);
        proof {
            lemma_default_alphabet_ascii();
            r@.to_multiset_ensures();
            default_alphabet_text().to_multiset_ensures();
            assert forall|i: int| 0 <= i < r@.len() implies '\0' <= #[trigger] r@[i] <= '\u{7f}' by {
                assert(r@.contains(r@[i]));
                assert(r@.to_multiset().count(r@[i]) > 0);
                assert(default_alphabet_text().contains(r@[i]));
            }
        }
        r
    }

    /// The pepper as text, each byte escaped as `u8::escape_ascii` does.
    pub fn pepper_text(&self) -> (r: String)
        ensures
            r@ == escape_bytes(self.media_pepper@),
    {
        let mut out: Vec<char> = Vec::new();
        let mut i: usize = 0;
        while i < 32
            invariant
                i <= 32,
                self.media_pepper@.len() == 32,
                out@ == escape_bytes(self.media_pepper@.take(i as int)),
            decreases 32 - i,
        {
            let b = self.media_pepper[i];
            push_escaped(&mut out, b);
            proof {
                assert(self.media_pepper@.take(i + 1).drop_last() =~= self.media_pepper@.take(i as int));
            }
            i = i + 1;
        }
        assert(self.media_pepper@.take(32) =~= self.media_pepper@);
        string_from_chars(out)
    }

    /// New secrets drawn from `rng`: a random pepper and a shuffled
    /// alphabet.
    pub fn generate(rng: &mut StdRng) -> (s: Secrets)
        ensures
            s.sqids_alphabet@.to_multiset() == default_alphabet_text().to_multiset(),
            s.sqids_alphabet@.len() == 62,
            is_ascii_chars(s.sqids_alphabet@),
    {
        let media_pepper = random_bytes(rng);
        let sqids_alphabet = Self::gen_alphabet(rng);
        Secrets { media_pepper, sqids_alphabet }
    }
}

} // verus!
