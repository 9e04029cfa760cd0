//! The expected SHA-256 digest of the finished file.
use vstd::prelude::*;
use vstd::string::StringExecFns;
use vstd::string::StrSliceExecFns;
use crate::text::{is_whitespace, is_ws, trim, trim_start, trimmed};
use hex::FromHex;

verus! {

/// Value of an ASCII hex digit, either case.
pub open spec fn hex_value(c: char) -> nat {
    if '0' <= c <= '9' {
        (c as int - '0' as int) as nat
    } else if 'a' <= c <= 'f' {
        (c as int - 'a' as int + 10) as nat
    } else {
        (c as int - 'A' as int + 10) as nat
    }
}

pub open spec fn is_hex(c: char) -> bool {
    ('0' <= c <= '9') || ('a' <= c <= 'f') || ('A' <= c <= 'F')
}

/// `s` is 64 hex digits.
pub open spec fn is_digest_hex(s: Seq<char>) -> bool {
    s.len() == 64 && forall|i: int| 0 <= i < 64 ==> is_hex(#[trigger] s[i])
}

/// The 32 bytes that 64 hex digits spell, two digits per byte, high first.
pub open spec fn digest_bytes(s: Seq<char>) -> Seq<u8> {
    Seq::new(32, |i: int| (hex_value(s[2 * i]) * 16 + hex_value(s[2 * i + 1])) as u8)
}

/// Lowercase hex digit of `v < 16`.
pub open spec fn hex_char(v: nat) -> char {
    seq!['0', '1', '2', '3', '4', '5', '6', '7', '8', '9', 'a', 'b', 'c', 'd', 'e', 'f'][v as int]
}

/// Two lowercase hex digits per byte, high first.
pub open spec fn hex_lower(b: Seq<u8>) -> Seq<char> {
    Seq::new(2 * b.len(), |i: int| if i % 2 == 0 {
        hex_char(b[i / 2] as nat / 16)
    } else {
        hex_char(b[i / 2] as nat % 16)
    })
}

/// Relies on `hex::FromHex for [u8; 32]`: it accepts exactly 64 hex digits
/// of either case and decodes each pair, high digit first.
#[verifier::external_body]
fn digest_from_hex(s: &str) -> (r: Option<[u8; 32]>)
    ensures
        r.is_some() == is_digest_hex(s@),
        r.is_some() ==> r.unwrap()@ == digest_bytes(s@),
{
    <[u8; 32]>::from_hex(s).ok()
}

/// Relies on `hex::encode`: two lowercase hex digits per byte.
#[verifier::external_body]
fn hex_encode(b: &[u8; 32]) -> (r: String)
    ensures
        r@ == hex_lower(b@),
{
    hex::encode(b)
}

/// Why a checksum was refused.
#[derive(Debug, Clone, PartialEq, Eq)]
pub enum ChecksumError {
    /// Nothing but whitespace was given.
    Empty,
    /// The checksum file's first line holds no token.
    EmptyFile,
    /// The token is not 64 hex digits.
    InvalidHex,
    /// The file's digest differs: expected and computed, in lowercase hex.
    Mismatch(String, String),
}

/// An expected digest and the text it was read from.
#[derive(Debug, Clone)]
pub struct ChecksumSpec {
    pub expected: [u8; 32],
    pub source: String,
}

/// How a `--sha256` argument is to be read.
#[derive(Debug)]
pub enum ChecksumInput {
    /// The argument is the digest itself.
    Digest(ChecksumSpec),
    /// The argument names a file whose first line holds the digest.
    File(String),
}

/// Index of the first whitespace in `s`, or its length.
pub open spec fn ws_index(s: Seq<char>) -> int
    decreases s.len(),
{
    if s.len() == 0 || is_ws(s[0]) {
        0
    } else {
        1 + ws_index(s.drop_first())
    }
}

/// The first whitespace-separated token of `s`, if any.
pub open spec fn first_token(s: Seq<char>) -> Option<Seq<char>> {
    let t = trim_start(s);
    if t.len() == 0 {
        None
    } else {
        Some(t.subrange(0, ws_index(t)))
    }
}

proof fn lemma_ws_index_at(s: Seq<char>, i: int)
    requires
        0 <= i <= s.len(),
        i < s.len() ==> is_ws(s[i]),
        forall|j: int| 0 <= j < i ==> !is_ws(#[trigger] s[j]),
    ensures
        ws_index(s) == i,
    decreases s.len(),
{
    if s.len() > 0 && i > 0 {
        assert forall|j: int| 0 <= j < i - 1 implies !is_ws(#[trigger] s.drop_first()[j]) by {
            assert(s.drop_first()[j] == s[j + 1]);
        }
        lemma_ws_index_at(s.drop_first(), i - 1);
    }
}

/// The first whitespace-separated token of `s`, if any.
pub fn first_token_of(s: &str) -> (r: Option<&str>)
    ensures
        match r {
            Some(t) => first_token(s@) == Some(t@),
            None => first_token(s@).is_none(),
        },
{
    let n = s.unicode_len();
    let mut a: usize = 0;
    assert(s@.subrange(0, n as int) =~= s@);
    while a < n && is_whitespace(s.get_char(a))
        invariant
            a <= n,
            n == s@.len(),
            trim_start(s@) == trim_start(s@.subrange(a as int, n as int)),
        decreases n - a,
    {
        assert(s@.subrange(a as int, n as int).drop_first() =~= s@.subrange(a + 1, n as int));
        a = a + 1;
    }
    let ghost t = s@.subrange(a as int, n as int);
    assert(trim_start(s@) == t);
    if a == n {
        return None;
    }
    let mut b: usize = a;
    while b < n && !is_whitespace(s.get_char(b))
        invariant
            a <= b <= n,
            n == s@.len(),
            forall|j: int| a <= j < b ==> !is_ws(#[trigger] s@[j]),
        decreases n - b,
    {
        b = b + 1;
    }
    proof {
        assert forall|j: int| 0 <= j < b - a implies !is_ws(#[trigger] t[j]) by {
            assert(t[j] == s@[a + j]);
        }
        lemma_ws_index_at(t, b - a);
        assert(t.subrange(0, b - a) =~= s@.subrange(a as int, b as int));
    }
    Some(s.substring_char(a, b))
}

impl ChecksumSpec {
    /// A trimmed argument of 64 hex digits is the digest; any other
    /// non-empty one names a checksum file.
    pub fn from_input(input: &str) -> (r: Result<ChecksumInput, ChecksumError>)
        ensures
            trimmed(input@).len() == 0 ==> r == Err::<ChecksumInput, ChecksumError>(
                ChecksumError::Empty,
            ),
            trimmed(input@).len() > 0 && is_digest_hex(trimmed(input@)) ==> match r {
                Ok(ChecksumInput::Digest(spec)) => spec.expected@ == digest_bytes(trimmed(input@))
                    && spec.source@ == trimmed(input@),
                _ => false,
            },
            trimmed(input@).len() > 0 && !is_digest_hex(trimmed(input@)) ==> match r {
                Ok(ChecksumInput::File(path)) => path@ == trimmed(input@),
                _ => false,
            },
    {
        let t = trim(input);
        if t.unicode_len() == 0 {
            return Err(ChecksumError::Empty);
        }
        match digest_from_hex(t) {
            Some(expected) => Ok(ChecksumInput::Digest(ChecksumSpec { expected, source: String::from_str(t) })),
            None => Ok(ChecksumInput::File(String::from_str(t))),
        }
    }

    /// The digest named by the first line of a checksum file: its first
    /// whitespace-separated token, as 64 hex digits.
    pub fn from_checksum_line(line: &str) -> (r: Result<ChecksumSpec, ChecksumError>)
        ensures
            match first_token(line@) {
                None => r == Err::<ChecksumSpec, ChecksumError>(ChecksumError::EmptyFile),
                Some(token) => if is_digest_hex(token) {
                    match r {
                        Ok(spec) => spec.expected@ == digest_bytes(token) && spec.source@ == token,
                        Err(_) => false,
                    }
                } else {
                    r == Err::<ChecksumSpec, ChecksumError>(ChecksumError::InvalidHex)
                },
            },
    {
        let token = match first_token_of(line) {
            Some(t) => t,
            None => return Err(ChecksumError::EmptyFile),
        };
        match digest_from_hex(token) {
            Some(expected) => Ok(ChecksumSpec { expected, source: String::from_str(token) }),
            None => Err(ChecksumError::InvalidHex),
        }
    }

    /// Compares the digest computed from the file with the expected one.
    pub fn check_digest(&self, computed: &[u8; 32]) -> (r: Result<(), ChecksumError>)
        ensures
            computed@ == self.expected@ ==> r == Ok::<(), ChecksumError>(()),
            computed@ != self.expected@ ==> match r {
                Err(ChecksumError::Mismatch(expected, actual)) => expected@ == hex_lower(
                    self.expected@,
                ) && actual@ == hex_lower(computed@),
                _ => false,
            },
    {
        let mut i: usize = 0;
        while i < 32
            invariant
                i <= 32,
                forall|j: int| 0 <= j < i ==> computed@[j] == self.expected@[j],
            decreases 32 - i,
        {
            if computed[i] != self.expected[i] {
                return Err(ChecksumError::Mismatch(hex_encode(&self.expected), hex_encode(computed)));
            }
            i = i + 1;
        }
        assert(computed@ =~= self.expected@);
        Ok(())
    }

    /// The text the digest was given as.
    pub fn display(&self) -> (r: String)
        ensures
            r@ == self.source@,
    {
        self.source.clone()
    }
}

} // verus!
