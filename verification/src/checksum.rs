//! The checksum of saved edits.

use vstd::prelude::*;
use vstd::string::*;
use crate::edits::log::MapEdits;

verus! {

/// The MD5 digest of a sequence of bytes, as `md5::compute` gives it: sixteen
/// bytes that depend on the given bytes alone.
pub uninterp spec fn md5_digest(data: Seq<u8>) -> Seq<u8>;

/// Calls `md5::compute` on `data` and hands out the sixteen bytes of its
/// digest. This contract is not proved: it only gives the result of that call
/// the name [`md5_digest`], and says nothing of what the digest is.
#[verifier::external_body]
fn md5_of(data: &[u8]) -> (digest: [u8; 16])
    ensures
        digest@ == md5_digest(data@),
{
    md5::compute(data).0
}

/// The character for a hexadecimal digit, in lower case.
pub open spec fn hex_char(d: nat) -> char {
    if d < 10 {
        crate::text::digit_char(d)
    } else if d == 10 {
        'a'
    } else if d == 11 {
        'b'
    } else if d == 12 {
        'c'
    } else if d == 13 {
        'd'
    } else if d == 14 {
        'e'
    } else {
        'f'
    }
}

/// The first `n` of the given bytes in hexadecimal, two lower-case digits for
/// each byte.
pub open spec fn hex(bytes: Seq<u8>, n: int) -> Seq<char>
    decreases n,
{
    if n <= 0 {
        Seq::empty()
    } else {
        hex(bytes, n - 1).push(hex_char((bytes[n - 1] / 16) as nat)).push(
            hex_char((bytes[n - 1] % 16) as nat),
        )
    }
}

/// The text of one hexadecimal digit.
fn hex_str(d: u8) -> (s: &'static str)
    requires
        d < 16,
    ensures
        s@ == seq![hex_char(d as nat)],
{
    if d < 10 {
        crate::text::digit_str(d as usize)
    } else {
        proof {
            reveal_strlit("a");
            reveal_strlit("b");
            reveal_strlit("c");
            reveal_strlit("d");
            reveal_strlit("e");
            reveal_strlit("f");
        }
        let s = if d == 10 {
            "a"
        } else if d == 11 {
            "b"
        } else if d == 12 {
            "c"
        } else if d == 13 {
            "d"
        } else if d == 14 {
            "e"
        } else {
            "f"
        };
        proof {
            assert(s@ =~= seq![hex_char(d as nat)]);
        }
        s
    }
}

/// Writes bytes in hexadecimal, two lower-case digits for each byte.
pub fn to_hex(bytes: &[u8]) -> (s: String)
    ensures
        s@ == hex(bytes@, bytes@.len() as int),
{
    let mut s = String::from_str("");
    proof {
        reveal_strlit("");
        assert(s@ =~= hex(bytes@, 0));
    }
    let mut k: usize = 0;
    while k < bytes.len()
        invariant
            k <= bytes.len(),
            s@ == hex(bytes@, k as int),
        decreases bytes.len() - k,
    {
        let b = bytes[k];
        s.append(hex_str(b / 16));
        s.append(hex_str(b % 16));
        proof {
            assert(s@ =~= hex(bytes@, k + 1));
        }
        k = k + 1;
    }
    s
}

impl MapEdits {
    /// The checksum of edits in their saved form `saved`: the MD5 digest of
    /// those bytes, in hexadecimal.
    pub fn get_checksum(saved: &[u8]) -> (sum: String)
        ensures
            sum@ == hex(md5_digest(saved@), 16),
            sum@.len() == 32,
    {
        let digest = md5_of(saved);
        let sum = to_hex(digest.as_slice());
        proof {
            lemma_hex_len(md5_digest(saved@), 16);
        }
        sum
    }
}

/// Each byte gives two digits.
pub proof fn lemma_hex_len(bytes: Seq<u8>, n: int)
    requires
        0 <= n,
    ensures
        hex(bytes, n).len() == 2 * n,
    decreases n,
{
    if n > 0 {
        lemma_hex_len(bytes, n - 1);
    }
}

} // verus!
