//! SHA-1 identities of objects and their hexadecimal form.

use vstd::prelude::*;
use vstd::string::*;
use sha1::Digest;

verus! {

/// What SHA-1 yields for a byte sequence.
pub uninterp spec fn sha1_of(data: Seq<u8>) -> [u8; 20];

/// The twenty bytes of the SHA-1 digest of `data`.
pub open spec fn digest_of(data: Seq<u8>) -> Seq<u8> {
    sha1_of(data)@
}

/// The lowercase hexadecimal digit for a value below sixteen.
pub open spec fn hex_digit(n: u8) -> char {
    (if n < 10 {
        (n + 48) as u8
    } else {
        (n + 87) as u8
    }) as char
}

/// The value of a hexadecimal digit of either case.
pub open spec fn hex_value(c: char) -> Option<u8> {
    let v = c as u32;
    if 48 <= v <= 57 {
        Some((v - 48) as u8)
    } else if 97 <= v <= 102 {
        Some((v - 87) as u8)
    } else if 65 <= v <= 70 {
        Some((v - 55) as u8)
    } else {
        None
    }
}

/// Two lowercase hexadecimal digits per byte, high nibble first.
pub open spec fn hex_chars(b: Seq<u8>) -> Seq<char>
    decreases b.len(),
{
    if b.len() == 0 {
        Seq::empty()
    } else {
        hex_chars(b.drop_last()) + seq![hex_digit(b.last() / 16), hex_digit(b.last() % 16)]
    }
}

/// Every character is a hexadecimal digit and they come in pairs.
pub open spec fn is_hex(s: Seq<char>) -> bool {
    s.len() % 2 == 0 && forall|i: int| 0 <= i < s.len() ==> (#[trigger] hex_value(s[i])) is Some
}

/// The bytes that pairs of hexadecimal digits stand for.
pub open spec fn hex_bytes(s: Seq<char>) -> Seq<u8>
    decreases s.len(),
{
    if s.len() < 2 {
        Seq::empty()
    } else {
        let n = s.len();
        hex_bytes(s.subrange(0, n - 2)) + seq![
            (hex_value(s[n - 2])->0 * 16 + hex_value(s[n - 1])->0) as u8,
        ]
    }
}

/// Forty hexadecimal digits: the text of a hash.
pub open spec fn is_hash_text(s: Seq<char>) -> bool {
    s.len() == 40 && is_hex(s)
}

/// The shard path of an object whose hash has the hexadecimal text `hex`.
pub open spec fn shard_path(hex: Seq<char>) -> Seq<char> {
    seq!['o', 'b', 'j', 'e', 'c', 't', 's', '/'] + hex.subrange(0, 2) + seq!['/'] + hex.subrange(
        2,
        hex.len() as int,
    )
}

pub proof fn lemma_hex_chars_len(b: Seq<u8>)
    ensures
        hex_chars(b).len() == 2 * b.len(),
    decreases b.len(),
{
    if b.len() > 0 {
        lemma_hex_chars_len(b.drop_last());
    }
}

/// Hexadecimal text is made of the characters `0`-`9` and `a`-`f`.
pub proof fn lemma_hex_chars_ascii(b: Seq<u8>)
    ensures
        forall|i: int|
            0 <= i < hex_chars(b).len() ==> 48 <= (#[trigger] hex_chars(b)[i] as u32) <= 102
                && '\0' <= hex_chars(b)[i] <= '\u{7f}',
    decreases b.len(),
{
    lemma_hex_chars_len(b);
    if b.len() > 0 {
        lemma_hex_chars_ascii(b.drop_last());
        let prev = hex_chars(b.drop_last());
        assert forall|i: int| 0 <= i < hex_chars(b).len() implies 48 <= (#[trigger] hex_chars(b)[i] as u32)
            <= 102 && '\0' <= hex_chars(b)[i] <= '\u{7f}' by {
            if i < prev.len() {
                assert(hex_chars(b)[i] == prev[i]);
            }
        }
    }
}

/// Decoding the hexadecimal text of a byte sequence gives the bytes back.
pub proof fn lemma_hex_round_trip(b: Seq<u8>)
    ensures
        is_hex(hex_chars(b)),
        hex_bytes(hex_chars(b)) == b,
    decreases b.len(),
{
    lemma_hex_chars_len(b);
    if b.len() > 0 {
        let prev = b.drop_last();
        lemma_hex_round_trip(prev);
        lemma_hex_chars_len(prev);
        let s = hex_chars(b);
        let n = s.len();
        assert(s.subrange(0, n - 2) =~= hex_chars(prev));
        let hi = b.last() / 16;
        let lo = b.last() % 16;
        assert(hex_value(hex_digit(hi)) == Some(hi));
        assert(hex_value(hex_digit(lo)) == Some(lo));
        assert forall|i: int| 0 <= i < s.len() implies (#[trigger] hex_value(s[i])) is Some by {
            if i < n - 2 {
                assert(s[i] == hex_chars(prev)[i]);
            }
        }
        assert(hex_bytes(s) =~= b);
    } else {
        assert(hex_bytes(hex_chars(b)) =~= b);
    }
}

pub proof fn lemma_hex_bytes_len(s: Seq<char>)
    ensures
        hex_bytes(s).len() == s.len() / 2,
    decreases s.len(),
{
    if s.len() >= 2 {
        lemma_hex_bytes_len(s.subrange(0, s.len() - 2));
    }
}

/// Relies on sha1::Sha1::digest: the SHA-1 digest of `data`.
#[verifier::external_body]
fn sha1_digest(data: &[u8]) -> (r: [u8; 20])
    ensures
        r == sha1_of(data@),
{
    let bytes: generic_array::GenericArray<u8, generic_array::typenum::U20> = sha1::Sha1::digest(
        data,
    );
    bytes.into()
}

/// Relies on hex::encode: two lowercase digits per byte, high nibble first.
#[verifier::external_body]
fn hex_encode(b: &[u8]) -> (r: String)
    ensures
        r@ == hex_chars(b@),
{
    hex::encode(b)
}

/// Relies on hex::decode: it succeeds exactly on an even number of hexadecimal
/// digits of either case, and gives one byte per pair.
#[verifier::external_body]
fn hex_decode(s: &str) -> (r: Option<Vec<u8>>)
    ensures
        r is Some <==> is_hex(s@),
        r is Some ==> r->0@ == hex_bytes(s@),
{
    hex::decode(s).ok()
}

/// A SHA-1 digest together with its lowercase hexadecimal text.
pub struct Hash {
    bytes: Vec<u8>,
    string: String,
}

impl View for Hash {
    type V = Seq<u8>;

    closed spec fn view(&self) -> Seq<u8> {
        self.bytes@
    }
}

impl Hash {
    #[verifier::type_invariant]
    spec fn inv(&self) -> bool {
        &&& self.bytes@.len() == 20
        &&& self.string@ == hex_chars(self.bytes@)
    }

    /// The hash with the given twenty digest bytes.
    pub fn from_digest(bytes: Vec<u8>) -> (r: Hash)
        requires
            bytes@.len() == 20,
        ensures
            r@ == bytes@,
    {
        let string = hex_encode(bytes.as_slice());
        Hash { bytes, string }
    }

    /// The hash of `data`.
    pub fn digest(data: &[u8]) -> (r: Hash)
        ensures
            r@ == digest_of(data@),
    {
        let d = sha1_digest(data);
        let mut bytes: Vec<u8> = Vec::new();
        let mut i: usize = 0;
        while i < 20
            invariant
                0 <= i <= 20,
                d@.len() == 20,
                bytes@ == d@.subrange(0, i as int),
            decreases 20 - i,
        {
            bytes.push(d[i]);
            i = i + 1;
            proof {
                assert(bytes@ =~= d@.subrange(0, i as int));
            }
        }
        proof {
            assert(d@.subrange(0, 20) =~= d@);
        }
        Hash::from_digest(bytes)
    }

    /// Reads forty hexadecimal digits of either case.
    pub fn from_str(string: &str) -> (r: Option<Hash>)
        ensures
            r is Some <==> is_hash_text(string@),
            r is Some ==> r->0@ == hex_bytes(string@),
    {
        proof {
            lemma_hex_bytes_len(string@);
        }
        match hex_decode(string) {
            Some(bytes) => {
                if bytes.len() == 20 {
                    Some(Hash::from_digest(bytes))
                } else {
                    None
                }
            },
            None => None,
        }
    }

    /// The lowercase hexadecimal text, forty digits.
    pub fn as_str(&self) -> (r: &str)
        ensures
            r@ == hex_chars(self@),
            self@.len() == 20,
    {
        proof {
            use_type_invariant(self);
        }
        self.string.as_str()
    }

    /// The twenty bytes of the digest.
    pub fn as_bytes(&self) -> (r: &[u8])
        ensures
            r@ == self@,
            r@.len() == 20,
    {
        proof {
            use_type_invariant(self);
        }
        self.bytes.as_slice()
    }

    /// The store-relative path of the object with this hash,
    /// `objects/<first two digits>/<other thirty-eight>`.
    pub fn path(&self) -> (r: String)
        ensures
            r@ == shard_path(hex_chars(self@)),
    {
        proof {
            use_type_invariant(self);
            lemma_hex_chars_len(self@);
            reveal_strlit("objects/");
            reveal_strlit("/");
        }
        let text = self.string.as_str();
        let mut r = String::from_str("objects/");
        r.append(text.substring_char(0, 2));
        r.append("/");
        r.append(text.substring_char(2, 40));
        proof {
            assert(r@ =~= shard_path(hex_chars(self@)));
        }
        r
    }

    /// Equality of the digests.
    pub fn equals(&self, other: &Hash) -> (r: bool)
        ensures
            r == (self@ == other@),
    {
        proof {
            use_type_invariant(self);
            use_type_invariant(other);
        }
        let mut i: usize = 0;
        while i < 20
            invariant
                0 <= i <= 20,
                self.bytes@.len() == 20,
                other.bytes@.len() == 20,
                forall|j: int| 0 <= j < i ==> self.bytes@[j] == other.bytes@[j],
            decreases 20 - i,
        {
            if self.bytes[i] != other.bytes[i] {
                return false;
            }
            i = i + 1;
        }
        proof {
            assert(self.bytes@ =~= other.bytes@);
        }
        true
    }

    /// A copy of this hash.
    pub fn copy(&self) -> (r: Hash)
        ensures
            r@ == self@,
    {
        proof {
            use_type_invariant(self);
        }
        Hash { bytes: self.bytes.clone(), string: self.string.clone() }
    }
}

impl PartialEq for Hash {
    fn eq(&self, other: &Hash) -> (r: bool) {
        self.equals(other)
    }
}

impl vstd::std_specs::cmp::PartialEqSpecImpl for Hash {
    open spec fn obeys_eq_spec() -> bool {
        true
    }

    open spec fn eq_spec(&self, other: &Hash) -> bool {
        self@ == other@
    }
}

impl Clone for Hash {
    fn clone(&self) -> (r: Hash)
        ensures
            r@ == self@,
    {
        self.copy()
    }
}

} // verus!
