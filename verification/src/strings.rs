//! Fixed-size Base58 string types for 16-, 32- and 64-byte payloads.
//!
//! Each type owns a buffer holding exactly the fixed-width text plus one
//! trailing terminator byte, so the contents can be handed to consumers of
//! terminated strings without copying.

use vstd::prelude::*;
use vstd::arithmetic::power::pow;
use vstd::slice::slice_to_vec;
use vstd::string::StrSliceExecFns;
use vstd::string::StringSliceAdditionalSpecFns;
use core::str::FromStr;

use crate::base58::{
    all_b58, b58_size, b58_val, decode_bytes, encode_bytes, is_b58_char, valid_width,
    DecodeError, ToBase58,
};
use crate::nums::bytes_val;

verus! {

/// The characters of an ASCII byte sequence, one per byte.
pub open spec fn chars_of(s: Seq<u8>) -> Seq<char> {
    s.map_values(|b: u8| b as char)
}

/// The zero-digit padding text: `k` copies of the character `1`.
pub open spec fn ones(k: nat) -> Seq<u8> {
    Seq::new(k, |i: int| 49u8)
}

/// Relies on str::from_utf8: ASCII bytes are valid UTF-8 and decode to the
/// matching characters, one character per byte.
#[verifier::external_body]
fn ascii_prefix_str(b: &Vec<u8>, len: usize) -> (r: &str)
    requires
        len <= b@.len(),
        forall|i: int| 0 <= i < len ==> b@[i] < 128,
    ensures
        r@ == chars_of(b@.take(len as int)),
        r.spec_bytes() == b@.take(len as int),
{
    core::str::from_utf8(&b[..len]).unwrap()
}

/// Every Base58 character is ASCII.
proof fn lemma_b58_ascii(s: Seq<u8>)
    requires
        all_b58(s),
    ensures
        forall|i: int| 0 <= i < s.len() ==> s[i] < 128,
{
    assert forall|i: int| 0 <= i < s.len() implies s[i] < 128 by {
        assert(is_b58_char(s[i]));
    }
}

/// Builds the stored buffer for an encoding: the fixed-width text followed by
/// the terminator byte.
fn encode_buffer(b: &Vec<u8>) -> (data: Vec<u8>)
    requires
        valid_width(b@.len()),
    ensures
        data@.len() == b58_size(b@.len()) + 1,
        data@.last() == 0,
        all_b58(data@.drop_last()),
        b58_val(data@.drop_last()) == bytes_val(b@),
{
    let mut data = encode_bytes(b);
    let ghost enc = data@;
    data.push(0);
    proof {
        assert(data@.drop_last() =~= enc);
    }
    data
}

/// Builds the stored buffer for a parse: the literal input text right-aligned
/// over zero-digit padding, followed by the terminator byte.  Fails exactly
/// as the decoder fails; input longer than the fixed width cannot be stored,
/// which is reported as an internal fault rather than bad input.
fn parse_buffer(bytes: &Vec<u8>, n: usize, size: usize) -> (r: Result<Vec<u8>, DecodeError>)
    requires
        valid_width(n as nat),
        size == b58_size(n as nat),
    ensures
        match r {
            Ok(data) => {
                &&& all_b58(bytes@)
                &&& b58_val(bytes@) < pow(256, n as nat)
                &&& bytes@.len() <= size
                &&& data@.len() == size + 1
                &&& data@.last() == 0
                &&& data@.drop_last() =~= ones((size - bytes@.len()) as nat) + bytes@
            },
            Err(e) => if e == DecodeError::Bug {
                all_b58(bytes@) && b58_val(bytes@) < pow(256, n as nat) && bytes@.len() > size
            } else {
                e == DecodeError::BadInput && !(all_b58(bytes@) && b58_val(bytes@) < pow(
                    256,
                    n as nat,
                ))
            },
        },
{
    match decode_bytes(bytes, n) {
        Err(e) => Err(e),
        Ok(_) => {
            let blen = bytes.len();
            if blen > size {
                Err(DecodeError::Bug)
            } else {
                let pad = size - blen;
                let mut data: Vec<u8> = Vec::new();
                let mut z: usize = 0;
                while z < pad
                    invariant
                        z <= pad,
                        data@.len() == z,
                        data@ =~= ones(z as nat),
                    decreases pad - z,
                {
                    data.push(49);
                    proof {
                        assert(data@ =~= ones((z + 1) as nat));
                    }
                    z = z + 1;
                }
                let mut t: usize = 0;
                while t < blen
                    invariant
                        t <= blen,
                        blen == bytes@.len(),
                        data@.len() == pad + t,
                        data@ =~= ones(pad as nat) + bytes@.take(t as int),
                    decreases blen - t,
                {
                    data.push(bytes[t]);
                    proof {
                        assert(data@ =~= ones(pad as nat) + bytes@.take(t + 1));
                    }
                    t = t + 1;
                }
                proof {
                    assert(bytes@.take(blen as int) =~= bytes@);
                }
                data.push(0);
                proof {
                    assert(data@.drop_last() =~= ones(pad as nat) + bytes@);
                }
                Ok(data)
            }
        },
    }
}

/// Builds the stored buffer of the zero value: all zero digits plus the
/// terminator.
fn default_buffer(size: usize) -> (data: Vec<u8>)
    requires
        size < usize::MAX,
    ensures
        data@.len() == size + 1,
        data@.last() == 0,
        data@.drop_last() =~= ones(size as nat),
{
    let mut data: Vec<u8> = Vec::new();
    let mut z: usize = 0;
    while z < size
        invariant
            z <= size,
            data@.len() == z,
            data@ =~= ones(z as nat),
        decreases size - z,
    {
        data.push(49);
        proof {
            assert(data@ =~= ones((z + 1) as nat));
        }
        z = z + 1;
    }
    data.push(0);
    proof {
        assert(data@.drop_last() =~= ones(size as nat));
    }
    data
}

/// A Base58-encoded 16-byte value.
#[derive(Debug, PartialEq, Eq, PartialOrd, Ord, Hash)]
pub struct String16 {
    data: Vec<u8>,
}

impl Clone for String16 {
    fn clone(&self) -> (r: Self)
        ensures
            r.text() == self.text(),
    {
        proof {
            use_type_invariant(self);
        }
        String16 { data: slice_to_vec(self.data.as_slice()) }
    }
}

impl String16 {
    /// The size in bytes of the encoded value.
    pub const B58_SIZE: usize = (16 * 1375) / 1000;

    /// The size in bytes of the encoded value, with a null terminator.
    pub const BUFFER_SIZE: usize = Self::B58_SIZE + 1;

    #[verifier::type_invariant]
    spec fn wf(self) -> bool {
        &&& self.data@.len() == 23
        &&& self.data@.last() == 0
        &&& all_b58(self.data@.drop_last())
    }

    /// The 22 characters of Base58 text this value holds.
    pub closed spec fn text(self) -> Seq<u8> {
        self.data@.drop_last()
    }

    /// Encodes `b` as a Base58 string.
    pub fn encode(b: &Vec<u8>) -> (r: Self)
        requires
            b@.len() == 16,
        ensures
            r.text().len() == 22,
            all_b58(r.text()),
            b58_val(r.text()) == bytes_val(b@),
    {
        String16 { data: encode_buffer(b) }
    }

    /// Decodes `s` as bytes.
    pub fn decode(s: &str) -> (r: Result<Vec<u8>, DecodeError>)
        ensures
            match r {
                Ok(b) => {
                    &&& all_b58(s.spec_bytes())
                    &&& b58_val(s.spec_bytes()) < pow(256, 16)
                    &&& b@.len() == 16
                    &&& bytes_val(b@) == b58_val(s.spec_bytes())
                },
                Err(e) => {
                    &&& e == DecodeError::BadInput
                    &&& !(all_b58(s.spec_bytes()) && b58_val(s.spec_bytes()) < pow(256, 16))
                },
            },
    {
        let bytes = s.as_bytes_vec();
        decode_bytes(&bytes, 16)
    }

    /// Parses `s` as Base58 text, keeping the literal characters
    /// right-aligned over zero-digit padding.
    pub fn parse(s: &str) -> (r: Result<Self, DecodeError>)
        ensures
            match r {
                Ok(v) => {
                    &&& all_b58(s.spec_bytes())
                    &&& b58_val(s.spec_bytes()) < pow(256, 16)
                    &&& s.spec_bytes().len() <= 22
                    &&& v.text() =~= ones((22 - s.spec_bytes().len()) as nat) + s.spec_bytes()
                },
                Err(e) => if e == DecodeError::Bug {
                    all_b58(s.spec_bytes()) && b58_val(s.spec_bytes()) < pow(256, 16)
                        && s.spec_bytes().len() > 22
                } else {
                    e == DecodeError::BadInput && !(all_b58(s.spec_bytes()) && b58_val(
                        s.spec_bytes(),
                    ) < pow(256, 16))
                },
            },
    {
        let bytes = s.as_bytes_vec();
        match parse_buffer(&bytes, 16, 22) {
            Err(e) => Err(e),
            Ok(data) => {
                proof {
                    assert(forall|i: int|
                        0 <= i < ones((22 - bytes@.len()) as nat).len() ==> is_b58_char(
                            #[trigger] ones((22 - bytes@.len()) as nat)[i],
                        ));
                }
                Ok(String16 { data })
            },
        }
    }

    /// The length of the text, not counting the terminator.
    pub fn len(&self) -> (l: usize)
        ensures
            l == 22,
    {
        Self::B58_SIZE
    }

    /// Returns a string slice of the string's contents.
    pub fn as_str(&self) -> (r: &str)
        ensures
            r@ == chars_of(self.text()),
            r.spec_bytes() == self.text(),
    {
        proof {
            use_type_invariant(self);
            lemma_b58_ascii(self.text());
            assert(self.data@.take(22) =~= self.text());
            assert forall|i: int| 0 <= i < 22 implies self.data@[i] < 128 by {
                assert(self.data@[i] == self.text()[i]);
                assert(self.text()[i] < 128);
            }
        }
        ascii_prefix_str(&self.data, 22)
    }

    /// Returns a byte slice of the string's contents.
    pub fn as_bytes(&self) -> (r: &[u8])
        ensures
            r@ == self.text(),
    {
        self.as_str().as_bytes()
    }

    /// Returns the stored buffer: the text followed by the terminator byte.
    pub fn as_bytes_with_nul(&self) -> (r: &[u8])
        ensures
            r@ == self.text().push(0),
    {
        proof {
            use_type_invariant(self);
            assert(self.data@ =~= self.data@.drop_last().push(0));
        }
        self.data.as_slice()
    }
}

impl Default for String16 {
    /// The canonical representation of the zero value.
    fn default() -> (r: Self)
        ensures
            r.text() =~= ones(22),
    {
        String16 { data: default_buffer(22) }
    }
}

impl FromStr for String16 {
    type Err = DecodeError;

    fn from_str(s: &str) -> Result<Self, DecodeError> {
        Self::parse(s)
    }
}

impl ToBase58 for [u8; 16] {
    type Output = String16;

    fn to_base58(&self) -> (r: String16)
        ensures
            b58_val(r.text()) == bytes_val(self@),
    {
        String16::encode(&slice_to_vec(self.as_slice()))
    }
}

/// A Base58-encoded 32-byte value.
#[derive(Debug, PartialEq, Eq, PartialOrd, Ord, Hash)]
pub struct String32 {
    data: Vec<u8>,
}

impl Clone for String32 {
    fn clone(&self) -> (r: Self)
        ensures
            r.text() == self.text(),
    {
        proof {
            use_type_invariant(self);
        }
        String32 { data: slice_to_vec(self.data.as_slice()) }
    }
}

impl String32 {
    /// The size in bytes of the encoded value.
    pub const B58_SIZE: usize = (32 * 1375) / 1000;

    /// The size in bytes of the encoded value, with a null terminator.
    pub const BUFFER_SIZE: usize = Self::B58_SIZE + 1;

    #[verifier::type_invariant]
    spec fn wf(self) -> bool {
        &&& self.data@.len() == 45
        &&& self.data@.last() == 0
        &&& all_b58(self.data@.drop_last())
    }

    /// The 44 characters of Base58 text this value holds.
    pub closed spec fn text(self) -> Seq<u8> {
        self.data@.drop_last()
    }

    /// Encodes `b` as a Base58 string.
    pub fn encode(b: &Vec<u8>) -> (r: Self)
        requires
            b@.len() == 32,
        ensures
            r.text().len() == 44,
            all_b58(r.text()),
            b58_val(r.text()) == bytes_val(b@),
    {
        String32 { data: encode_buffer(b) }
    }

    /// Decodes `s` as bytes.
    pub fn decode(s: &str) -> (r: Result<Vec<u8>, DecodeError>)
        ensures
            match r {
                Ok(b) => {
                    &&& all_b58(s.spec_bytes())
                    &&& b58_val(s.spec_bytes()) < pow(256, 32)
                    &&& b@.len() == 32
                    &&& bytes_val(b@) == b58_val(s.spec_bytes())
                },
                Err(e) => {
                    &&& e == DecodeError::BadInput
                    &&& !(all_b58(s.spec_bytes()) && b58_val(s.spec_bytes()) < pow(256, 32))
                },
            },
    {
        let bytes = s.as_bytes_vec();
        decode_bytes(&bytes, 32)
    }

    /// Parses `s` as Base58 text, keeping the literal characters
    /// right-aligned over zero-digit padding.
    pub fn parse(s: &str) -> (r: Result<Self, DecodeError>)
        ensures
            match r {
                Ok(v) => {
                    &&& all_b58(s.spec_bytes())
                    &&& b58_val(s.spec_bytes()) < pow(256, 32)
                    &&& s.spec_bytes().len() <= 44
                    &&& v.text() =~= ones((44 - s.spec_bytes().len()) as nat) + s.spec_bytes()
                },
                Err(e) => if e == DecodeError::Bug {
                    all_b58(s.spec_bytes()) && b58_val(s.spec_bytes()) < pow(256, 32)
                        && s.spec_bytes().len() > 44
                } else {
                    e == DecodeError::BadInput && !(all_b58(s.spec_bytes()) && b58_val(
                        s.spec_bytes(),
                    ) < pow(256, 32))
                },
            },
    {
        let bytes = s.as_bytes_vec();
        match parse_buffer(&bytes, 32, 44) {
            Err(e) => Err(e),
            Ok(data) => {
                proof {
                    assert(forall|i: int|
                        0 <= i < ones((44 - bytes@.len()) as nat).len() ==> is_b58_char(
                            #[trigger] ones((44 - bytes@.len()) as nat)[i],
                        ));
                }
                Ok(String32 { data })
            },
        }
    }

    /// The length of the text, not counting the terminator.
    pub fn len(&self) -> (l: usize)
        ensures
            l == 44,
    {
        Self::B58_SIZE
    }

    /// Returns a string slice of the string's contents.
    pub fn as_str(&self) -> (r: &str)
        ensures
            r@ == chars_of(self.text()),
            r.spec_bytes() == self.text(),
    {
        proof {
            use_type_invariant(self);
            lemma_b58_ascii(self.text());
            assert(self.data@.take(44) =~= self.text());
            assert forall|i: int| 0 <= i < 44 implies self.data@[i] < 128 by {
                assert(self.data@[i] == self.text()[i]);
                assert(self.text()[i] < 128);
            }
        }
        ascii_prefix_str(&self.data, 44)
    }

    /// Returns a byte slice of the string's contents.
    pub fn as_bytes(&self) -> (r: &[u8])
        ensures
            r@ == self.text(),
    {
        self.as_str().as_bytes()
    }

    /// Returns the stored buffer: the text followed by the terminator byte.
    pub fn as_bytes_with_nul(&self) -> (r: &[u8])
        ensures
            r@ == self.text().push(0),
    {
        proof {
            use_type_invariant(self);
            assert(self.data@ =~= self.data@.drop_last().push(0));
        }
        self.data.as_slice()
    }
}

impl Default for String32 {
    /// The canonical representation of the zero value.
    fn default() -> (r: Self)
        ensures
            r.text() =~= ones(44),
    {
        String32 { data: default_buffer(44) }
    }
}

impl FromStr for String32 {
    type Err = DecodeError;

    fn from_str(s: &str) -> Result<Self, DecodeError> {
        Self::parse(s)
    }
}

impl ToBase58 for [u8; 32] {
    type Output = String32;

    fn to_base58(&self) -> (r: String32)
        ensures
            b58_val(r.text()) == bytes_val(self@),
    {
        String32::encode(&slice_to_vec(self.as_slice()))
    }
}

/// A Base58-encoded 64-byte value.
#[derive(Debug, PartialEq, Eq, PartialOrd, Ord, Hash)]
pub struct String64 {
    data: Vec<u8>,
}

impl Clone for String64 {
    fn clone(&self) -> (r: Self)
        ensures
            r.text() == self.text(),
    {
        proof {
            use_type_invariant(self);
        }
        String64 { data: slice_to_vec(self.data.as_slice()) }
    }
}

impl String64 {
    /// The size in bytes of the encoded value.
    pub const B58_SIZE: usize = (64 * 1375) / 1000;

    /// The size in bytes of the encoded value, with a null terminator.
    pub const BUFFER_SIZE: usize = Self::B58_SIZE + 1;

    #[verifier::type_invariant]
    spec fn wf(self) -> bool {
        &&& self.data@.len() == 89
        &&& self.data@.last() == 0
        &&& all_b58(self.data@.drop_last())
    }

    /// The 88 characters of Base58 text this value holds.
    pub closed spec fn text(self) -> Seq<u8> {
        self.data@.drop_last()
    }

    /// Encodes `b` as a Base58 string.
    pub fn encode(b: &Vec<u8>) -> (r: Self)
        requires
            b@.len() == 64,
        ensures
            r.text().len() == 88,
            all_b58(r.text()),
            b58_val(r.text()) == bytes_val(b@),
    {
        String64 { data: encode_buffer(b) }
    }

    /// Decodes `s` as bytes.
    pub fn decode(s: &str) -> (r: Result<Vec<u8>, DecodeError>)
        ensures
            match r {
                Ok(b) => {
                    &&& all_b58(s.spec_bytes())
                    &&& b58_val(s.spec_bytes()) < pow(256, 64)
                    &&& b@.len() == 64
                    &&& bytes_val(b@) == b58_val(s.spec_bytes())
                },
                Err(e) => {
                    &&& e == DecodeError::BadInput
                    &&& !(all_b58(s.spec_bytes()) && b58_val(s.spec_bytes()) < pow(256, 64))
                },
            },
    {
        let bytes = s.as_bytes_vec();
        decode_bytes(&bytes, 64)
    }

    /// Parses `s` as Base58 text, keeping the literal characters
    /// right-aligned over zero-digit padding.
    pub fn parse(s: &str) -> (r: Result<Self, DecodeError>)
        ensures
            match r {
                Ok(v) => {
                    &&& all_b58(s.spec_bytes())
                    &&& b58_val(s.spec_bytes()) < pow(256, 64)
                    &&& s.spec_bytes().len() <= 88
                    &&& v.text() =~= ones((88 - s.spec_bytes().len()) as nat) + s.spec_bytes()
                },
                Err(e) => if e == DecodeError::Bug {
                    all_b58(s.spec_bytes()) && b58_val(s.spec_bytes()) < pow(256, 64)
                        && s.spec_bytes().len() > 88
                } else {
                    e == DecodeError::BadInput && !(all_b58(s.spec_bytes()) && b58_val(
                        s.spec_bytes(),
                    ) < pow(256, 64))
                },
            },
    {
        let bytes = s.as_bytes_vec();
        match parse_buffer(&bytes, 64, 88) {
            Err(e) => Err(e),
            Ok(data) => {
                proof {
                    assert(forall|i: int|
                        0 <= i < ones((88 - bytes@.len()) as nat).len() ==> is_b58_char(
                            #[trigger] ones((88 - bytes@.len()) as nat)[i],
                        ));
                }
                Ok(String64 { data })
            },
        }
    }

    /// The length of the text, not counting the terminator.
    pub fn len(&self) -> (l: usize)
        ensures
            l == 88,
    {
        Self::B58_SIZE
    }

    /// Returns a string slice of the string's contents.
    pub fn as_str(&self) -> (r: &str)
        ensures
            r@ == chars_of(self.text()),
            r.spec_bytes() == self.text(),
    {
        proof {
            use_type_invariant(self);
            lemma_b58_ascii(self.text());
            assert(self.data@.take(88) =~= self.text());
            assert forall|i: int| 0 <= i < 88 implies self.data@[i] < 128 by {
                assert(self.data@[i] == self.text()[i]);
                assert(self.text()[i] < 128);
            }
        }
        ascii_prefix_str(&self.data, 88)
    }

    /// Returns a byte slice of the string's contents.
    pub fn as_bytes(&self) -> (r: &[u8])
        ensures
            r@ == self.text(),
    {
        self.as_str().as_bytes()
    }

    /// Returns the stored buffer: the text followed by the terminator byte.
    pub fn as_bytes_with_nul(&self) -> (r: &[u8])
        ensures
            r@ == self.text().push(0),
    {
        proof {
            use_type_invariant(self);
            assert(self.data@ =~= self.data@.drop_last().push(0));
        }
        self.data.as_slice()
    }
}

impl Default for String64 {
    /// The canonical representation of the zero value.
    fn default() -> (r: Self)
        ensures
            r.text() =~= ones(88),
    {
        String64 { data: default_buffer(88) }
    }
}

impl FromStr for String64 {
    type Err = DecodeError;

    fn from_str(s: &str) -> Result<Self, DecodeError> {
        Self::parse(s)
    }
}

impl ToBase58 for [u8; 64] {
    type Output = String64;

    fn to_base58(&self) -> (r: String64)
        ensures
            b58_val(r.text()) == bytes_val(self@),
    {
        String64::encode(&slice_to_vec(self.as_slice()))
    }
}

} // verus!

