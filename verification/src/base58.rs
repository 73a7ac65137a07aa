//! The Base58 alphabet, the value of a Base58 digit string, and the encoder
//! and decoder between byte arrays and fixed-width Base58 text.

use vstd::prelude::*;
use vstd::arithmetic::power::*;
use vstd::arithmetic::div_mod::*;
use vstd::string::StringExecFns;

use crate::nums::{
    bytes_val, lemma_bytes_val_bound, lemma_pow_step, lemma_pow_words_bytes,
    lemma_words_val_bound, word_base,
};
use crate::uint::{lemma_radix_val, Uint, RADIX};

verus! {

/// The Base58 digit value of byte `c`, or `-1` when `c` is not in the
/// alphabet `123456789ABCDEFGHJKLMNPQRSTUVWXYZabcdefghijkmnopqrstuvwxyz`
/// (the characters `0`, `O`, `I` and `l` are excluded).
pub open spec fn digit_of(c: u8) -> int {
    if 49 <= c <= 57 {
        c - 49
    } else if 65 <= c <= 72 {
        c - 65 + 9
    } else if 74 <= c <= 78 {
        c - 74 + 17
    } else if 80 <= c <= 90 {
        c - 80 + 22
    } else if 97 <= c <= 107 {
        c - 97 + 33
    } else if 109 <= c <= 122 {
        c - 109 + 44
    } else {
        -1
    }
}

/// Whether byte `c` is a Base58 digit.
pub open spec fn is_b58_char(c: u8) -> bool {
    digit_of(c) >= 0
}

/// The digit value of `c`, zero for bytes outside the alphabet.
pub open spec fn digit_val(c: u8) -> nat {
    if is_b58_char(c) {
        digit_of(c) as nat
    } else {
        0
    }
}

/// Whether every byte of `s` is a Base58 digit.
pub open spec fn all_b58(s: Seq<u8>) -> bool {
    forall|i: int| 0 <= i < s.len() ==> is_b58_char(#[trigger] s[i])
}

/// The alphabet character with digit value `d`.
pub open spec fn char_of(d: int) -> u8 {
    if 0 <= d < 9 {
        (49 + d) as u8
    } else if d < 17 {
        (65 + (d - 9)) as u8
    } else if d < 22 {
        (74 + (d - 17)) as u8
    } else if d < 33 {
        (80 + (d - 22)) as u8
    } else if d < 44 {
        (97 + (d - 33)) as u8
    } else if d < 58 {
        (109 + (d - 44)) as u8
    } else {
        0
    }
}

/// The value of the big-endian Base58 digit string `s`; bytes outside the
/// alphabet count as zero digits.
pub open spec fn b58_val(s: Seq<u8>) -> nat
    decreases s.len(),
{
    if s.len() == 0 {
        0
    } else {
        (b58_val(s.drop_last()) * 58 + digit_val(s.last())) as nat
    }
}

/// `char_of` and `digit_of` are inverse on the digit range.
pub proof fn lemma_char_of_digit(d: int)
    requires
        0 <= d < 58,
    ensures
        is_b58_char(char_of(d)),
        digit_of(char_of(d)) == d,
        digit_val(char_of(d)) == d,
{
}

/// Two distinct Base58 digits map to distinct characters.
pub proof fn lemma_digit_of_char(c: u8)
    requires
        is_b58_char(c),
    ensures
        0 <= digit_of(c) < 58,
        char_of(digit_of(c)) == c,
{
}

pub proof fn lemma_b58_val_concat(a: Seq<u8>, b: Seq<u8>)
    ensures
        b58_val(a + b) == b58_val(a) * pow(58, b.len()) + b58_val(b),
    decreases b.len(),
{
    if b.len() == 0 {
        assert(a + b =~= a);
        lemma_pow0(58);
    } else {
        lemma_b58_val_concat(a, b.drop_last());
        assert((a + b).drop_last() =~= a + b.drop_last());
        let p1 = pow(58, (b.len() - 1) as nat);
        lemma_pow_step(58, (b.len() - 1) as nat);
        assert(b58_val(a + b) == b58_val(a) * pow(58, b.len()) + b58_val(b))
            by (nonlinear_arith)
            requires
                b58_val(a + b) == (b58_val(a) * p1 + b58_val(b.drop_last())) * 58 + digit_val(
                    b.last(),
                ),
                b58_val(b) == b58_val(b.drop_last()) * 58 + digit_val(b.last()),
                pow(58, b.len()) == p1 * 58,
        ;
    }
}

/// The value of a digit string is at least the value of any of its prefixes.
pub proof fn lemma_b58_val_prefix_le(s: Seq<u8>, j: int)
    requires
        0 <= j <= s.len(),
    ensures
        b58_val(s.take(j)) <= b58_val(s),
{
    assert(s =~= s.take(j) + s.skip(j));
    lemma_b58_val_concat(s.take(j), s.skip(j));
    lemma_pow_positive(58, s.skip(j).len());
    assert(b58_val(s.take(j)) * pow(58, s.skip(j).len()) >= b58_val(s.take(j)))
        by (nonlinear_arith)
        requires
            pow(58, s.skip(j).len()) >= 1,
    ;
}

/// Two Base58 digit strings of the same length with the same value are equal:
/// a fixed-width representation is unique.
pub proof fn lemma_b58_val_injective(a: Seq<u8>, b: Seq<u8>)
    requires
        a.len() == b.len(),
        all_b58(a),
        all_b58(b),
        b58_val(a) == b58_val(b),
    ensures
        a == b,
    decreases a.len(),
{
    if a.len() == 0 {
        assert(a =~= b);
    } else {
        assert(is_b58_char(a.last()) && is_b58_char(b.last()));
        lemma_fundamental_div_mod_converse(
            b58_val(a) as int,
            58,
            b58_val(a.drop_last()) as int,
            digit_val(a.last()) as int,
        );
        lemma_fundamental_div_mod_converse(
            b58_val(b) as int,
            58,
            b58_val(b.drop_last()) as int,
            digit_val(b.last()) as int,
        );
        assert(forall|i: int| 0 <= i < a.len() - 1 ==> a.drop_last()[i] == a[i]);
        assert(forall|i: int| 0 <= i < b.len() - 1 ==> b.drop_last()[i] == b[i]);
        lemma_digit_of_char(a.last());
        lemma_digit_of_char(b.last());
        lemma_b58_val_injective(a.drop_last(), b.drop_last());
        assert forall|i: int| 0 <= i < a.len() implies a[i] == b[i] by {
            if i < a.len() - 1 {
                assert(a.drop_last()[i] == b.drop_last()[i]);
            }
        }
        assert(a =~= b);
    }
}

/// A string of Base58 digits has value zero exactly when every character is
/// the zero digit `1`.
pub proof fn lemma_b58_val_zero(s: Seq<u8>)
    requires
        all_b58(s),
    ensures
        (b58_val(s) == 0) <==> (forall|i: int| 0 <= i < s.len() ==> s[i] == 49),
    decreases s.len(),
{
    if s.len() == 0 {
    } else {
        assert(forall|j: int| 0 <= j < s.drop_last().len() ==> s.drop_last()[j] == s[j]);
        lemma_b58_val_zero(s.drop_last());
        if b58_val(s) == 0 {
            assert(digit_val(s.last()) == 0);
            assert(s.last() == 49);
            assert(b58_val(s.drop_last()) == 0) by (nonlinear_arith)
                requires
                    b58_val(s.drop_last()) * 58 == 0,
            ;
            assert forall|i: int| 0 <= i < s.len() implies s[i] == 49 by {
                if i < s.len() - 1 {
                    assert(s.drop_last()[i] == 49);
                }
            }
        }
        if forall|i: int| 0 <= i < s.len() ==> s[i] == 49 {
            assert(s.last() == 49);
            assert(forall|j: int| 0 <= j < s.drop_last().len() ==> s.drop_last()[j] == 49);
        }
    }
}

pub proof fn lemma_b58_val_push(s: Seq<u8>, c: u8)
    ensures
        b58_val(s.push(c)) == b58_val(s) * 58 + digit_val(c),
{
    assert(s.push(c).drop_last() =~= s);
}

pub proof fn lemma_b58_val_prepend(c: u8, s: Seq<u8>)
    ensures
        b58_val(seq![c] + s) == digit_val(c) * pow(58, s.len()) + b58_val(s),
{
    assert(seq![c].drop_last() =~= Seq::<u8>::empty());
    assert(b58_val(Seq::<u8>::empty()) == 0);
    assert(b58_val(seq![c]) == digit_val(c));
    lemma_b58_val_concat(seq![c], s);
}

/// Ground values of the powers of 58 up to the radix.
pub proof fn lemma_pow58_ground()
    ensures
        pow(58, 0) == 1,
        pow(58, 1) == 58,
        pow(58, 2) == 58 * 58,
        pow(58, 3) == 58 * 58 * 58,
        pow(58, 4) == 58 * 58 * 58 * 58,
        pow(58, 5) == 58 * 58 * 58 * 58 * 58,
        pow(58, 6) == 58 * 58 * 58 * 58 * 58 * 58,
        pow(58, 7) == 58 * 58 * 58 * 58 * 58 * 58 * 58,
        pow(58, 8) == 58 * 58 * 58 * 58 * 58 * 58 * 58 * 58,
        pow(58, 9) == 58 * 58 * 58 * 58 * 58 * 58 * 58 * 58 * 58,
        pow(58, 10) == RADIX,
        pow(58, 10) < word_base(),
{
    lemma_radix_val();
    lemma_pow0(58);
    lemma_pow_step(58, 0);
    lemma_pow_step(58, 1);
    lemma_pow_step(58, 2);
    lemma_pow_step(58, 3);
    lemma_pow_step(58, 4);
    lemma_pow_step(58, 5);
    lemma_pow_step(58, 6);
    lemma_pow_step(58, 7);
    lemma_pow_step(58, 8);
    lemma_pow_step(58, 9);
}

/// The byte widths this codec supports.
pub open spec fn valid_width(n: nat) -> bool {
    n == 16 || n == 32 || n == 64
}

/// The width of the Base58 text for an `n`-byte array: 22, 44 or 88.
pub open spec fn b58_size(n: nat) -> nat {
    n * 1375 / 1000
}

/// For each supported width, the text holds 11 digits per 8 input bytes, and
/// that many digits can represent every value of the byte array.
pub proof fn lemma_width_pow(n: nat)
    requires
        valid_width(n),
    ensures
        b58_size(n) == 11 * (n / 8),
        pow(word_base() as int, n / 8) == pow(256, n),
        pow(256, n) <= pow(58, b58_size(n)),
{
    let b = word_base() as int;
    lemma_radix_val();
    lemma_pow1(b);
    lemma_pow_adds(b, 1, 1);
    lemma_pow_adds(b, 2, 2);
    lemma_pow_adds(b, 4, 4);
    lemma_pow_adds(58, 11, 11);
    lemma_pow_adds(58, 22, 22);
    lemma_pow_adds(58, 44, 44);
    lemma_pow_positive(58, 11);
    lemma_pow_positive(58, 22);
    lemma_pow_positive(58, 44);
    assert(pow(b, 2) <= pow(58, 22)) by (nonlinear_arith)
        requires
            pow(b, 2) == pow(b, 1) * pow(b, 1),
            pow(58, 22) == pow(58, 11) * pow(58, 11),
            0 <= pow(b, 1) <= pow(58, 11),
    ;
    lemma_pow_positive(b, 2);
    assert(pow(b, 4) <= pow(58, 44)) by (nonlinear_arith)
        requires
            pow(b, 4) == pow(b, 2) * pow(b, 2),
            pow(58, 44) == pow(58, 22) * pow(58, 22),
            0 <= pow(b, 2) <= pow(58, 22),
    ;
    lemma_pow_positive(b, 4);
    assert(pow(b, 8) <= pow(58, 88)) by (nonlinear_arith)
        requires
            pow(b, 8) == pow(b, 4) * pow(b, 4),
            pow(58, 88) == pow(58, 44) * pow(58, 44),
            0 <= pow(b, 4) <= pow(58, 44),
    ;
    if n == 16 {
        lemma_pow_words_bytes(2);
    } else if n == 32 {
        lemma_pow_words_bytes(4);
    } else {
        lemma_pow_words_bytes(8);
    }
}

/// Implemented by types that can encode themselves as Base58.
pub trait ToBase58 {
    /// A Base58 string.
    type Output;

    /// Encodes itself as a Base58 string.
    fn to_base58(&self) -> Self::Output;
}

/// The Base58 text could not be decoded.
#[derive(Clone, Copy, Debug, PartialEq, Eq, Structural)]
pub enum DecodeError {
    /// The input is not valid Base58 for the target width.
    BadInput,
    /// An internal invariant was violated.
    Bug,
}

impl DecodeError {
    /// A short description of the error for display to a user.
    pub fn message(&self) -> (m: String)
        ensures
            m@ == match self {
                DecodeError::BadInput => "bad input"@,
                DecodeError::Bug => "internal invariant violation"@,
            },
    {
        match self {
            DecodeError::BadInput => String::from_str("bad input"),
            DecodeError::Bug => String::from_str("internal invariant violation"),
        }
    }
}

/// Looks up the digit value of byte `c`, with 255 marking a byte outside the
/// alphabet.
fn b58_digit(c: u8) -> (d: u8)
    ensures
        (d == 255) <==> !is_b58_char(c),
        is_b58_char(c) ==> d as int == digit_of(c),
{
    if 49 <= c && c <= 57 {
        c - 49
    } else if 65 <= c && c <= 72 {
        c - 65 + 9
    } else if 74 <= c && c <= 78 {
        c - 74 + 17
    } else if 80 <= c && c <= 90 {
        c - 80 + 22
    } else if 97 <= c && c <= 107 {
        c - 97 + 33
    } else if 109 <= c && c <= 122 {
        c - 109 + 44
    } else {
        255
    }
}

/// The alphabet character for digit value `d`.
fn b58_char(d: u64) -> (c: u8)
    requires
        d < 58,
    ensures
        c == char_of(d as int),
        is_b58_char(c),
        digit_val(c) == d,
{
    proof {
        lemma_char_of_digit(d as int);
    }
    let du = d as u8;
    if du < 9 {
        49 + du
    } else if du < 17 {
        65 + (du - 9)
    } else if du < 22 {
        74 + (du - 17)
    } else if du < 33 {
        80 + (du - 22)
    } else if du < 44 {
        97 + (du - 33)
    } else {
        109 + (du - 44)
    }
}

/// `58^k` for a chunk of `k` digits.
fn pow58_u64(k: usize) -> (r: u64)
    requires
        1 <= k <= 10,
    ensures
        r as nat == pow(58, k as nat),
{
    proof {
        lemma_pow58_ground();
    }
    if k == 1 {
        58
    } else if k == 2 {
        58 * 58
    } else if k == 3 {
        58 * 58 * 58
    } else if k == 4 {
        58 * 58 * 58 * 58
    } else if k == 5 {
        58 * 58 * 58 * 58 * 58
    } else if k == 6 {
        58 * 58 * 58 * 58 * 58 * 58
    } else if k == 7 {
        58 * 58 * 58 * 58 * 58 * 58 * 58
    } else if k == 8 {
        58 * 58 * 58 * 58 * 58 * 58 * 58 * 58
    } else if k == 9 {
        58 * 58 * 58 * 58 * 58 * 58 * 58 * 58 * 58
    } else {
        RADIX
    }
}

/// Decodes the Base58 text `s` into an `n`-byte big-endian array.
///
/// Succeeds exactly when every byte of `s` is in the alphabet and the value
/// of `s` fits in `n` bytes; the empty text decodes to the all-zero array.
pub fn decode_bytes(s: &Vec<u8>, n: usize) -> (r: Result<Vec<u8>, DecodeError>)
    requires
        valid_width(n as nat),
    ensures
        match r {
            Ok(b) => {
                &&& all_b58(s@)
                &&& b58_val(s@) < pow(256, n as nat)
                &&& b@.len() == n
                &&& bytes_val(b@) == b58_val(s@)
            },
            Err(e) => {
                &&& e == DecodeError::BadInput
                &&& !(all_b58(s@) && b58_val(s@) < pow(256, n as nat))
            },
        },
{
    let nw = n / 8;
    proof {
        lemma_width_pow(n as nat);
    }
    let mut x = Uint::new(nw);
    let len = s.len();
    let mut pos: usize = 0;
    proof {
        assert(s@.take(0) =~= Seq::<u8>::empty());
        assert(b58_val(Seq::<u8>::empty()) == 0);
    }
    while pos < len
        invariant
            pos <= len,
            len == s@.len(),
            valid_width(n as nat),
            nw == n as nat / 8,
            x.nwords() == nw,
            all_b58(s@.take(pos as int)),
            x.val() == b58_val(s@.take(pos as int)),
        decreases len - pos,
    {
        let k = if len - pos < 10 {
            len - pos
        } else {
            10
        };
        let mut acc: u64 = 0;
        let mut t: usize = 0;
        proof {
            assert(s@.subrange(pos as int, pos as int) =~= Seq::<u8>::empty());
            assert(b58_val(Seq::<u8>::empty()) == 0);
            lemma_pow58_ground();
        }
        while t < k
            invariant
                t <= k,
                k <= 10,
                pos + k <= len,
                len == s@.len(),
                all_b58(s@.subrange(pos as int, pos + t)),
                acc as nat == b58_val(s@.subrange(pos as int, pos + t)),
                (acc as nat) < pow(58, t as nat),
            decreases k - t,
        {
            let c = s[pos + t];
            let d = b58_digit(c);
            if d == 255 {
                proof {
                    assert(!is_b58_char(s@[pos + t]));
                }
                return Err(DecodeError::BadInput);
            }
            proof {
                lemma_pow58_ground();
                lemma_pow_step(58, t as nat);
                lemma_pow_increases(58, (t + 1) as nat, 10);
                let sub = s@.subrange(pos as int, pos + t);
                assert(s@.subrange(pos as int, pos + (t + 1)) =~= sub.push(c));
                lemma_b58_val_push(sub, c);
                assert((acc as nat) * 58 + (d as nat) < pow(58, (t + 1) as nat))
                    by (nonlinear_arith)
                    requires
                        (acc as nat) < pow(58, t as nat),
                        (d as nat) < 58,
                        pow(58, (t + 1) as nat) == pow(58, t as nat) * 58,
                ;
            }
            acc = acc * 58 + (d as u64);
            t = t + 1;
        }
        let m = pow58_u64(k);
        let ghost prev = x.val();
        let overflow = x.fma(m, acc);
        proof {
            assert(s@.take(pos + k) =~= s@.take(pos as int) + s@.subrange(pos as int, pos + k));
            lemma_b58_val_concat(s@.take(pos as int), s@.subrange(pos as int, pos + k));
        }
        if overflow {
            proof {
                lemma_b58_val_prefix_le(s@, pos + k);
                lemma_width_pow(n as nat);
                assert(b58_val(s@) >= pow(256, n as nat));
            }
            return Err(DecodeError::BadInput);
        }
        pos = pos + k;
    }
    proof {
        assert(s@.take(len as int) =~= s@);
        lemma_words_val_bound(x.word_seq());
    }
    let out = x.to_be_bytes();
    Ok(out)
}

/// Encodes the `n`-byte big-endian array `b` as Base58 text of exactly
/// `b58_size(n)` characters, left-padded with the zero digit `1`.
pub fn encode_bytes(b: &Vec<u8>) -> (r: Vec<u8>)
    requires
        valid_width(b@.len()),
    ensures
        r@.len() == b58_size(b@.len()),
        all_b58(r@),
        b58_val(r@) == bytes_val(b@),
{
    let n = b.len();
    let size = (n * 1375) / 1000;
    let ghost v0 = bytes_val(b@);
    proof {
        lemma_width_pow(n as nat);
        lemma_bytes_val_bound(b@);
    }
    let mut buf: Vec<u8> = Vec::new();
    let mut z: usize = 0;
    while z < size
        invariant
            z <= size,
            buf@.len() == z,
            forall|j: int| 0 <= j < z ==> buf@[j] == 49,
        decreases size - z,
    {
        buf.push(49);
        z = z + 1;
    }
    let mut x = Uint::from_be_bytes(b);
    let mut i: usize = size;
    proof {
        assert(buf@.skip(size as int) =~= Seq::<u8>::empty());
        assert(b58_val(Seq::<u8>::empty()) == 0);
        lemma_pow0(58);
        assert(forall|j: int| 0 <= j < buf@.len() ==> is_b58_char(#[trigger] buf@[j]));
    }
    let mut done = x.is_zero();
    while !done
        invariant
            i <= size,
            n == b@.len(),
            valid_width(n as nat),
            size == b58_size(n as nat),
            buf@.len() == size,
            forall|j: int| 0 <= j < i ==> buf@[j] == 49,
            all_b58(buf@),
            x.val() * pow(58, (size - i) as nat) + b58_val(buf@.skip(i as int)) == v0,
            v0 < pow(58, size as nat),
            done <==> x.val() == 0,
        decreases x.val(),
    {
        let ghost xpre = x.val();
        let mut r0 = x.quo_radix();
        proof {
            lemma_pow58_ground();
            lemma_fundamental_div_mod(xpre as int, RADIX as int);
            assert(xpre == x.val() * (RADIX as nat) + r0);
            lemma_div_decreases(xpre as int, RADIX as int);
        }
        if x.is_zero() {
            proof {
                assert(x.val() == 0);
                assert(xpre == r0 as nat) by (nonlinear_arith)
                    requires
                        xpre == x.val() * (RADIX as nat) + r0,
                        x.val() == 0,
                ;
                assert(xpre * pow(58, (size - i) as nat) + b58_val(buf@.skip(i as int)) == v0);
                assert((r0 as nat) * pow(58, (size - i) as nat) + b58_val(buf@.skip(i as int))
                    == v0);
            }
            while r0 > 0
                invariant
                    i <= size,
                    n == b@.len(),
                    valid_width(n as nat),
                    size == b58_size(n as nat),
                    buf@.len() == size,
                    forall|j: int| 0 <= j < i ==> buf@[j] == 49,
                    all_b58(buf@),
                    (r0 as nat) * pow(58, (size - i) as nat) + b58_val(buf@.skip(i as int))
                        == v0,
                    v0 < pow(58, size as nat),
                decreases r0,
            {
                proof {
                    lemma_pow_positive(58, (size - i) as nat);
                    assert(pow(58, (size - i) as nat) <= (r0 as nat) * pow(
                        58,
                        (size - i) as nat,
                    )) by (nonlinear_arith)
                        requires
                            r0 >= 1,
                            pow(58, (size - i) as nat) >= 0,
                    ;
                    lemma_pow_strictly_increases_converse(58, (size - i) as nat, size as nat);
                }
                let d = r0 % 58;
                let c = b58_char(d);
                proof {
                    let sk = buf@.skip(i as int);
                    let upd = buf@.update(i - 1, c);
                    assert(upd.skip(i as int) =~= sk);
                    assert(upd.skip(i - 1) =~= seq![c] + sk);
                    lemma_b58_val_prepend(c, sk);
                    lemma_pow_step(58, (size - i) as nat);
                    lemma_fundamental_div_mod(r0 as int, 58);
                    assert(((r0 as nat) / 58) * pow(58, (size - i + 1) as nat) + b58_val(
                        upd.skip(i - 1),
                    ) == v0) by (nonlinear_arith)
                        requires
                            (r0 as nat) * pow(58, (size - i) as nat) + b58_val(sk) == v0,
                            b58_val(upd.skip(i - 1)) == (d as nat) * pow(
                                58,
                                (size - i) as nat,
                            ) + b58_val(sk),
                            (r0 as nat) == ((r0 as nat) / 58) * 58 + (d as nat),
                            pow(58, (size - i + 1) as nat) == pow(58, (size - i) as nat) * 58,
                    ;
                    assert forall|j: int| 0 <= j < upd.len() implies is_b58_char(
                        #[trigger] upd[j],
                    ) by {
                        if j != i - 1 {
                            assert(is_b58_char(buf@[j]));
                        }
                    }
                }
                buf[i - 1] = c;
                r0 = r0 / 58;
                i = i - 1;
            }
        } else {
            let mut kk: usize = 0;
            proof {
                assert((x.val() * pow(58, 10) + r0) * pow(58, (size - i) as nat) + b58_val(
                    buf@.skip(i as int),
                ) == v0) by (nonlinear_arith)
                    requires
                        xpre == x.val() * (RADIX as nat) + r0,
                        RADIX == pow(58, 10),
                        xpre * pow(58, (size - i) as nat) + b58_val(buf@.skip(i as int)) == v0,
                ;
            }
            while kk < 10
                invariant
                    kk <= 10,
                    i <= size,
                    n == b@.len(),
                    valid_width(n as nat),
                    size == b58_size(n as nat),
                    buf@.len() == size,
                    forall|j: int| 0 <= j < i ==> buf@[j] == 49,
                    all_b58(buf@),
                    x.val() >= 1,
                    (r0 as nat) < pow(58, (10 - kk) as nat),
                    (x.val() * pow(58, (10 - kk) as nat) + r0) * pow(58, (size - i) as nat)
                        + b58_val(buf@.skip(i as int)) == v0,
                    v0 < pow(58, size as nat),
                decreases 10 - kk,
            {
                proof {
                    lemma_pow_adds(58, (10 - kk) as nat, (size - i) as nat);
                    lemma_pow_positive(58, (10 - kk) as nat);
                    lemma_pow_positive(58, (size - i) as nat);
                    assert(pow(58, (10 - kk + size - i) as nat) <= (x.val() * pow(
                        58,
                        (10 - kk) as nat,
                    ) + r0) * pow(58, (size - i) as nat)) by (nonlinear_arith)
                        requires
                            x.val() >= 1,
                            r0 >= 0,
                            pow(58, (10 - kk) as nat) >= 1,
                            pow(58, (size - i) as nat) >= 1,
                            pow(58, (10 - kk + size - i) as nat) == pow(58, (10 - kk) as nat)
                                * pow(58, (size - i) as nat),
                    ;
                    lemma_pow_strictly_increases_converse(
                        58,
                        (10 - kk + size - i) as nat,
                        size as nat,
                    );
                }
                let d = r0 % 58;
                let c = b58_char(d);
                proof {
                    let sk = buf@.skip(i as int);
                    let upd = buf@.update(i - 1, c);
                    assert(upd.skip(i as int) =~= sk);
                    assert(upd.skip(i - 1) =~= seq![c] + sk);
                    lemma_b58_val_prepend(c, sk);
                    lemma_pow_step(58, (size - i) as nat);
                    lemma_pow_step(58, (10 - kk - 1) as nat);
                    lemma_fundamental_div_mod(r0 as int, 58);
                    lemma_multiply_divide_lt(r0 as int, 58, pow(58, (10 - kk - 1) as nat));
                    assert((x.val() * pow(58, (10 - kk - 1) as nat) + ((r0 as nat) / 58)) * pow(
                        58,
                        (size - i + 1) as nat,
                    ) + b58_val(upd.skip(i - 1)) == v0) by (nonlinear_arith)
                        requires
                            (x.val() * pow(58, (10 - kk) as nat) + r0) * pow(
                                58,
                                (size - i) as nat,
                            ) + b58_val(buf@.skip(i as int)) == v0,
                            b58_val(upd.skip(i - 1)) == (d as nat) * pow(
                                58,
                                (size - i) as nat,
                            ) + b58_val(buf@.skip(i as int)),
                            (r0 as nat) == ((r0 as nat) / 58) * 58 + (d as nat),
                            pow(58, (size - i + 1) as nat) == pow(58, (size - i) as nat) * 58,
                            pow(58, (10 - kk) as nat) == pow(58, (10 - kk - 1) as nat) * 58,
                    ;
                    assert forall|j: int| 0 <= j < upd.len() implies is_b58_char(
                        #[trigger] upd[j],
                    ) by {
                        if j != i - 1 {
                            assert(is_b58_char(buf@[j]));
                        }
                    }
                }
                buf[i - 1] = c;
                r0 = r0 / 58;
                i = i - 1;
                kk = kk + 1;
            }
            proof {
                lemma_pow0(58);
            }
        }
        done = x.is_zero();
    }
    proof {
        assert(buf@ =~= buf@.take(i as int) + buf@.skip(i as int));
        assert(forall|j: int| 0 <= j < i ==> is_b58_char(#[trigger] buf@.take(i as int)[j]));
        lemma_b58_val_zero(buf@.take(i as int));
        lemma_b58_val_concat(buf@.take(i as int), buf@.skip(i as int));
    }
    buf
}

/// Round trip: decoding the text produced by encoding a byte array returns
/// exactly that byte array.  `enc` is fixed by the encoder's contract on `b`,
/// and `dec` by the decoder's contract on `enc`; the decoder is obliged to
/// succeed because the encoded value always fits the width.
pub proof fn lemma_round_trip(b: Seq<u8>, enc: Seq<u8>, dec: Seq<u8>)
    requires
        valid_width(b.len()),
        b58_val(enc) == bytes_val(b),
        dec.len() == b.len(),
        bytes_val(dec) == b58_val(enc),
    ensures
        b58_val(enc) < pow(256, b.len()),
        dec == b,
{
    lemma_bytes_val_bound(b);
    crate::nums::lemma_bytes_val_injective(dec, b);
}

/// Alphabet enforcement: a text containing `0`, `O`, `I`, `l` or any
/// non-ASCII byte is not Base58, so the decoder rejects it.
pub proof fn lemma_forbidden_char(s: Seq<u8>, i: int)
    requires
        0 <= i < s.len(),
        s[i] == 48 || s[i] == 79 || s[i] == 73 || s[i] == 108 || s[i] >= 128,
    ensures
        !all_b58(s),
{
    assert(!is_b58_char(s[i]));
}

/// Zero case: the all-zero byte array encodes to the zero digit `1` repeated
/// over the whole fixed width, and it is the only text of that width and
/// value.
pub proof fn lemma_encode_zero(b: Seq<u8>, enc: Seq<u8>)
    requires
        valid_width(b.len()),
        forall|i: int| 0 <= i < b.len() ==> b[i] == 0,
        all_b58(enc),
        b58_val(enc) == bytes_val(b),
    ensures
        forall|i: int| 0 <= i < enc.len() ==> enc[i] == 49,
{
    crate::nums::lemma_bytes_val_zero(b);
    lemma_b58_val_zero(enc);
}

/// Empty decode: the empty text has value zero, so it decodes to the
/// all-zero byte array.
pub proof fn lemma_decode_empty(s: Seq<u8>, dec: Seq<u8>)
    requires
        s.len() == 0,
        bytes_val(dec) == b58_val(s),
    ensures
        forall|i: int| 0 <= i < dec.len() ==> dec[i] == 0,
{
    crate::nums::lemma_bytes_val_zero(dec);
}

/// A text of maximum digits `z` throughout has value one less than `58`
/// raised to its length.
pub proof fn lemma_b58_val_max(s: Seq<u8>)
    requires
        forall|i: int| 0 <= i < s.len() ==> s[i] == 122,
    ensures
        b58_val(s) == pow(58, s.len()) - 1,
    decreases s.len(),
{
    if s.len() == 0 {
        lemma_pow0(58);
    } else {
        assert(forall|j: int| 0 <= j < s.drop_last().len() ==> s.drop_last()[j] == s[j]);
        lemma_b58_val_max(s.drop_last());
        assert(s.last() == 122);
        assert(digit_val(122) == 57);
        lemma_pow_step(58, (s.len() - 1) as nat);
        assert(b58_val(s) == pow(58, s.len()) - 1) by (nonlinear_arith)
            requires
                b58_val(s) == b58_val(s.drop_last()) * 58 + 57,
                b58_val(s.drop_last()) == pow(58, (s.len() - 1) as nat) - 1,
                pow(58, s.len()) == pow(58, (s.len() - 1) as nat) * 58,
        ;
    }
}

/// Overflow detection: a text one character longer than the fixed width,
/// consisting of the maximum digit `z` throughout, exceeds what the byte
/// array can hold, so the decoder rejects it.
pub proof fn lemma_overflow_text(n: nat, s: Seq<u8>)
    requires
        valid_width(n),
        s.len() == b58_size(n) + 1,
        forall|i: int| 0 <= i < s.len() ==> s[i] == 122,
    ensures
        b58_val(s) >= pow(256, n),
{
    lemma_b58_val_max(s);
    lemma_width_pow(n);
    lemma_pow_step(58, b58_size(n));
    lemma_pow_positive(58, b58_size(n));
    assert(pow(58, b58_size(n) + 1) - 1 >= pow(58, b58_size(n))) by (nonlinear_arith)
        requires
            pow(58, b58_size(n) + 1) == pow(58, b58_size(n)) * 58,
            pow(58, b58_size(n)) >= 1,
    ;
}

} // verus!
