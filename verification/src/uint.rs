//! A fixed-width unsigned integer held as a little-endian vector of 64-bit
//! words, with big-endian byte import and export, a fused multiply-add, and an
//! in-place division by the constant radix `58^10`.

use vstd::prelude::*;
use vstd::arithmetic::power::*;
use vstd::arithmetic::div_mod::*;

use crate::arith::{div_ww, mul_add_ww};
use crate::nums::{
    bytes_val, lemma_bytes_val_bound, lemma_bytes_val_concat, lemma_bytes_val_push,
    lemma_pow256_values, lemma_pow_step, lemma_pow_words_bytes, lemma_words_val_bound,
    lemma_words_val_push, lemma_words_val_skip_step, lemma_words_val_zero, word_base, words_val,
};

verus! {

/// The radix used by the codec: `58^10`, the largest power of 58 that fits in
/// one 64-bit word.
pub const RADIX: u64 = 58 * 58 * 58 * 58 * 58 * 58 * 58 * 58 * 58 * 58;

pub proof fn lemma_radix_val()
    ensures
        RADIX == pow(58, 10),
        pow(58, 10) < word_base(),
        pow(58, 11) > word_base(),
{
    lemma_pow0(58);
    lemma_pow_step(58, 0);
    lemma_pow_step(58, 1);
    lemma_pow_step(58, 2);
    lemma_pow_step(58, 3);
    lemma_pow_step(58, 4);
    lemma_pow_step(58, 5);
    lemma_pow_step(58, 6);
    lemma_pow_step(58, 7);
    lemma_pow_step(58, 8);
    lemma_pow_step(58, 9);
    lemma_pow_step(58, 10);
}

/// An unsigned integer of `8 * nwords()` bytes.
pub struct Uint {
    words: Vec<u64>,
}

impl Uint {
    /// The little-endian word sequence.
    pub closed spec fn word_seq(self) -> Seq<u64> {
        self.words@
    }

    /// The number of 64-bit words.
    pub open spec fn nwords(self) -> nat {
        self.word_seq().len()
    }

    /// The unsigned integer this value represents, in `[0, 2^(64 * nwords()))`.
    pub open spec fn val(self) -> nat {
        words_val(self.word_seq())
    }

    /// The zero value of `nwords` words.
    pub fn new(nwords: usize) -> (z: Self)
        ensures
            z.nwords() == nwords,
            z.val() == 0,
    {
        let mut words: Vec<u64> = Vec::new();
        let mut i: usize = 0;
        while i < nwords
            invariant
                i <= nwords,
                words@.len() == i,
                forall|j: int| 0 <= j < i ==> words@[j] == 0,
            decreases nwords - i,
        {
            words.push(0);
            i = i + 1;
        }
        proof {
            lemma_words_val_zero(words@);
        }
        Uint { words }
    }

    /// Imports a big-endian byte sequence; the byte count must be a whole
    /// number of words.
    pub fn from_be_bytes(b: &Vec<u8>) -> (z: Self)
        requires
            b@.len() % 8 == 0,
        ensures
            z.nwords() * 8 == b@.len(),
            z.val() == bytes_val(b@),
    {
        let nb = b.len();
        let w = nb / 8;
        proof {
            lemma_fundamental_div_mod(nb as int, 8);
        }
        let mut words: Vec<u64> = Vec::new();
        let mut j: usize = 0;
        while j < w
            invariant
                j <= w,
                nb == b@.len(),
                nb == 8 * w,
                words@.len() == j,
                words_val(words@) == bytes_val(b@.skip(nb - 8 * j)),
            decreases w - j,
        {
            let start = nb - 8 * (j + 1);
            let wd = word_from_be_bytes(b, start);
            proof {
                lemma_words_val_push(words@, wd);
                let chunk = b@.subrange(start as int, start + 8);
                let rest = b@.skip(start + 8);
                assert(b@.skip(start as int) =~= chunk + rest);
                lemma_bytes_val_concat(chunk, rest);
                assert(rest.len() == 8 * j);
                lemma_pow_words_bytes(j as nat);
            }
            words.push(wd);
            j = j + 1;
        }
        proof {
            assert(b@.skip(nb - 8 * w) =~= b@);
        }
        Uint { words }
    }

    /// Exports the integer as a big-endian byte sequence of `8 * nwords()`
    /// bytes.
    pub fn to_be_bytes(&self) -> (out: Vec<u8>)
        ensures
            out@.len() == self.nwords() * 8,
            bytes_val(out@) == self.val(),
    {
        let n = self.words.len();
        let mut out: Vec<u8> = Vec::new();
        let mut j: usize = n;
        while j > 0
            invariant
                j <= n,
                n == self.word_seq().len(),
                out@.len() == 8 * (n - j),
                bytes_val(out@) == words_val(self.word_seq().skip(j as int)),
            decreases j,
        {
            j = j - 1;
            let ghost prefix = out@;
            push_word_be(&mut out, self.words[j]);
            proof {
                let chunk = out@.skip(prefix.len() as int);
                assert(out@ =~= prefix + chunk);
                lemma_bytes_val_concat(prefix, chunk);
                lemma_pow256_values();
                lemma_words_val_skip_step(self.word_seq(), j as int);
            }
        }
        proof {
            assert(self.word_seq().skip(0) =~= self.word_seq());
        }
        out
    }

    /// Reports whether the value is zero.
    pub fn is_zero(&self) -> (z: bool)
        ensures
            z <==> self.val() == 0,
    {
        let n = self.words.len();
        let mut i: usize = 0;
        while i < n
            invariant
                i <= n,
                n == self.word_seq().len(),
                forall|j: int| 0 <= j < i ==> self.word_seq()[j] == 0,
            decreases n - i,
        {
            if self.words[i] != 0 {
                proof {
                    lemma_words_val_zero(self.word_seq());
                }
                return false;
            }
            i = i + 1;
        }
        proof {
            lemma_words_val_zero(self.word_seq());
        }
        true
    }

    /// Compares two integers of the same width, scanning words from the most
    /// to the least significant.
    pub fn cmp(&self, other: &Self) -> (r: core::cmp::Ordering)
        requires
            self.nwords() == other.nwords(),
        ensures
            (r == core::cmp::Ordering::Less) <==> self.val() < other.val(),
            (r == core::cmp::Ordering::Greater) <==> self.val() > other.val(),
            (r == core::cmp::Ordering::Equal) <==> self.val() == other.val(),
    {
        let n = self.words.len();
        let mut i: usize = n;
        while i > 0
            invariant
                i <= n,
                n == self.word_seq().len(),
                n == other.word_seq().len(),
                forall|j: int| i <= j < n ==> self.word_seq()[j] == other.word_seq()[j],
            decreases i,
        {
            i = i - 1;
            let a = self.words[i];
            let b = other.words[i];
            if a < b {
                proof {
                    crate::nums::lemma_words_val_ordered(
                        self.word_seq(),
                        other.word_seq(),
                        i as int,
                    );
                }
                return core::cmp::Ordering::Less;
            }
            if a > b {
                proof {
                    crate::nums::lemma_words_val_ordered(
                        other.word_seq(),
                        self.word_seq(),
                        i as int,
                    );
                }
                return core::cmp::Ordering::Greater;
            }
        }
        proof {
            assert(self.word_seq() =~= other.word_seq());
        }
        core::cmp::Ordering::Equal
    }

    /// Sets `self` to `self * y + r`, carrying from the least to the most
    /// significant word.  Reports whether the result overflowed the width:
    /// the returned flag is true exactly when the carry out of the most
    /// significant word is nonzero.
    pub fn fma(&mut self, y: u64, r: u64) -> (overflowed: bool)
        ensures
            final(self).nwords() == old(self).nwords(),
            final(self).val() == (old(self).val() * (y as nat) + (r as nat)) % (pow(
                word_base() as int,
                old(self).nwords(),
            ) as nat),
            overflowed <==> old(self).val() * (y as nat) + (r as nat) >= pow(
                word_base() as int,
                old(self).nwords(),
            ),
            !overflowed ==> final(self).val() == old(self).val() * (y as nat) + (r as nat),
    {
        let ghost orig = self.words@;
        let n = self.words.len();
        let mut c: u64 = r;
        let mut i: usize = 0;
        proof {
            lemma_pow0(word_base() as int);
            assert(orig.take(0) =~= Seq::<u64>::empty());
            assert(self.words@.take(0) =~= Seq::<u64>::empty());
            assert(words_val(Seq::<u64>::empty()) == 0);
        }
        while i < n
            invariant
                i <= n,
                n == self.words@.len(),
                n == orig.len(),
                forall|j: int| i <= j < n ==> self.words@[j] == orig[j],
                (c as nat) * pow(word_base() as int, i as nat) + words_val(self.words@.take(
                    i as int,
                )) == words_val(orig.take(i as int)) * (y as nat) + (r as nat),
            decreases n - i,
        {
            let w = self.words[i];
            let (c2, lo) = mul_add_ww(w, y, c);
            proof {
                let p = pow(word_base() as int, i as nat);
                lemma_pow_step(word_base() as int, i as nat);
                lemma_pow_positive(word_base() as int, i as nat);
                assert(orig.take(i + 1) =~= orig.take(i as int).push(orig[i as int]));
                lemma_words_val_push(orig.take(i as int), w);
                assert(self.words@.update(i as int, lo).take(i + 1) =~= self.words@.take(
                    i as int,
                ).push(lo));
                assert(self.words@.update(i as int, lo).take(i as int) =~= self.words@.take(
                    i as int,
                ));
                lemma_words_val_push(self.words@.take(i as int), lo);
                assert((c2 as nat) * pow(word_base() as int, (i + 1) as nat) + (words_val(
                    self.words@.take(i as int),
                ) + (lo as nat) * p) == (words_val(orig.take(i as int)) + (w as nat) * p) * (
                y as nat) + (r as nat)) by (nonlinear_arith)
                    requires
                        (c2 as nat) * word_base() + (lo as nat) == (w as nat) * (y as nat) + (
                        c as nat),
                        pow(word_base() as int, (i + 1) as nat) == p * word_base(),
                        (c as nat) * p + words_val(self.words@.take(i as int)) == words_val(
                            orig.take(i as int),
                        ) * (y as nat) + (r as nat),
                        p == pow(word_base() as int, i as nat),
                        p >= 0,
                ;
            }
            self.words[i] = lo;
            c = c2;
            i = i + 1;
        }
        proof {
            assert(orig.take(n as int) =~= orig);
            assert(self.words@.take(n as int) =~= self.words@);
            lemma_words_val_bound(self.words@);
            let p = pow(word_base() as int, n as nat);
            lemma_pow_positive(word_base() as int, n as nat);
            lemma_fundamental_div_mod_converse(
                (words_val(orig) * (y as nat) + (r as nat)) as int,
                p,
                c as int,
                words_val(self.words@) as int,
            );
            if c != 0 {
                assert((c as nat) * p >= p) by (nonlinear_arith)
                    requires
                        c >= 1,
                        p > 0,
                ;
            }
        }
        c != 0
    }

    /// Divides `self` in place by the radix `58^10`, processing words from the
    /// most to the least significant, and returns the remainder.
    pub fn quo_radix(&mut self) -> (rem: u64)
        ensures
            final(self).nwords() == old(self).nwords(),
            final(self).val() == old(self).val() / (RADIX as nat),
            rem as nat == old(self).val() % (RADIX as nat),
            rem < RADIX,
    {
        let ghost orig = self.words@;
        let n = self.words.len();
        let mut r: u64 = 0;
        let mut i: usize = n;
        proof {
            assert(orig.skip(n as int) =~= Seq::<u64>::empty());
            assert(self.words@.skip(n as int) =~= Seq::<u64>::empty());
            assert(words_val(Seq::<u64>::empty()) == 0);
        }
        while i > 0
            invariant
                i <= n,
                n == self.words@.len(),
                n == orig.len(),
                forall|j: int| 0 <= j < i ==> self.words@[j] == orig[j],
                r < RADIX,
                words_val(orig.skip(i as int)) == words_val(self.words@.skip(i as int)) * (
                RADIX as nat) + (r as nat),
            decreases i,
        {
            i = i - 1;
            let w = self.words[i];
            let (q, rr) = div_ww(r, w, RADIX);
            proof {
                lemma_words_val_skip_step(orig, i as int);
                let num = (r as nat) * word_base() + (w as nat);
                lemma_fundamental_div_mod(num as int, RADIX as int);
                assert(num == (RADIX as nat) * (q as nat) + (rr as nat));
                let upd = self.words@.update(i as int, q);
                assert(upd.skip(i + 1) =~= self.words@.skip(i + 1));
                lemma_words_val_skip_step(upd, i as int);
                assert(words_val(orig.skip(i as int)) == words_val(upd.skip(i as int)) * (
                RADIX as nat) + (rr as nat)) by (nonlinear_arith)
                    requires
                        words_val(orig.skip(i as int)) == (w as nat) + words_val(
                            orig.skip(i + 1),
                        ) * word_base(),
                        words_val(orig.skip(i + 1)) == words_val(self.words@.skip(i + 1)) * (
                        RADIX as nat) + (r as nat),
                        (RADIX as nat) * (q as nat) + (rr as nat) == (r as nat) * word_base() + (
                        w as nat),
                        words_val(upd.skip(i as int)) == (q as nat) + words_val(upd.skip(i + 1))
                            * word_base(),
                        words_val(upd.skip(i + 1)) == words_val(self.words@.skip(i + 1)),
                ;
            }
            self.words[i] = q;
            r = rr;
        }
        proof {
            assert(orig.skip(0) =~= orig);
            assert(self.words@.skip(0) =~= self.words@);
            lemma_fundamental_div_mod_converse(
                words_val(orig) as int,
                RADIX as int,
                words_val(self.words@) as int,
                r as int,
            );
        }
        r
    }
}

/// Reads one 64-bit word from eight big-endian bytes at `start`.
fn word_from_be_bytes(b: &Vec<u8>, start: usize) -> (w: u64)
    requires
        start + 8 <= b@.len(),
    ensures
        w as nat == bytes_val(b@.subrange(start as int, start as int + 8)),
{
    let blen = b.len();
    let mut w: u64 = 0;
    let mut k: usize = 0;
    proof {
        lemma_pow256_values();
        assert(b@.subrange(start as int, start as int + 0) =~= Seq::<u8>::empty());
        assert(bytes_val(Seq::<u8>::empty()) == 0);
    }
    while k < 8
        invariant
            k <= 8,
            blen == b@.len(),
            start + 8 <= blen,
            w as nat == bytes_val(b@.subrange(start as int, start as int + k)),
            (w as nat) < pow(256, k as nat),
        decreases 8 - k,
    {
        proof {
            lemma_pow256_values();
            lemma_pow_step(256, k as nat);
            assert(b@.subrange(start as int, start as int + (k + 1)) =~= b@.subrange(
                start as int,
                start as int + k,
            ).push(b@[start + k]));
            lemma_bytes_val_push(b@.subrange(start as int, start as int + k), b@[start + k]);
            lemma_pow_increases(256, k as nat, 7);
            assert((w as nat) * 256 + 256 <= pow(256, (k + 1) as nat)) by (nonlinear_arith)
                requires
                    (w as nat) < pow(256, k as nat),
                    pow(256, (k + 1) as nat) == pow(256, k as nat) * 256,
            ;
        }
        w = w * 256 + (b[start + k] as u64);
        k = k + 1;
    }
    w
}

/// Appends the eight big-endian bytes of `w` to `out`.
fn push_word_be(out: &mut Vec<u8>, w: u64)
    ensures
        final(out)@.len() == old(out)@.len() + 8,
        final(out)@.subrange(0, old(out)@.len() as int) == old(out)@,
        bytes_val(final(out)@.skip(old(out)@.len() as int)) == w as nat,
{
    let mut tmp: Vec<u8> = Vec::new();
    let mut r: u64 = w;
    let mut k: usize = 0;
    proof {
        lemma_pow256_values();
        assert(Seq::<u8>::empty().reverse() =~= Seq::<u8>::empty());
        assert(bytes_val(Seq::<u8>::empty()) == 0);
    }
    while k < 8
        invariant
            k <= 8,
            tmp@.len() == k,
            w as nat == (r as nat) * pow(256, k as nat) + bytes_val(tmp@.reverse()),
        decreases 8 - k,
    {
        let d = (r % 256) as u8;
        proof {
            lemma_pow_step(256, k as nat);
            lemma_fundamental_div_mod(r as int, 256);
            assert(tmp@.push(d).reverse() =~= seq![d] + tmp@.reverse());
            assert(seq![d].drop_last() =~= Seq::<u8>::empty());
            assert(bytes_val(Seq::<u8>::empty()) == 0);
            assert(bytes_val(seq![d]) == d as nat);
            lemma_bytes_val_concat(seq![d], tmp@.reverse());
            assert(bytes_val(tmp@.push(d).reverse()) == (d as nat) * pow(256, k as nat)
                + bytes_val(tmp@.reverse()));
            assert((r as nat) * pow(256, k as nat) == ((r as nat) / 256) * pow(
                256,
                (k + 1) as nat,
            ) + ((r as nat) % 256) * pow(256, k as nat)) by (nonlinear_arith)
                requires
                    pow(256, (k + 1) as nat) == pow(256, k as nat) * 256,
                    (r as nat) == ((r as nat) / 256) * 256 + ((r as nat) % 256),
            ;
        }
        r = r / 256;
        tmp.push(d);
        k = k + 1;
    }
    proof {
        lemma_pow256_values();
        lemma_bytes_val_bound(tmp@.reverse());
        if r != 0 {
            assert((r as nat) * pow(256, 8) >= pow(256, 8)) by (nonlinear_arith)
                requires
                    r >= 1,
                    pow(256, 8) > 0,
            ;
            assert(false);
        }
    }
    let ghost base = out@.len();
    let mut k2: usize = 0;
    proof {
        assert(out@.subrange(0, base as int) =~= old(out)@);
        assert(out@.skip(base as int) =~= tmp@.reverse().take(0));
    }
    while k2 < 8
        invariant
            k2 <= 8,
            tmp@.len() == 8,
            base == old(out)@.len(),
            out@.len() == base + k2,
            out@.subrange(0, base as int) == old(out)@,
            out@.skip(base as int) == tmp@.reverse().take(k2 as int),
            w as nat == bytes_val(tmp@.reverse()),
        decreases 8 - k2,
    {
        out.push(tmp[7 - k2]);
        proof {
            assert(out@.subrange(0, base as int) =~= old(out)@);
            assert(tmp@.reverse()[k2 as int] == tmp@[7 - k2]);
            assert(out@.skip(base as int) =~= tmp@.reverse().take(k2 + 1));
        }
        k2 = k2 + 1;
    }
    proof {
        assert(tmp@.reverse().take(8) =~= tmp@.reverse());
    }
}

} // verus!
