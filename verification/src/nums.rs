//! Positional value models: a little-endian sequence of 64-bit words and a
//! big-endian sequence of bytes, each read as an unsigned integer.

use vstd::prelude::*;
use vstd::arithmetic::power::*;
use vstd::arithmetic::div_mod::*;

verus! {

/// The base of one 64-bit word: `2^64`.
pub open spec fn word_base() -> nat {
    0x1_0000_0000_0000_0000
}

/// Value of a little-endian word sequence: `s[0]` is the least significant word.
pub open spec fn words_val(s: Seq<u64>) -> nat
    decreases s.len(),
{
    if s.len() == 0 {
        0
    } else {
        (s[0] + words_val(s.skip(1)) * word_base()) as nat
    }
}

/// Value of a big-endian byte sequence: `s[0]` is the most significant byte.
pub open spec fn bytes_val(s: Seq<u8>) -> nat
    decreases s.len(),
{
    if s.len() == 0 {
        0
    } else {
        (bytes_val(s.drop_last()) * 256 + s.last()) as nat
    }
}

pub proof fn lemma_words_val_push(s: Seq<u64>, x: u64)
    ensures
        words_val(s.push(x)) == words_val(s) + x * pow(word_base() as int, s.len()),
    decreases s.len(),
{
    let b = word_base() as int;
    if s.len() == 0 {
        assert(s.push(x).skip(1) =~= Seq::<u64>::empty());
        assert(s.push(x)[0] == x);
        lemma_pow0(b);
        assert(x * pow(b, 0) == x) by (nonlinear_arith)
            requires
                pow(b, 0) == 1,
        ;
    } else {
        assert(s.push(x).skip(1) =~= s.skip(1).push(x));
        assert(s.push(x)[0] == s[0]);
        lemma_words_val_push(s.skip(1), x);
        assert(words_val(s.push(x)) == s.push(x)[0] + words_val(s.push(x).skip(1))
            * word_base());
        let p1 = pow(b, (s.len() - 1) as nat);
        assert(pow(b, s.len()) == p1 * b) by {
            lemma_pow1(b);
            lemma_pow_adds(b, (s.len() - 1) as nat, 1);
        }
        assert(words_val(s.push(x)) == words_val(s) + x * pow(b, s.len())) by (nonlinear_arith)
            requires
                words_val(s.push(x)) == s[0] + (words_val(s.skip(1)) + x * p1) * word_base(),
                words_val(s) == s[0] + words_val(s.skip(1)) * word_base(),
                pow(b, s.len()) == p1 * b,
                b == word_base(),
        ;
    }
}

pub proof fn lemma_words_val_bound(s: Seq<u64>)
    ensures
        words_val(s) < pow(word_base() as int, s.len()),
    decreases s.len(),
{
    let b = word_base() as int;
    if s.len() == 0 {
        lemma_pow0(b);
    } else {
        lemma_words_val_bound(s.skip(1));
        let p1 = pow(b, (s.len() - 1) as nat);
        assert(pow(b, s.len()) == p1 * b) by {
            lemma_pow1(b);
            lemma_pow_adds(b, (s.len() - 1) as nat, 1);
        }
        assert(words_val(s) < pow(b, s.len())) by (nonlinear_arith)
            requires
                words_val(s) == s[0] + words_val(s.skip(1)) * word_base(),
                words_val(s.skip(1)) < p1,
                s[0] < word_base(),
                pow(b, s.len()) == p1 * b,
                b == word_base(),
        ;
    }
}

pub proof fn lemma_words_val_concat(a: Seq<u64>, b: Seq<u64>)
    ensures
        words_val(a + b) == words_val(a) + words_val(b) * pow(word_base() as int, a.len()),
    decreases a.len(),
{
    let base = word_base() as int;
    if a.len() == 0 {
        assert(a + b =~= b);
        lemma_pow0(base);
    } else {
        assert((a + b).skip(1) =~= a.skip(1) + b);
        assert((a + b)[0] == a[0]);
        lemma_words_val_concat(a.skip(1), b);
        let p1 = pow(base, (a.len() - 1) as nat);
        assert(pow(base, a.len()) == p1 * base) by {
            lemma_pow1(base);
            lemma_pow_adds(base, (a.len() - 1) as nat, 1);
        }
        assert(words_val(a + b) == words_val(a) + words_val(b) * pow(base, a.len()))
            by (nonlinear_arith)
            requires
                words_val(a + b) == a[0] + (words_val(a.skip(1)) + words_val(b) * p1)
                    * word_base(),
                words_val(a) == a[0] + words_val(a.skip(1)) * word_base(),
                pow(base, a.len()) == p1 * base,
                base == word_base(),
        ;
    }
}

pub proof fn lemma_words_val_skip_step(s: Seq<u64>, i: int)
    requires
        0 <= i < s.len(),
    ensures
        words_val(s.skip(i)) == s[i] + words_val(s.skip(i + 1)) * word_base(),
{
    assert(s.skip(i).skip(1) =~= s.skip(i + 1));
    assert(s.skip(i)[0] == s[i]);
}

/// Word sequences of equal length that agree above index `i` are ordered as
/// their words at `i` when those differ: comparison is decided by the most
/// significant differing word.
pub proof fn lemma_words_val_ordered(a: Seq<u64>, b: Seq<u64>, i: int)
    requires
        a.len() == b.len(),
        0 <= i < a.len(),
        a[i] < b[i],
        forall|j: int| i < j < a.len() ==> a[j] == b[j],
    ensures
        words_val(a) < words_val(b),
{
    let base = word_base() as int;
    assert(a =~= a.take(i + 1) + a.skip(i + 1));
    assert(b =~= b.take(i + 1) + b.skip(i + 1));
    assert(a.skip(i + 1) =~= b.skip(i + 1));
    lemma_words_val_concat(a.take(i + 1), a.skip(i + 1));
    lemma_words_val_concat(b.take(i + 1), b.skip(i + 1));
    assert(a.take(i + 1) =~= a.take(i).push(a[i]));
    assert(b.take(i + 1) =~= b.take(i).push(b[i]));
    lemma_words_val_push(a.take(i), a[i]);
    lemma_words_val_push(b.take(i), b[i]);
    lemma_words_val_bound(a.take(i));
    lemma_pow_positive(base, i as nat);
    assert(words_val(a.take(i + 1)) < words_val(b.take(i + 1))) by (nonlinear_arith)
        requires
            words_val(a.take(i + 1)) == words_val(a.take(i)) + a[i] * pow(base, i as nat),
            words_val(b.take(i + 1)) == words_val(b.take(i)) + b[i] * pow(base, i as nat),
            words_val(a.take(i)) < pow(base, i as nat),
            words_val(b.take(i)) >= 0,
            a[i] < b[i],
            pow(base, i as nat) >= 1,
    ;
    assert(words_val(a) < words_val(b)) by (nonlinear_arith)
        requires
            words_val(a) == words_val(a.take(i + 1)) + words_val(a.skip(i + 1)) * pow(
                base,
                (i + 1) as nat,
            ),
            words_val(b) == words_val(b.take(i + 1)) + words_val(b.skip(i + 1)) * pow(
                base,
                (i + 1) as nat,
            ),
            words_val(a.skip(i + 1)) == words_val(b.skip(i + 1)),
            words_val(a.take(i + 1)) < words_val(b.take(i + 1)),
    ;
}

pub proof fn lemma_words_val_zero(s: Seq<u64>)
    ensures
        (words_val(s) == 0) <==> (forall|i: int| 0 <= i < s.len() ==> s[i] == 0),
    decreases s.len(),
{
    if s.len() == 0 {
    } else {
        lemma_words_val_zero(s.skip(1));
        assert(forall|j: int| 0 <= j < s.skip(1).len() ==> s.skip(1)[j] == s[j + 1]);
        if words_val(s) == 0 {
            assert(s[0] == 0);
            assert(words_val(s.skip(1)) == 0) by (nonlinear_arith)
                requires
                    s[0] + words_val(s.skip(1)) * word_base() == 0,
            ;
            assert forall|i: int| 0 <= i < s.len() implies s[i] == 0 by {
                if i > 0 {
                    assert(s.skip(1)[i - 1] == 0);
                }
            }
        }
        if forall|i: int| 0 <= i < s.len() ==> s[i] == 0 {
            assert(s[0] == 0);
            assert(forall|j: int| 0 <= j < s.skip(1).len() ==> s.skip(1)[j] == 0);
        }
    }
}

pub proof fn lemma_bytes_val_push(s: Seq<u8>, x: u8)
    ensures
        bytes_val(s.push(x)) == bytes_val(s) * 256 + x,
{
    assert(s.push(x).drop_last() =~= s);
}

pub proof fn lemma_bytes_val_concat(a: Seq<u8>, b: Seq<u8>)
    ensures
        bytes_val(a + b) == bytes_val(a) * pow(256, b.len()) + bytes_val(b),
    decreases b.len(),
{
    if b.len() == 0 {
        assert(a + b =~= a);
        lemma_pow0(256);
    } else {
        lemma_bytes_val_concat(a, b.drop_last());
        assert((a + b).drop_last() =~= a + b.drop_last());
        let p1 = pow(256, (b.len() - 1) as nat);
        assert(pow(256, b.len()) == p1 * 256) by {
            lemma_pow1(256);
            lemma_pow_adds(256, (b.len() - 1) as nat, 1);
        }
        assert(bytes_val(a + b) == bytes_val(a) * pow(256, b.len()) + bytes_val(b))
            by (nonlinear_arith)
            requires
                bytes_val(a + b) == (bytes_val(a) * p1 + bytes_val(b.drop_last())) * 256
                    + b.last(),
                bytes_val(b) == bytes_val(b.drop_last()) * 256 + b.last(),
                pow(256, b.len()) == p1 * 256,
        ;
    }
}

pub proof fn lemma_bytes_val_bound(s: Seq<u8>)
    ensures
        bytes_val(s) < pow(256, s.len()),
    decreases s.len(),
{
    if s.len() == 0 {
        lemma_pow0(256);
    } else {
        lemma_bytes_val_bound(s.drop_last());
        let p1 = pow(256, (s.len() - 1) as nat);
        assert(pow(256, s.len()) == p1 * 256) by {
            lemma_pow1(256);
            lemma_pow_adds(256, (s.len() - 1) as nat, 1);
        }
        assert(bytes_val(s) < pow(256, s.len())) by (nonlinear_arith)
            requires
                bytes_val(s) == bytes_val(s.drop_last()) * 256 + s.last(),
                bytes_val(s.drop_last()) < p1,
                s.last() < 256,
                pow(256, s.len()) == p1 * 256,
        ;
    }
}

/// Two byte sequences of the same length with the same value are equal:
/// a fixed-width big-endian representation is unique.
pub proof fn lemma_bytes_val_injective(a: Seq<u8>, b: Seq<u8>)
    requires
        a.len() == b.len(),
        bytes_val(a) == bytes_val(b),
    ensures
        a == b,
    decreases a.len(),
{
    if a.len() == 0 {
        assert(a =~= b);
    } else {
        lemma_fundamental_div_mod_converse(
            bytes_val(a) as int,
            256,
            bytes_val(a.drop_last()) as int,
            a.last() as int,
        );
        lemma_fundamental_div_mod_converse(
            bytes_val(b) as int,
            256,
            bytes_val(b.drop_last()) as int,
            b.last() as int,
        );
        lemma_bytes_val_injective(a.drop_last(), b.drop_last());
        assert forall|i: int| 0 <= i < a.len() implies a[i] == b[i] by {
            if i < a.len() - 1 {
                assert(a.drop_last()[i] == b.drop_last()[i]);
            }
        }
        assert(a =~= b);
    }
}

/// A byte sequence has value zero exactly when every byte is zero.
pub proof fn lemma_bytes_val_zero(s: Seq<u8>)
    ensures
        (bytes_val(s) == 0) <==> (forall|i: int| 0 <= i < s.len() ==> s[i] == 0),
    decreases s.len(),
{
    if s.len() == 0 {
    } else {
        lemma_bytes_val_zero(s.drop_last());
        assert(forall|j: int| 0 <= j < s.drop_last().len() ==> s.drop_last()[j] == s[j]);
        if bytes_val(s) == 0 {
            assert(bytes_val(s.drop_last()) * 256 + s.last() == 0);
            assert(s.last() == 0);
            assert(bytes_val(s.drop_last()) == 0) by (nonlinear_arith)
                requires
                    bytes_val(s.drop_last()) * 256 == 0,
            ;
            assert forall|i: int| 0 <= i < s.len() implies s[i] == 0 by {
                if i < s.len() - 1 {
                    assert(s.drop_last()[i] == 0);
                }
            }
        }
        if forall|i: int| 0 <= i < s.len() ==> s[i] == 0 {
            assert(forall|j: int| 0 <= j < s.drop_last().len() ==> s.drop_last()[j] == 0);
            assert(s.last() == 0);
        }
    }
}

pub proof fn lemma_pow_step(b: int, e: nat)
    ensures
        pow(b, e + 1) == pow(b, e) * b,
{
    lemma_pow1(b);
    lemma_pow_adds(b, e, 1);
}

/// Ground values of the powers of 256 up to one 64-bit word.
pub proof fn lemma_pow256_values()
    ensures
        pow(256, 0) == 1,
        pow(256, 1) == 0x100,
        pow(256, 2) == 0x1_0000,
        pow(256, 3) == 0x100_0000,
        pow(256, 4) == 0x1_0000_0000,
        pow(256, 5) == 0x100_0000_0000,
        pow(256, 6) == 0x1_0000_0000_0000,
        pow(256, 7) == 0x100_0000_0000_0000,
        pow(256, 8) == 0x1_0000_0000_0000_0000,
{
    lemma_pow0(256);
    lemma_pow_step(256, 0);
    lemma_pow_step(256, 1);
    lemma_pow_step(256, 2);
    lemma_pow_step(256, 3);
    lemma_pow_step(256, 4);
    lemma_pow_step(256, 5);
    lemma_pow_step(256, 6);
    lemma_pow_step(256, 7);
}

/// `2^64` raised to `k` words covers the same range as `256` raised to the
/// matching count of `8 * k` bytes.
pub proof fn lemma_pow_words_bytes(k: nat)
    ensures
        pow(word_base() as int, k) == pow(256, 8 * k),
{
    lemma_pow_multiplies(256, 8, k);
    lemma_pow1(256);
    lemma_pow_adds(256, 1, 1);
    assert(pow(256, 2) == 0x10000);
    lemma_pow_adds(256, 2, 2);
    assert(pow(256, 4) == 0x1_0000_0000);
    lemma_pow_adds(256, 4, 4);
    assert(pow(256, 8) == 0x1_0000_0000_0000_0000);
}

} // verus!
