//! The mathematical value of a little-endian word sequence.
//!
//! Every magnitude in this crate is a sequence of 64-bit words, least
//! significant first.  `val` gives the natural number such a sequence stands
//! for; the lemmas here relate `val` to taking, skipping and updating words
//! and are the backbone of the arithmetic proofs.

use vstd::prelude::*;
use vstd::arithmetic::power2::*;

verus! {

/// The natural number encoded by a little-endian sequence of 64-bit words.
pub open spec fn val(s: Seq<u64>) -> nat
    decreases s.len(),
{
    if s.len() == 0 {
        0
    } else {
        s[0] as nat + pow2(64) * val(s.subrange(1, s.len() as int))
    }
}

/// A sequence of words encodes a value below `2^(64 * len)`.
pub proof fn lemma_val_bound(s: Seq<u64>)
    ensures
        val(s) < pow2(64 * s.len()),
    decreases s.len(),
{
    lemma_pow2_pos(64 * s.len());
    if s.len() == 0 {
    } else {
        let tail = s.subrange(1, s.len() as int);
        lemma_val_bound(tail);
        lemma_pow2_adds(64, 64 * (s.len() - 1) as nat);
        lemma_pow2_pos(64);
        lemma2_to64();
        assert(s[0] < pow2(64));
        assert(val(s) <= (pow2(64) - 1) + pow2(64) * (pow2(64 * (s.len() - 1) as nat) - 1))
            by (nonlinear_arith)
            requires
                s[0] < pow2(64),
                val(tail) <= pow2(64 * (s.len() - 1) as nat) - 1,
                val(s) == s[0] as nat + pow2(64) * val(tail),
                pow2(64) > 0,
        ;
        assert(pow2(64) * pow2(64 * (s.len() - 1) as nat) == pow2(64 * s.len()));
    }
}

/// Splitting a sequence at word `i` splits its value at `2^(64 * i)`.
pub proof fn lemma_val_split(s: Seq<u64>, i: int)
    requires
        0 <= i <= s.len(),
    ensures
        val(s) == val(s.take(i)) + pow2(64 * i as nat) * val(s.skip(i)),
    decreases i,
{
    if i == 0 {
        assert(s.take(0) =~= Seq::<u64>::empty());
        assert(s.skip(0) =~= s);
        lemma2_to64();
    } else {
        let tail = s.subrange(1, s.len() as int);
        lemma_val_split(tail, i - 1);
        assert(s.take(i).subrange(1, i) =~= tail.take(i - 1));
        assert(s.skip(i) =~= tail.skip(i - 1));
        assert(val(s.take(i)) == s[0] as nat + pow2(64) * val(tail.take(i - 1)));
        lemma_pow2_adds(64, 64 * (i - 1) as nat);
        assert(val(s) == s[0] as nat + pow2(64) * val(tail));
        assert(pow2(64) * (val(tail.take(i - 1)) + pow2(64 * (i - 1) as nat) * val(tail.skip(i - 1)))
            == pow2(64) * val(tail.take(i - 1)) + (pow2(64) * pow2(64 * (i - 1) as nat)) * val(
            tail.skip(i - 1),
        )) by (nonlinear_arith);
    }
}

/// Extending a prefix by one word adds that word's weighted value.
pub proof fn lemma_val_take_succ(s: Seq<u64>, i: int)
    requires
        0 <= i < s.len(),
    ensures
        val(s.take(i + 1)) == val(s.take(i)) + pow2(64 * i as nat) * s[i],
{
    let p = s.take(i + 1);
    lemma_val_split(p, i);
    assert(p.take(i) =~= s.take(i));
    let last = p.skip(i);
    assert(last.len() == 1);
    assert(last[0] == s[i]);
    assert(last.subrange(1, 1) =~= Seq::<u64>::empty());
    assert(val(last.subrange(1, 1)) == 0);
    assert(val(last) == last[0] as nat + pow2(64) * val(last.subrange(1, last.len() as int)));
    assert(val(last) == s[i] as nat);
    assert(val(p) == val(s.take(i)) + pow2(64 * i as nat) * val(last));
}

/// Unfolding the value of a suffix one word at a time.
pub proof fn lemma_val_skip_succ(s: Seq<u64>, i: int)
    requires
        0 <= i < s.len(),
    ensures
        val(s.skip(i)) == s[i] as nat + pow2(64) * val(s.skip(i + 1)),
{
    let t = s.skip(i);
    assert(t[0] == s[i]);
    assert(t.subrange(1, t.len() as int) =~= s.skip(i + 1));
}

/// Two word sequences of one length with one value are the same sequence.
pub proof fn lemma_val_injective(s: Seq<u64>, t: Seq<u64>)
    requires
        s.len() == t.len(),
        val(s) == val(t),
    ensures
        s =~= t,
    decreases s.len(),
{
    if s.len() > 0 {
        let st = s.subrange(1, s.len() as int);
        let tt = t.subrange(1, t.len() as int);
        lemma2_to64();
        assert(s[0] as nat == val(s) % pow2(64) && val(st) == val(s) / pow2(64)) by {
            lemma_val_head_mod(s);
        }
        assert(t[0] as nat == val(t) % pow2(64) && val(tt) == val(t) / pow2(64)) by {
            lemma_val_head_mod(t);
        }
        lemma_val_injective(st, tt);
        assert(s[0] == t[0]);
        assert forall|i: int| 0 <= i < s.len() implies s[i] == t[i] by {
            if i > 0 {
                assert(st[i - 1] == tt[i - 1]);
            }
        }
    }
}

/// The head word is the value modulo `2^64`; the tail is the quotient.
pub proof fn lemma_val_head_mod(s: Seq<u64>)
    requires
        s.len() > 0,
    ensures
        s[0] as nat == val(s) % pow2(64),
        val(s.subrange(1, s.len() as int)) == val(s) / pow2(64),
{
    let tail = s.subrange(1, s.len() as int);
    lemma2_to64();
    assert(s[0] < pow2(64));
    vstd::arithmetic::div_mod::lemma_fundamental_div_mod_converse(
        val(s) as int,
        pow2(64) as int,
        val(tail) as int,
        s[0] as int,
    );
}

/// Concatenation splits the value at the weight of the boundary word.
pub proof fn lemma_val_concat(s: Seq<u64>, t: Seq<u64>)
    ensures
        val(s + t) == val(s) + pow2(64 * s.len()) * val(t),
{
    lemma_val_split(s + t, s.len() as int);
    assert((s + t).take(s.len() as int) =~= s);
    assert((s + t).skip(s.len() as int) =~= t);
}

/// Appending a word adds its weighted value.
pub proof fn lemma_val_push(s: Seq<u64>, w: u64)
    ensures
        val(s.push(w)) == val(s) + pow2(64 * s.len()) * w,
{
    let single = seq![w];
    assert(single.len() == 1);
    assert(single[0] == w);
    assert(single.subrange(1, 1) =~= Seq::<u64>::empty());
    assert(val(single.subrange(1, 1)) == 0);
    assert(val(single) == w as nat + pow2(64) * val(single.subrange(1, single.len() as int)));
    assert(val(single) == w as nat);
    lemma_val_concat(s, single);
    assert(s.push(w) =~= s + single);
}

/// The unique little-endian word encoding of `v` in `len` words.
pub open spec fn digits(v: nat, len: nat) -> Seq<u64>
    decreases len,
{
    if len == 0 {
        Seq::empty()
    } else {
        seq![(v % pow2(64)) as u64] + digits(v / pow2(64), (len - 1) as nat)
    }
}

/// `digits` has the requested length and, when the value fits, encodes it.
pub proof fn lemma_digits_val(v: nat, len: nat)
    ensures
        digits(v, len).len() == len,
        v < pow2(64 * len) ==> val(digits(v, len)) == v,
    decreases len,
{
    if len == 0 {
        lemma2_to64();
        assert(digits(v, 0) =~= Seq::<u64>::empty());
        assert(val(digits(v, 0)) == 0);
    } else {
        let d = digits(v, len);
        let rest = digits(v / pow2(64), (len - 1) as nat);
        lemma_digits_val(v / pow2(64), (len - 1) as nat);
        assert(d.subrange(1, d.len() as int) =~= rest);
        lemma2_to64();
        assert(d[0] == (v % pow2(64)) as u64);
        if v < pow2(64 * len) {
            lemma_pow2_adds(64, 64 * (len - 1) as nat);
            lemma_pow2_pos(64);
            assert(v / pow2(64) < pow2(64 * (len - 1) as nat)) by (nonlinear_arith)
                requires
                    v < pow2(64) * pow2(64 * (len - 1) as nat),
                    pow2(64) > 0,
            ;
            vstd::arithmetic::div_mod::lemma_fundamental_div_mod(v as int, pow2(64) as int);
            assert(v % pow2(64) < pow2(64));
            assert(val(d) == (v % pow2(64)) + pow2(64) * (v / pow2(64)));
        }
    }
}

/// A sequence of zero words encodes zero.
pub proof fn lemma_val_zero(s: Seq<u64>)
    requires
        forall|k: int| 0 <= k < s.len() ==> s[k] == 0,
    ensures
        val(s) == 0,
    decreases s.len(),
{
    if s.len() > 0 {
        let tail = s.subrange(1, s.len() as int);
        assert forall|k: int| 0 <= k < tail.len() implies tail[k] == 0 by {
            assert(s[k + 1] == 0);
        }
        lemma_val_zero(tail);
        assert(s[0] == 0);
        assert(val(s) == s[0] as nat + pow2(64) * val(tail));
        assert(pow2(64) * 0 == 0) by (nonlinear_arith);
    }
}

/// A sequence of all-ones words encodes one less than its weight.
pub proof fn lemma_val_all_ones(s: Seq<u64>)
    requires
        forall|k: int| 0 <= k < s.len() ==> s[k] == u64::MAX,
    ensures
        val(s) == pow2(64 * s.len()) - 1,
    decreases s.len(),
{
    lemma2_to64();
    if s.len() > 0 {
        let tail = s.subrange(1, s.len() as int);
        assert forall|k: int| 0 <= k < tail.len() implies tail[k] == u64::MAX by {
            assert(s[k + 1] == u64::MAX);
        }
        lemma_val_all_ones(tail);
        lemma_pow2_adds(64, 64 * (s.len() - 1) as nat);
        lemma_pow2_pos(64 * (s.len() - 1) as nat);
        assert(s[0] == u64::MAX);
        assert(val(s) == (pow2(64) - 1) + pow2(64) * (pow2(64 * (s.len() - 1) as nat) - 1));
        assert(pow2(64) * (pow2(64 * (s.len() - 1) as nat) - 1) == pow2(64) * pow2(
            64 * (s.len() - 1) as nat,
        ) - pow2(64)) by (nonlinear_arith);
    }
}

/// A nonzero word makes the encoded value nonzero.
pub proof fn lemma_val_pos(s: Seq<u64>, k: int)
    requires
        0 <= k < s.len(),
        s[k] > 0,
    ensures
        val(s) > 0,
{
    lemma_val_split(s, k);
    lemma_val_skip_succ(s, k);
    lemma_pow2_pos(64 * k as nat);
    lemma_pow2_pos(64);
    assert(val(s.skip(k)) >= 1);
    assert(pow2(64 * k as nat) * val(s.skip(k)) >= 1) by (nonlinear_arith)
        requires
            pow2(64 * k as nat) >= 1,
            val(s.skip(k)) >= 1,
    ;
}

/// Equal values of one length mean equal words; for different lengths the
/// longer sequence matches the shorter one and is zero above it.
pub proof fn lemma_val_eq_words(s: Seq<u64>, t: Seq<u64>)
    requires
        s.len() <= t.len(),
        val(s) == val(t),
    ensures
        forall|i: int| 0 <= i < s.len() ==> s[i] == t[i],
        forall|i: int| s.len() <= i < t.len() ==> t[i] == 0,
{
    let pad = Seq::<u64>::new((t.len() - s.len()) as nat, |i: int| 0u64);
    lemma_val_concat(s, pad);
    lemma_val_zero(pad);
    lemma_val_injective(s + pad, t);
    assert forall|i: int| 0 <= i < s.len() implies s[i] == t[i] by {
        assert((s + pad)[i] == s[i]);
    }
    assert forall|i: int| s.len() <= i < t.len() implies t[i] == 0 by {
        assert((s + pad)[i] == 0);
    }
}

/// Dividing the value by the weight of bit `j` of word `wi` splits it into
/// the words below, the low bits of that word, and everything above.
pub proof fn lemma_val_word_split(s: Seq<u64>, wi: int, j: nat)
    requires
        0 <= wi < s.len(),
        j <= 64,
    ensures
        val(s) % (pow2((64 * wi) as nat) * pow2(j)) == val(s.take(wi)) + pow2((64 * wi) as nat) * (
        (s[wi] as nat) % pow2(j)),
        val(s) / (pow2((64 * wi) as nat) * pow2(j)) == ((s[wi] as nat) / pow2(j)) + pow2(
            (64 - j) as nat,
        ) * val(s.skip(wi + 1)),
{
    let p = pow2((64 * wi) as nat);
    let a = val(s.take(wi));
    let t = val(s.skip(wi + 1));
    let w = s[wi] as nat;
    lemma_val_split(s, wi);
    lemma_val_skip_succ(s, wi);
    lemma_val_bound(s.take(wi));
    lemma_pow2_pos(j);
    lemma_pow2_pos((64 - j) as nat);
    lemma_pow2_pos((64 * wi) as nat);
    lemma_pow2_adds(j, (64 - j) as nat);
    lemma2_to64();
    vstd::arithmetic::div_mod::lemma_fundamental_div_mod(w as int, pow2(j) as int);
    let q = w / pow2(j) + pow2((64 - j) as nat) * t;
    let r = a + p * (w % pow2(j));
    assert(val(s) == val(s.take(wi)) + p * val(s.skip(wi)));
    assert(val(s.skip(wi)) == w + pow2(64) * t);
    assert(val(s) == a + p * (w + pow2(64) * t)) by (nonlinear_arith)
        requires
            val(s) == a + p * val(s.skip(wi)),
            val(s.skip(wi)) == w + pow2(64) * t,
    ;
    let wq = w / pow2(j);
    let wr = w % pow2(j);
    assert((p * pow2(j)) * wq == p * (pow2(j) * wq)) by (nonlinear_arith);
    assert(p * (pow2(j) * wq + wr) == p * (pow2(j) * wq) + p * wr) by (nonlinear_arith);
    assert((p * pow2(j)) * (w / pow2(j)) + p * (w % pow2(j)) == p * w) by (nonlinear_arith)
        requires
            w == pow2(j) * wq + wr,
            wq == w / pow2(j),
            wr == w % pow2(j),
            (p * pow2(j)) * wq == p * (pow2(j) * wq),
            p * (pow2(j) * wq + wr) == p * (pow2(j) * wq) + p * wr,
    ;
    assert((p * pow2(j)) * (pow2((64 - j) as nat) * t) == p * (pow2(64) * t)) by (nonlinear_arith)
        requires
            pow2(64) == pow2(j) * pow2((64 - j) as nat),
    ;
    assert(val(s) == q * (p * pow2(j)) + r) by (nonlinear_arith)
        requires
            val(s) == a + p * (w + pow2(64) * t),
            (p * pow2(j)) * (w / pow2(j)) + p * (w % pow2(j)) == p * w,
            (p * pow2(j)) * (pow2((64 - j) as nat) * t) == p * (pow2(64) * t),
            q == w / pow2(j) + pow2((64 - j) as nat) * t,
            r == a + p * (w % pow2(j)),
    ;
    assert(r < p * pow2(j)) by (nonlinear_arith)
        requires
            r == a + p * (w % pow2(j)),
            a < p,
            w % pow2(j) < pow2(j),
            p > 0,
            pow2(j) > 0,
    ;
    assert(p * pow2(j) > 0) by (nonlinear_arith)
        requires
            p > 0,
            pow2(j) > 0,
    ;
    vstd::arithmetic::div_mod::lemma_fundamental_div_mod_converse(
        val(s) as int,
        (p * pow2(j)) as int,
        q as int,
        r as int,
    );
}

/// Enough words for a declared bit length: the rounded-up word count
/// covers the bits.
pub proof fn lemma_words_for_bits(b: int)
    requires
        0 <= b,
    ensures
        64 * ((b + 63) / 64) >= b,
{
    vstd::arithmetic::div_mod::lemma_fundamental_div_mod(b, 64);
    let q = b / 64;
    let u = b % 64;
    if u == 0 {
        vstd::arithmetic::div_mod::lemma_div_multiples_vanish_fancy(q, 63, 64);
        assert(b + 63 == 64 * q + 63);
    } else {
        vstd::arithmetic::div_mod::lemma_div_multiples_vanish_fancy(q + 1, u - 1, 64);
        assert(b + 63 == 64 * (q + 1) + (u - 1));
    }
}

/// A value below the weight of word `k` leaves all words from `k` on zero-valued.
pub proof fn lemma_val_small_skip(s: Seq<u64>, k: int)
    requires
        0 <= k <= s.len(),
        val(s) < pow2(64 * k as nat),
    ensures
        val(s.skip(k)) == 0,
{
    lemma_val_split(s, k);
    lemma_pow2_pos(64 * k as nat);
    if val(s.skip(k)) > 0 {
        assert(pow2(64 * k as nat) * val(s.skip(k)) >= pow2(64 * k as nat)) by (nonlinear_arith)
            requires
                val(s.skip(k)) >= 1,
                pow2(64 * k as nat) > 0,
        ;
    }
}

} // verus!
