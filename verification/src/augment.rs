//! Sample-order parts of the augmentation of positive recordings: the
//! random time shift, fitting a signal to a window, and the names of the
//! variants. (Gain, tape speed and noise work on the sample values.)
use vstd::prelude::*;
use vstd::arithmetic::div_mod::{lemma_small_mod, lemma_mod_add_multiples_vanish};
use crate::text::{decimal, push_decimal, push_str, string_of, chars_of};
use crate::shuffle::{SeededRng, chacha8_upto};
use crate::paths::has_marker;

verus! {

/// Where output position `i` of a time shift of `n` samples reads from, for
/// the draw `draw` from `0..=2 * (n / 10)`: the shift is `draw - n / 10`, and
/// positions wrap around the window (`rem_euclid`).
pub open spec fn shifted_index(i: int, n: int, draw: int) -> int {
    (i + draw - n / 10) % n
}

/// `s` shifted cyclically for the draw `draw`.
pub open spec fn time_shifted<T>(s: Seq<T>, draw: int) -> Seq<T> {
    Seq::new(s.len(), |i: int| s[shifted_index(i, s.len() as int, draw)])
}

/// Shifts `samples` cyclically by `draw - n / 10` positions, `n` being their
/// number: output `i` is input `(i + shift) rem_euclid n`. The word sits in the
/// middle of the window and its edges are silence, so wrapping is harmless.
pub fn time_shift_by<T: Copy>(samples: &[T], draw: usize) -> (r: Vec<T>)
    requires
        draw <= 2 * (samples.len() / 10),
    ensures
        r@ == time_shifted(samples@, draw as int),
{
    let n = samples.len();
    let m = n / 10;
    let mut out: Vec<T> = Vec::new();
    if n == 0 {
        assert(out@ =~= time_shifted(samples@, draw as int));
        return out;
    }
    // The shift as a rotation to the left by `off`, with 0 <= off < n.
    let off = if draw >= m {
        draw - m
    } else {
        n - (m - draw)
    };
    for i in 0..n
        invariant
            n == samples.len(),
            n > 0,
            m == n / 10,
            draw <= 2 * m,
            off == (if draw >= m { draw - m } else { n - (m - draw) }),
            out@.len() == i,
            forall|k: int|
                0 <= k < i ==> out@[k] == samples@[shifted_index(k, n as int, draw as int)],
    {
        let idx = if i < n - off {
            i + off
        } else {
            i - (n - off)
        };
        proof {
            let x = i + draw - m;
            if draw >= m {
                if x < n {
                    lemma_small_mod(x as nat, n as nat);
                } else {
                    lemma_small_mod((x - n) as nat, n as nat);
                    lemma_mod_add_multiples_vanish(x - n, n as int);
                }
            } else {
                if x >= 0 {
                    lemma_small_mod(x as nat, n as nat);
                } else {
                    lemma_small_mod((x + n) as nat, n as nat);
                    lemma_mod_add_multiples_vanish(x, n as int);
                }
            }
            assert(idx as int == shifted_index(i as int, n as int, draw as int));
        }
        out.push(samples[idx]);
    }
    assert(out@ =~= time_shifted(samples@, draw as int));
    out
}

/// Time-shift augmentation: a cyclic shift by up to ±10 % of the window. The
/// shift is one draw `d` from `0..2 * (n / 10) + 1`, less `n / 10`. It is
/// asked of `rng` as `0..=2 * (n / 10)`, the same range, which rand samples
/// identically: for `usize` it draws a half-open `0..b` as `0..=b - 1`, by
/// the same path, for every `b` but `2^32` (where the two bounds fall on
/// either side of `u32::MAX`), and `2 * (n / 10) + 1` is odd.
pub fn time_shift<T: Copy>(samples: &[T], rng: &mut SeededRng) -> (r: Vec<T>)
    ensures
        r@ == time_shifted(
            samples@,
            chacha8_upto(old(rng).seed(), old(rng).asked(), (2 * (samples@.len() / 10)) as usize)
                as int,
        ),
        chacha8_upto(old(rng).seed(), old(rng).asked(), (2 * (samples@.len() / 10)) as usize) <= 2
            * (samples@.len() / 10),
        final(rng).seed() == old(rng).seed(),
        final(rng).asked() == old(rng).asked().push((2 * (samples@.len() / 10)) as usize),
{
    let n = samples.len();
    let max_shift = n / 10;
    let draw = rng.upto(2 * max_shift);
    time_shift_by(samples, draw)
}

/// Fits a signal to `len` samples: cut where longer, padded with `fill`
/// (silence) where shorter.
pub fn fit_to_len<T: Copy>(samples: &[T], len: usize, fill: T) -> (r: Vec<T>)
    ensures
        r@.len() == len,
        forall|i: int| 0 <= i < len ==> #[trigger] r@[i] == if i < samples@.len() {
            samples@[i]
        } else {
            fill
        },
{
    let mut out: Vec<T> = Vec::new();
    for i in 0..len
        invariant
            out@.len() == i,
            forall|k: int| 0 <= k < i ==> #[trigger] out@[k] == if k < samples@.len() {
                samples@[k]
            } else {
                fill
            },
    {
        if i < samples.len() {
            out.push(samples[i]);
        } else {
            out.push(fill);
        }
    }
    out
}

/// The file stem of variant `v` of the recording with stem `stem`:
/// `{stem}_v{v}`.
pub open spec fn variant_stem_of(stem: Seq<char>, v: nat) -> Seq<char> {
    stem + seq!['_', 'v'] + decimal(v)
}

/// The file stem of variant `v` of a recording: `{stem}_v{v}`.
pub fn variant_stem(stem: &str, v: u64) -> (r: String)
    ensures
        r@ == variant_stem_of(stem@, v as nat),
{
    let mut c: Vec<char> = Vec::new();
    push_str(&mut c, stem);
    c.push('_');
    c.push('v');
    push_decimal(&mut c, v);
    assert(c@ =~= variant_stem_of(stem@, v as nat));
    string_of(c.as_slice())
}

/// The decimal form of a number is one or more digits.
proof fn lemma_decimal_digits(n: nat)
    ensures
        decimal(n).len() > 0,
        forall|i: int| 0 <= i < decimal(n).len() ==> crate::paths::is_digit(#[trigger] decimal(n)[i]),
    decreases n,
{
    if n >= 10 {
        lemma_decimal_digits(n / 10);
    }
    assert forall|i: int| 0 <= i < decimal(n).len() implies crate::paths::is_digit(
        #[trigger] decimal(n)[i],
    ) by {
        if n >= 10 && i < decimal(n / 10).len() {
            assert(decimal(n)[i] == decimal(n / 10)[i]);
        }
    }
}

/// Every variant of a source recording has the source's group key: for a
/// stem without `_v`, `key_of_stem` of `{stem}_v{v}` is the stem, as is
/// `key_of_stem` of the stem itself. So a recording and its variants always
/// share a split.
pub proof fn lemma_variants_share_key(stem: Seq<char>, v: nat)
    requires
        !has_marker(stem),
    ensures
        crate::paths::key_of_stem(variant_stem_of(stem, v)) == stem,
        crate::paths::key_of_stem(stem) == stem,
{
    lemma_decimal_digits(v);
    crate::paths::lemma_variant_keeps_key(stem, decimal(v));
}

} // verus!
