//! Fisher–Yates shuffling driven by a seeded ChaCha8 generator.
use vstd::prelude::*;
pub use crate::rng::SeededRng;

verus! {

broadcast use vstd::seq_lib::group_to_multiset_ensures, vstd::multiset::group_multiset_axioms;

/// What `RngExt::random_range(0..=hi)` gives on a ChaCha8 generator made by
/// `ChaCha8Rng::seed_from_u64(seed)` after it has been asked, in order, for
/// draws from `0..=asked[0]`, `0..=asked[1]`, ... . The generator is
/// deterministic and portable (rand_chacha), and rand samples `usize` ranges
/// the same way on 32- and 64-bit machines, so the draw is a function of
/// these values alone.
pub uninterp spec fn chacha8_upto(seed: u64, asked: Seq<usize>, hi: usize) -> usize;

impl SeededRng {
    /// A generator seeded with `seed`, with nothing asked yet.
    pub fn new(seed: u64) -> (r: SeededRng)
        ensures
            r.seed() == seed,
            r.asked() == Seq::<usize>::empty(),
    {
        Self::seed_from_u64(seed)
    }

    /// A draw from `0..=hi`: `chacha8_upto` of the seed and history; `hi`
    /// joins the history.
    pub fn upto(&mut self, hi: usize) -> (r: usize)
        ensures
            r == chacha8_upto(old(self).seed(), old(self).asked(), hi),
            r <= hi,
            final(self).seed() == old(self).seed(),
            final(self).asked() == old(self).asked().push(hi),
    {
        self.random_upto(hi)
    }
}

/// The draws a generator with the seed `seed` and the history `asked` gives
/// when asked for draws up to `bounds[0]`, `bounds[1]`, ... in turn.
pub open spec fn chacha8_draws(seed: u64, asked: Seq<usize>, bounds: Seq<usize>) -> Seq<usize>
    decreases bounds.len(),
{
    if bounds.len() == 0 {
        Seq::empty()
    } else {
        chacha8_draws(seed, asked, bounds.drop_last()).push(
            chacha8_upto(seed, asked + bounds.drop_last(), bounds.last()),
        )
    }
}

/// Each draw of a run depends on the seed, on everything asked before it,
/// earlier in the run or before the run began, and on its own bound: the
/// `k`-th of the draws for `bounds` is what the generator gives for
/// `bounds[k]` once it has been asked `asked` and then `bounds[0..k]`.
pub proof fn lemma_draw_at(seed: u64, asked: Seq<usize>, bounds: Seq<usize>, k: int)
    requires
        0 <= k < bounds.len(),
    ensures
        chacha8_draws(seed, asked, bounds).len() == bounds.len(),
        chacha8_draws(seed, asked, bounds)[k] == chacha8_upto(
            seed,
            asked + bounds.take(k),
            bounds[k],
        ),
    decreases bounds.len(),
{
    let b = bounds.drop_last();
    if k < b.len() {
        lemma_draw_at(seed, asked, b, k);
        assert(b.take(k) =~= bounds.take(k));
    } else {
        lemma_draws_len(seed, asked, b);
        assert(b =~= bounds.take(k));
    }
}

/// A run of draws is as long as its list of bounds.
proof fn lemma_draws_len(seed: u64, asked: Seq<usize>, bounds: Seq<usize>)
    ensures
        chacha8_draws(seed, asked, bounds).len() == bounds.len(),
    decreases bounds.len(),
{
    if bounds.len() > 0 {
        lemma_draws_len(seed, asked, bounds.drop_last());
    }
}

/// The draws of one generator form one stream: asking for `first` and then
/// for `then` gives the draws for `first`, followed by the draws for `then`
/// of the generator that has by now also been asked `first`.
pub proof fn lemma_draws_continue(
    seed: u64,
    asked: Seq<usize>,
    first: Seq<usize>,
    then: Seq<usize>,
)
    ensures
        chacha8_draws(seed, asked, first + then) == chacha8_draws(seed, asked, first)
            + chacha8_draws(seed, asked + first, then),
    decreases then.len(),
{
    if then.len() == 0 {
        assert(first + then =~= first);
        assert(chacha8_draws(seed, asked, first) + chacha8_draws(seed, asked + first, then)
            =~= chacha8_draws(seed, asked, first));
    } else {
        let t = then.drop_last();
        lemma_draws_continue(seed, asked, first, t);
        assert((first + then).drop_last() =~= first + t);
        assert((first + then).last() == then.last());
        assert(asked + (first + t) =~= (asked + first) + t);
        assert(chacha8_draws(seed, asked, first + then) =~= chacha8_draws(seed, asked, first)
            + chacha8_draws(seed, asked + first, then));
    }
}

/// The bounds of the draws a Fisher–Yates pass over `n` items asks for: each
/// position from the last down to the second, `n - 1, n - 2, ..., 1`.
pub open spec fn fy_bounds(n: nat) -> Seq<usize> {
    Seq::new(if n == 0 { 0 } else { (n - 1) as nat }, |k: int| (n - 1 - k) as usize)
}

/// Swaps two items of a vector: `slice::swap`.
#[verifier::external_body]
fn swap_items<T>(v: &mut Vec<T>, i: usize, j: usize)
    requires
        i < old(v).len(),
        j < old(v).len(),
    ensures
        final(v)@ == swap_at(old(v)@, i as int, j as int),
{
    v.swap(i, j);
}

/// `s` with the items at `i` and `j` exchanged.
pub open spec fn swap_at<A>(s: Seq<A>, i: int, j: int) -> Seq<A> {
    s.update(i, s[j]).update(j, s[i])
}

/// The draws that a Fisher–Yates pass over `n` items consumes: one for each
/// position from the last down to the second, the `k`-th of them at most
/// `n - 1 - k`.
pub open spec fn valid_draws(d: Seq<usize>, n: nat) -> bool {
    &&& d.len() == (if n == 0 { 0 } else { n - 1 })
    &&& forall|k: int| 0 <= k < d.len() ==> #[trigger] d[k] <= n - 1 - k
}

/// `s` after the swaps of the first `d.len()` steps of Fisher–Yates: step
/// `k` exchanges the item at position `s.len() - 1 - k` with the one at `d[k]`.
pub open spec fn fisher_yates<A>(s: Seq<A>, d: Seq<usize>) -> Seq<A>
    decreases d.len(),
{
    if d.len() == 0 {
        s
    } else {
        let k = d.len() - 1;
        swap_at(fisher_yates(s, d.drop_last()), s.len() - 1 - k, d[k] as int)
    }
}

/// Swapping two items keeps the length and the multiset of items.
pub proof fn lemma_swap_at_permutes<A>(s: Seq<A>, i: int, j: int)
    requires
        0 <= i < s.len(),
        0 <= j < s.len(),
    ensures
        swap_at(s, i, j).len() == s.len(),
        swap_at(s, i, j).to_multiset() == s.to_multiset(),
{
    let t = s.update(i, s[j]);
    assert(t.to_multiset() == s.to_multiset().insert(s[j]).remove(s[i]));
    assert(t[j] == if i == j { s[j] } else { s[j] });
    assert(swap_at(s, i, j).to_multiset() == t.to_multiset().insert(s[i]).remove(t[j]));
    assert(swap_at(s, i, j).to_multiset() =~= s.to_multiset());
}

/// A Fisher–Yates pass rearranges the items: it keeps the length and the
/// multiset of items.
pub proof fn lemma_fisher_yates_permutes<A>(s: Seq<A>, d: Seq<usize>)
    requires
        d.len() <= s.len(),
        forall|k: int| 0 <= k < d.len() ==> #[trigger] d[k] < s.len(),
    ensures
        fisher_yates(s, d).len() == s.len(),
        fisher_yates(s, d).to_multiset() == s.to_multiset(),
    decreases d.len(),
{
    if d.len() > 0 {
        let k = d.len() - 1;
        let e = d.drop_last();
        assert forall|m: int| 0 <= m < e.len() implies #[trigger] e[m] < s.len() by {
            assert(e[m] == d[m]);
        }
        lemma_fisher_yates_permutes(s, e);
        lemma_swap_at_permutes(fisher_yates(s, e), s.len() - 1 - k, d[k] as int);
    }
}

/// Step `j` of a Fisher–Yates pass settles position `s.len() - 1 - j`: the
/// later steps only swap positions below it.
proof fn lemma_fisher_yates_settled<A>(s: Seq<A>, d: Seq<usize>, j: int)
    requires
        d.len() <= s.len(),
        forall|k: int| 0 <= k < d.len() ==> #[trigger] d[k] <= s.len() - 1 - k,
        0 <= j < d.len(),
    ensures
        fisher_yates(s, d)[s.len() - 1 - j] == fisher_yates(s, d.take(j + 1))[s.len() - 1 - j],
    decreases d.len(),
{
    let k = d.len() - 1;
    let e = d.drop_last();
    if j < k {
        assert forall|m: int| 0 <= m < e.len() implies #[trigger] e[m] <= s.len() - 1 - m by {
            assert(e[m] == d[m]);
        }
        lemma_fisher_yates_settled(s, e, j);
        assert(e.take(j + 1) =~= d.take(j + 1));
        assert forall|m: int| 0 <= m < e.len() implies #[trigger] e[m] < s.len() by {
            assert(e[m] == d[m]);
        }
        lemma_fisher_yates_permutes(s, e);
    } else {
        assert(d.take(j + 1) =~= d);
    }
}

/// Step `j` of a Fisher–Yates pass puts at position `s.len() - 1 - j` the
/// item found at position `d[j]` after the steps before it.
proof fn lemma_fisher_yates_step<A>(s: Seq<A>, d: Seq<usize>, j: int)
    requires
        d.len() <= s.len(),
        forall|k: int| 0 <= k < d.len() ==> #[trigger] d[k] <= s.len() - 1 - k,
        0 <= j < d.len(),
    ensures
        fisher_yates(s, d.take(j + 1))[s.len() - 1 - j] == fisher_yates(s, d.take(j))[d[j] as int],
{
    let e = d.take(j + 1);
    assert(e.drop_last() =~= d.take(j));
    assert(e[j] == d[j]);
    let t = d.take(j);
    assert forall|m: int| 0 <= m < t.len() implies #[trigger] t[m] < s.len() by {
        assert(t[m] == d[m]);
    }
    lemma_fisher_yates_permutes(s, t);
}

/// A Fisher–Yates pass over items without repeats leaves no repeats.
proof fn lemma_fisher_yates_distinct<A>(s: Seq<A>, d: Seq<usize>)
    requires
        s.no_duplicates(),
        d.len() <= s.len(),
        forall|k: int| 0 <= k < d.len() ==> #[trigger] d[k] < s.len(),
    ensures
        fisher_yates(s, d).no_duplicates(),
{
    lemma_fisher_yates_permutes(s, d);
    s.lemma_multiset_has_no_duplicates();
    fisher_yates(s, d).lemma_multiset_has_no_duplicates_conv();
}

/// Two passes over items without repeats that end in the same order agree on
/// their first `k` draws.
proof fn lemma_same_order_same_draws<A>(s: Seq<A>, d1: Seq<usize>, d2: Seq<usize>, k: int)
    requires
        s.no_duplicates(),
        valid_draws(d1, s.len()),
        valid_draws(d2, s.len()),
        fisher_yates(s, d1) == fisher_yates(s, d2),
        0 <= k <= d1.len(),
    ensures
        d1.take(k) == d2.take(k),
    decreases k,
{
    if k > 0 {
        let j = k - 1;
        lemma_same_order_same_draws(s, d1, d2, j);
        lemma_fisher_yates_settled(s, d1, j);
        lemma_fisher_yates_settled(s, d2, j);
        lemma_fisher_yates_step(s, d1, j);
        lemma_fisher_yates_step(s, d2, j);
        let t = d1.take(j);
        assert forall|m: int| 0 <= m < t.len() implies #[trigger] t[m] < s.len() by {
            assert(t[m] == d1[m]);
        }
        lemma_fisher_yates_distinct(s, t);
        lemma_fisher_yates_permutes(s, t);
        assert(d1[j] == d2[j]);
        assert forall|m: int| 0 <= m < k implies d1.take(k)[m] == d2.take(k)[m] by {
            if m < j {
                assert(d1.take(j)[m] == d2.take(j)[m]);
            }
        }
        assert(d1.take(k) =~= d2.take(k));
    }
}

/// Fisher–Yates is a fair shuffle: over items without repeats, two different
/// sequences of in-range draws always give two different orders, so each
/// sequence of draws (there are `n!` of them) gives its own order, and draws
/// that are uniform make every order equally likely.
pub proof fn lemma_fisher_yates_injective<A>(s: Seq<A>, d1: Seq<usize>, d2: Seq<usize>)
    requires
        s.no_duplicates(),
        valid_draws(d1, s.len()),
        valid_draws(d2, s.len()),
    ensures
        d1 != d2 ==> fisher_yates(s, d1) != fisher_yates(s, d2),
{
    if fisher_yates(s, d1) == fisher_yates(s, d2) {
        lemma_same_order_same_draws(s, d1, d2, d1.len() as int);
        assert(d1.take(d1.len() as int) =~= d1);
        assert(d2.take(d2.len() as int) =~= d2);
    }
}

/// Two sequences with the same items, without repeats, that agree everywhere
/// but at position 0 agree there too.
proof fn lemma_same_items_same_head<A>(t: Seq<A>, p: Seq<A>)
    requires
        t.to_multiset() == p.to_multiset(),
        t.no_duplicates(),
        t.len() == p.len(),
        t.len() > 0,
        forall|i: int| 1 <= i < t.len() ==> t[i] == p[i],
    ensures
        t[0] == p[0],
{
    assert(t.to_multiset().count(t[0]) > 0);
    assert(p.contains(t[0]));
    let m = choose|m: int| 0 <= m < p.len() && p[m] == t[0];
    if m != 0 {
        assert(t[m] == t[0]);
    }
}

/// Extends the draws `d`, which already put the items of `p` at the positions
/// they settle, to a full pass that ends in `p`.
proof fn draws_reaching<A>(s: Seq<A>, p: Seq<A>, d: Seq<usize>) -> (r: Seq<usize>)
    requires
        s.no_duplicates(),
        p.to_multiset() == s.to_multiset(),
        p.len() == s.len(),
        s.len() <= usize::MAX,
        d.len() + 1 <= s.len() || d.len() == 0,
        forall|k: int| 0 <= k < d.len() ==> #[trigger] d[k] <= s.len() - 1 - k,
        forall|i: int| s.len() - d.len() <= i < s.len() ==> fisher_yates(s, d)[i] == p[i],
    ensures
        valid_draws(r, s.len()),
        fisher_yates(s, r) == p,
    decreases s.len() - d.len(),
{
    let n = s.len() as int;
    let t = fisher_yates(s, d);
    assert forall|m: int| 0 <= m < d.len() implies #[trigger] d[m] < s.len() by {
        assert(d[m] <= n - 1 - m);
    }
    lemma_fisher_yates_permutes(s, d);
    if n == 0 {
        assert(t =~= p);
        d
    } else if d.len() == n - 1 {
        lemma_fisher_yates_distinct(s, d);
        lemma_same_items_same_head(t, p);
        assert(t =~= p);
        d
    } else {
        let k = d.len() as int;
        let i = n - 1 - k;
        s.lemma_multiset_has_no_duplicates();
        p.lemma_multiset_has_no_duplicates_conv();
        assert(p.to_multiset().count(p[i]) > 0);
        assert(t.to_multiset().count(p[i]) > 0);
        assert(t.contains(p[i]));
        let j = choose|j: int| 0 <= j < t.len() && t[j] == p[i];
        if j > i {
            assert(t[j] == p[j]);
            assert(p[j] == p[i]);
        }
        assert(j <= i);
        let e = d.push(j as usize);
        assert(e.drop_last() =~= d);
        assert(e[k] == j);
        assert(fisher_yates(s, e) == swap_at(t, i, j));
        assert forall|m: int| n - e.len() <= m < n implies fisher_yates(s, e)[m] == p[m] by {
            if m > i {
                assert(swap_at(t, i, j)[m] == t[m]);
            } else {
                assert(swap_at(t, i, j)[m] == t[j]);
            }
        }
        draws_reaching(s, p, e)
    }
}

/// Fisher–Yates reaches every order: each rearrangement of items without
/// repeats (as many as a vector can hold) is what some sequence of in-range
/// draws gives.
pub proof fn lemma_fisher_yates_reaches_every_order<A>(s: Seq<A>, p: Seq<A>)
    requires
        s.no_duplicates(),
        s.len() <= usize::MAX,
        p.to_multiset() == s.to_multiset(),
    ensures
        exists|d: Seq<usize>| valid_draws(d, s.len()) && fisher_yates(s, d) == p,
{
    p.to_multiset_ensures();
    s.to_multiset_ensures();
    let d = draws_reaching(s, p, Seq::empty());
    assert(valid_draws(d, s.len()) && fisher_yates(s, d) == p);
}

/// Rearranges `v` by the Fisher–Yates pass that the draws `d` describe.
pub fn shuffle_by_draws<T>(v: &mut Vec<T>, d: &Vec<usize>)
    requires
        valid_draws(d@, old(v).len() as nat),
    ensures
        final(v)@ == fisher_yates(old(v)@, d@),
{
    let ghost orig = v@;
    let n = v.len();
    let mut k: usize = 0;
    assert(d@.take(0) =~= Seq::<usize>::empty());
    while k < d.len()
        invariant
            n == orig.len(),
            valid_draws(d@, n as nat),
            k <= d.len(),
            v@ == fisher_yates(orig, d@.take(k as int)),
            v@.len() == n,
        decreases d.len() - k,
    {
        let j = d[k];
        assert(d@.take(k + 1).drop_last() =~= d@.take(k as int));
        assert(d@.take(k + 1)[k as int] == j);
        swap_items(v, n - 1 - k, j);
        k = k + 1;
    }
    assert(d@.take(d.len() as int) =~= d@);
}

/// Draws from `rng` what a Fisher–Yates pass over `n` items consumes: for
/// each position from the last down to the second, a position from `0..=`
/// it, in that order.
pub fn draw_fisher_yates(rng: &mut SeededRng, n: usize) -> (d: Vec<usize>)
    ensures
        d@ == chacha8_draws(old(rng).seed(), old(rng).asked(), fy_bounds(n as nat)),
        valid_draws(d@, n as nat),
        final(rng).seed() == old(rng).seed(),
        final(rng).asked() == old(rng).asked() + fy_bounds(n as nat),
{
    let ghost seed = rng.seed();
    let ghost asked = rng.asked();
    let ghost b = fy_bounds(n as nat);
    let mut d: Vec<usize> = Vec::new();
    let mut k: usize = 0;
    assert(b.take(0) =~= Seq::<usize>::empty());
    assert(asked + b.take(0) =~= asked);
    while k + 1 < n
        invariant
            k == d.len(),
            n > 0 ==> k <= n - 1,
            n == 0 ==> k == 0,
            b == fy_bounds(n as nat),
            forall|m: int| 0 <= m < d.len() ==> #[trigger] d@[m] <= n - 1 - m,
            d@ == chacha8_draws(seed, asked, b.take(k as int)),
            rng.seed() == seed,
            rng.asked() == asked + b.take(k as int),
        decreases n - k,
    {
        let ghost before = rng.asked();
        let j = rng.upto(n - 1 - k);
        assert(b.take(k + 1).drop_last() =~= b.take(k as int));
        assert(b.take(k + 1).last() == (n - 1 - k) as usize);
        d.push(j);
        assert(rng.asked() =~= asked + b.take(k + 1));
        k = k + 1;
    }
    assert(b.take(k as int) =~= b);
    d
}

/// Shuffles `v` in place with the Fisher–Yates method, drawing from `rng`:
/// going from the last position down to the second, each item is exchanged
/// with the one at a position drawn from `0..=` its own.
pub fn shuffle<T>(v: &mut Vec<T>, rng: &mut SeededRng)
    ensures
        final(v)@ == fisher_yates(
            old(v)@,
            chacha8_draws(old(rng).seed(), old(rng).asked(), fy_bounds(old(v).len() as nat)),
        ),
        valid_draws(
            chacha8_draws(old(rng).seed(), old(rng).asked(), fy_bounds(old(v).len() as nat)),
            old(v).len() as nat,
        ),
        final(rng).seed() == old(rng).seed(),
        final(rng).asked() == old(rng).asked() + fy_bounds(old(v).len() as nat),
        final(v)@.to_multiset() == old(v)@.to_multiset(),
{
    let d = draw_fisher_yates(rng, v.len());
    let ghost before = v@;
    shuffle_by_draws(v, &d);
    proof {
        lemma_fisher_yates_permutes(before, d@);
    }
}

} // verus!
