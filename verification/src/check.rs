//! Checking a split of the data set: class balance and leakage of groups
//! between splits.
use vstd::prelude::*;
use crate::text::{views, texts, chars_of, string_of};
use crate::order::{ascending_distinct, sorted_distinct_texts, contains_text, lemma_ascending_distinct};
use crate::paths::{group_key, group_key_of};
use crate::dataset::{Label, Sample, Splits, tagged, load_split, group_keys, lemma_load_never_divides_groups};
use crate::shuffle::valid_draws;

verus! {

broadcast use vstd::seq_lib::group_filter_ensures;

/// The samples of `v` with the label `l`.
pub open spec fn with_class(v: Seq<(Seq<char>, Label)>, l: Label) -> Seq<(Seq<char>, Label)> {
    v.filter(|x: (Seq<char>, Label)| x.1 == l)
}

/// The distinct group keys of the samples of `v`, ascending.
pub open spec fn split_keys(v: Seq<(Seq<char>, Label)>) -> Seq<Seq<char>> {
    ascending_distinct(v.map_values(|x: (Seq<char>, Label)| group_key_of(x.0)))
}

/// Groups found in more than one split: the groups of train that occur in
/// validation or test, and the groups of validation that occur in test, each
/// list ascending.
pub open spec fn leaks(
    train: Seq<(Seq<char>, Label)>,
    val: Seq<(Seq<char>, Label)>,
    test: Seq<(Seq<char>, Label)>,
) -> (Seq<Seq<char>>, Seq<Seq<char>>) {
    let kt = split_keys(train);
    let kv = split_keys(val);
    let kte = split_keys(test);
    (
        kt.filter(|k: Seq<char>| kv.contains(k) || kte.contains(k)),
        kv.filter(|k: Seq<char>| kte.contains(k)),
    )
}

/// How many samples of `v` have the label `label`.
pub fn count_label(v: &Vec<Sample>, label: Label) -> (r: usize)
    ensures
        r == with_class(tagged(v@), label).len(),
{
    let mut count: usize = 0;
    proof {
        reveal(Seq::filter);
    }
    assert(tagged(v@).take(0) =~= Seq::<(Seq<char>, Label)>::empty());
    for i in 0..v.len()
        invariant
            count == with_class(tagged(v@).take(i as int), label).len(),
            count <= i,
    {
        proof {
            reveal(Seq::filter);
            assert(tagged(v@).take(i + 1).drop_last() =~= tagged(v@).take(i as int));
            assert(tagged(v@).take(i + 1).last() == v@[i as int]@);
        }
        if v[i].label == label {
            count = count + 1;
        }
    }
    assert(tagged(v@).take(v.len() as int) =~= tagged(v@));
    count
}

/// The distinct group keys of the samples of `v`, ascending.
fn keys_of(v: &Vec<Sample>) -> (r: Vec<Vec<char>>)
    ensures
        texts(r@) == split_keys(tagged(v@)),
        texts(r@).no_duplicates(),
        crate::order::strictly_ascending(texts(r@)),
{
    let mut all: Vec<Vec<char>> = Vec::new();
    let ghost ks = tagged(v@).map_values(|x: (Seq<char>, Label)| group_key_of(x.0));
    for i in 0..v.len()
        invariant
            ks == tagged(v@).map_values(|x: (Seq<char>, Label)| group_key_of(x.0)),
            texts(all@) == ks.take(i as int),
    {
        let k = group_key(v[i].path.as_str());
        let ghost before = all@;
        all.push(chars_of(k.as_str()));
        assert(texts(all@) =~= texts(before).push(k@));
        assert(ks.take(i + 1) =~= ks.take(i as int).push(k@));
    }
    assert(ks.take(v.len() as int) =~= ks);
    let r = sorted_distinct_texts(all);
    proof {
        lemma_ascending_distinct(ks);
    }
    r
}

/// The texts of `a` that `b` or `c` (all strictly ascending) hold, in order.
fn keep_found(
    a: &Vec<Vec<char>>,
    b: &Vec<Vec<char>>,
    c: &Vec<Vec<char>>,
    use_b: bool,
) -> (r: Vec<String>)
    requires
        crate::order::strictly_ascending(texts(b@)),
        crate::order::strictly_ascending(texts(c@)),
    ensures
        use_b ==> views(r@) == texts(a@).filter(
            |k: Seq<char>| texts(b@).contains(k) || texts(c@).contains(k),
        ),
        !use_b ==> views(r@) == texts(a@).filter(|k: Seq<char>| texts(c@).contains(k)),
{
    let ghost pred = if use_b {
        |k: Seq<char>| texts(b@).contains(k) || texts(c@).contains(k)
    } else {
        |k: Seq<char>| texts(c@).contains(k)
    };
    let mut out: Vec<String> = Vec::new();
    assert(texts(a@).take(0) =~= Seq::<Seq<char>>::empty());
    proof {
        reveal(Seq::filter);
    }
    for i in 0..a.len()
        invariant
            pred == (if use_b {
                |k: Seq<char>| texts(b@).contains(k) || texts(c@).contains(k)
            } else {
                |k: Seq<char>| texts(c@).contains(k)
            }),
            crate::order::strictly_ascending(texts(b@)),
            crate::order::strictly_ascending(texts(c@)),
            views(out@) == texts(a@).take(i as int).filter(pred),
    {
        proof {
            reveal(Seq::filter);
            assert(texts(a@).take(i + 1).drop_last() =~= texts(a@).take(i as int));
            assert(texts(a@).take(i + 1).last() == a@[i as int]@);
        }
        let found = (use_b && contains_text(b, &a[i])) || contains_text(c, &a[i]);
        if found {
            let s = string_of(a[i].as_slice());
            let ghost before = out@;
            out.push(s);
            assert(views(out@) =~= views(before).push(a@[i as int]@));
        }
    }
    assert(texts(a@).take(a.len() as int) =~= texts(a@));
    out
}

/// The groups found in more than one split: first the groups of train that
/// also occur in validation or test, then the groups of validation that also
/// occur in test, each list ascending. Both are empty when nothing leaked.
pub fn leaked_groups(s: &Splits) -> (r: (Vec<String>, Vec<String>))
    ensures
        (views(r.0@), views(r.1@)) == leaks(tagged(s.train@), tagged(s.val@), tagged(s.test@)),
{
    let kt = keys_of(&s.train);
    let kv = keys_of(&s.val);
    let kte = keys_of(&s.test);
    let a = keep_found(&kt, &kv, &kte, true);
    let b = keep_found(&kv, &kv, &kte, false);
    (a, b)
}

/// A key of `split_keys(v)` is the group key of some sample of `v`.
proof fn lemma_split_key_source(v: Seq<(Seq<char>, Label)>, k: Seq<char>)
    requires
        split_keys(v).contains(k),
    ensures
        exists|x: (Seq<char>, Label)| v.contains(x) && group_key_of(x.0) == k,
{
    let ks = v.map_values(|x: (Seq<char>, Label)| group_key_of(x.0));
    lemma_ascending_distinct(ks);
    assert(split_keys(v).to_set().contains(k));
    assert(ks.to_set().contains(k));
    let i = choose|i: int| 0 <= i < ks.len() && ks[i] == k;
    assert(v.contains(v[i]));
}

/// Where no group key occurs among both the positives and the negatives, the
/// data set that `load` builds reports no leaked group.
pub proof fn lemma_load_reports_no_leak(
    pos: Seq<Seq<char>>,
    neg: Seq<Seq<char>>,
    dp: Seq<usize>,
    dn: Seq<usize>,
)
    requires
        valid_draws(dp, group_keys(pos).len()),
        valid_draws(dn, group_keys(neg).len()),
        forall|u: Seq<char>, v: Seq<char>|
            pos.contains(u) && neg.contains(v) ==> group_key_of(u) != group_key_of(v),
    ensures
        ({
            let s = load_split(pos, neg, dp, dn);
            &&& leaks(s.0, s.1, s.2).0.len() == 0
            &&& leaks(s.0, s.1, s.2).1.len() == 0
        }),
{
    let s = load_split(pos, neg, dp, dn);
    lemma_load_never_divides_groups(pos, neg, dp, dn);
    let kt = split_keys(s.0);
    let kv = split_keys(s.1);
    let kte = split_keys(s.2);
    let p1 = |k: Seq<char>| kv.contains(k) || kte.contains(k);
    let p2 = |k: Seq<char>| kte.contains(k);
    assert forall|i: int| 0 <= i < kt.len() implies !p1(#[trigger] kt[i]) by {
        let k = kt[i];
        assert(kt.contains(k));
        lemma_split_key_source(s.0, k);
        let x = choose|x: (Seq<char>, Label)| s.0.contains(x) && group_key_of(x.0) == k;
        if kv.contains(k) {
            lemma_split_key_source(s.1, k);
            let y = choose|y: (Seq<char>, Label)| s.1.contains(y) && group_key_of(y.0) == k;
            assert(s.0.contains(x) && s.1.contains(y));
        }
        if kte.contains(k) {
            lemma_split_key_source(s.2, k);
            let y = choose|y: (Seq<char>, Label)| s.2.contains(y) && group_key_of(y.0) == k;
            assert(s.0.contains(x) && s.2.contains(y));
        }
    }
    assert forall|i: int| 0 <= i < kv.len() implies !p2(#[trigger] kv[i]) by {
        let k = kv[i];
        assert(kv.contains(k));
        lemma_split_key_source(s.1, k);
        let x = choose|x: (Seq<char>, Label)| s.1.contains(x) && group_key_of(x.0) == k;
        if kte.contains(k) {
            lemma_split_key_source(s.2, k);
            let y = choose|y: (Seq<char>, Label)| s.2.contains(y) && group_key_of(y.0) == k;
            assert(s.1.contains(x) && s.2.contains(y));
        }
    }
    kt.lemma_all_neg_filter_empty(p1);
    kv.lemma_all_neg_filter_empty(p2);
}

} // verus!
