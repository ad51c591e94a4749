//! Splitting the data set into train / validation / test (70 / 15 / 15 % of
//! the groups of each class).
//!
//! The rule that matters: **all augmentations of one recording go to the
//! same split**. Were `germes_real_0020` in train and its noisy copy
//! `germes_real_0020_v7` in test, the model would "recognise" the copy for
//! having seen its source recording, and the metrics would lie. Files are therefore
//! split by group (see `group_key`), never one by one.
//!
//! The split is reproducible: the generator is seeded with `SEED`.
use vstd::prelude::*;
use crate::text::{views, texts, chars_of, same_text};
use crate::order::{ascending_distinct, sorted_distinct_texts, lemma_ascending_distinct};
pub use crate::paths::group_key;
use crate::check::with_class;
use crate::paths::{group_key_of, wav_files, wav_paths, lemma_filter_counts, lemma_listing_order_free};
use crate::shuffle::{chacha8_upto, fisher_yates, valid_draws, draw_fisher_yates, shuffle_by_draws, SeededRng, chacha8_draws, fy_bounds, lemma_fisher_yates_permutes};

verus! {

broadcast use vstd::seq_lib::group_filter_ensures, vstd::seq_lib::group_to_multiset_ensures,
    vstd::multiset::group_multiset_axioms;

/// Seed of the generator that orders the groups.
pub const SEED: u64 = 42;

/// Class of a recording: the wake word, or anything else.
#[derive(Clone, Copy, Debug, PartialEq, Eq, Structural)]
pub enum Label {
    /// The wake word ("Гермес"); 1.0 for the model.
    Word,
    /// Not the wake word; 0.0 for the model.
    NotWord,
}

/// A recording and its class.
#[derive(Clone, Debug)]
pub struct Sample {
    pub path: String,
    pub label: Label,
}

impl View for Sample {
    type V = (Seq<char>, Label);

    open spec fn view(&self) -> (Seq<char>, Label) {
        (self.path@, self.label)
    }
}

/// The three parts of the data set.
pub struct Splits {
    pub train: Vec<Sample>,
    pub val: Vec<Sample>,
    pub test: Vec<Sample>,
}

/// The samples of a sequence as (path, label) pairs.
pub open spec fn tagged(v: Seq<Sample>) -> Seq<(Seq<char>, Label)> {
    v.map_values(|s: Sample| s@)
}

/// The paths `ps`, each with the label `l`.
pub open spec fn with_label(ps: Seq<Seq<char>>, l: Label) -> Seq<(Seq<char>, Label)> {
    ps.map_values(|p: Seq<char>| (p, l))
}

/// The group key of each file, in file order.
pub open spec fn file_keys(files: Seq<Seq<char>>) -> Seq<Seq<char>> {
    files.map_values(|f: Seq<char>| group_key_of(f))
}

/// The distinct group keys of the files, ascending.
pub open spec fn group_keys(files: Seq<Seq<char>>) -> Seq<Seq<char>> {
    ascending_distinct(file_keys(files))
}

/// The files of the group `k`, in file order.
pub open spec fn members(files: Seq<Seq<char>>, k: Seq<char>) -> Seq<Seq<char>> {
    files.filter(|f: Seq<char>| group_key_of(f) == k)
}

/// The files of the groups `keys`, group after group, each group in file order.
pub open spec fn gather(files: Seq<Seq<char>>, keys: Seq<Seq<char>>) -> Seq<Seq<char>>
    decreases keys.len(),
{
    if keys.len() == 0 {
        Seq::empty()
    } else {
        gather(files, keys.drop_last()) + members(files, keys.last())
    }
}

/// How many of `n` groups go to train: 70 %, rounded down.
pub open spec fn train_count(n: nat) -> nat {
    n * 70 / 100
}

/// How many of `n` groups go to validation: 15 %, rounded down.
pub open spec fn val_count(n: nat) -> nat {
    n * 15 / 100
}

/// The groups of the files in the order that the draws `d` shuffle them into.
pub open spec fn group_order(files: Seq<Seq<char>>, d: Seq<usize>) -> Seq<Seq<char>> {
    fisher_yates(group_keys(files), d)
}

/// Train: the files of the first 70 % of the shuffled groups.
pub open spec fn train_part(files: Seq<Seq<char>>, d: Seq<usize>) -> Seq<Seq<char>> {
    let order = group_order(files, d);
    gather(files, order.take(train_count(order.len()) as int))
}

/// Validation: the files of the next 15 % of the shuffled groups.
pub open spec fn val_part(files: Seq<Seq<char>>, d: Seq<usize>) -> Seq<Seq<char>> {
    let order = group_order(files, d);
    let a = train_count(order.len()) as int;
    gather(files, order.subrange(a, a + val_count(order.len())))
}

/// Test: the files of the remaining shuffled groups.
pub open spec fn test_part(files: Seq<Seq<char>>, d: Seq<usize>) -> Seq<Seq<char>> {
    let order = group_order(files, d);
    gather(files, order.skip((train_count(order.len()) + val_count(order.len())) as int))
}

/// The files of one class split by the draws `d`, labelled `l`.
pub open spec fn class_split(files: Seq<Seq<char>>, l: Label, d: Seq<usize>) -> (
    Seq<(Seq<char>, Label)>,
    Seq<(Seq<char>, Label)>,
    Seq<(Seq<char>, Label)>,
) {
    (
        with_label(train_part(files, d), l),
        with_label(val_part(files, d), l),
        with_label(test_part(files, d), l),
    )
}

/// The group key of each file, twice: one copy to keep in file order, one to
/// sort.
fn file_key_texts(files: &Vec<String>) -> (r: (Vec<Vec<char>>, Vec<Vec<char>>))
    ensures
        texts(r.0@) == file_keys(views(files@)),
        texts(r.1@) == file_keys(views(files@)),
{
    let mut a: Vec<Vec<char>> = Vec::new();
    let mut b: Vec<Vec<char>> = Vec::new();
    for i in 0..files.len()
        invariant
            texts(a@) == file_keys(views(files@)).take(i as int),
            texts(b@) == file_keys(views(files@)).take(i as int),
    {
        let k = group_key(files[i].as_str());
        let ghost ka = a@;
        let ghost kb = b@;
        a.push(chars_of(k.as_str()));
        b.push(chars_of(k.as_str()));
        assert(texts(a@) =~= texts(ka).push(k@));
        assert(texts(b@) =~= texts(kb).push(k@));
        assert(file_keys(views(files@)).take(i + 1) =~= file_keys(views(files@)).take(
            i as int,
        ).push(k@));
    }
    assert(file_keys(views(files@)).take(files.len() as int) =~= file_keys(views(files@)));
    (a, b)
}

/// The files of the groups `order[from..to]`, labelled `label`.
fn collect_groups(
    files: &Vec<String>,
    fkeys: &Vec<Vec<char>>,
    order: &Vec<Vec<char>>,
    from: usize,
    to: usize,
    label: Label,
) -> (r: Vec<Sample>)
    requires
        texts(fkeys@) == file_keys(views(files@)),
        from <= to <= order.len(),
    ensures
        tagged(r@) == with_label(
            gather(views(files@), texts(order@).subrange(from as int, to as int)),
            label,
        ),
{
    let ghost fs = views(files@);
    let ghost os = texts(order@);
    assert(fkeys@.len() == texts(fkeys@).len() && files@.len() == file_keys(views(files@)).len());
    let mut out: Vec<Sample> = Vec::new();
    assert(os.subrange(from as int, from as int) =~= Seq::<Seq<char>>::empty());
    for g in from..to
        invariant
            texts(fkeys@) == file_keys(views(files@)),
            fkeys.len() == files.len(),
            fs == views(files@),
            os == texts(order@),
            from <= to <= order.len(),
            tagged(out@) == with_label(gather(fs, os.subrange(from as int, g as int)), label),
    {
        let ghost done = gather(fs, os.subrange(from as int, g as int));
        let ghost k = os[g as int];
        assert(fs.take(0) =~= Seq::<Seq<char>>::empty());
        proof {
            reveal(Seq::filter);
        }
        for j in 0..files.len()
            invariant
                texts(fkeys@) == file_keys(views(files@)),
                fkeys.len() == files.len(),
                fs == views(files@),
                os == texts(order@),
                g < order.len(),
                k == os[g as int],
                k == order@[g as int]@,
                tagged(out@) == with_label(done + members(fs.take(j as int), k), label),
        {
            let ghost before = out@;
            proof {
                reveal(Seq::filter);
                assert(fs.take(j + 1).drop_last() =~= fs.take(j as int));
                assert(fs.take(j + 1).last() == files@[j as int]@);
                assert(texts(fkeys@)[j as int] == fkeys@[j as int]@);
            }
            if same_text(&fkeys[j], &order[g]) {
                let s = Sample { path: files[j].clone(), label };
                out.push(s);
                assert(tagged(out@) =~= tagged(before).push((files@[j as int]@, label)));
                assert(members(fs.take(j + 1), k) =~= members(fs.take(j as int), k).push(
                    files@[j as int]@,
                ));
                assert(with_label(done + members(fs.take(j + 1), k), label) =~= with_label(
                    done + members(fs.take(j as int), k),
                    label,
                ).push((files@[j as int]@, label)));
            } else {
                assert(members(fs.take(j + 1), k) =~= members(fs.take(j as int), k));
            }
        }
        assert(fs.take(files.len() as int) =~= fs);
        assert(os.subrange(from as int, g + 1).drop_last() =~= os.subrange(from as int, g as int));
        assert(os.subrange(from as int, g + 1).last() == k);
    }
    out
}

/// `n * p / 100` without overflow, for `p` at most 100.
fn percent_of(n: usize, p: usize) -> (r: usize)
    requires
        p <= 100,
    ensures
        r == n * p / 100,
{
    let q = n / 100;
    let m = n % 100;
    proof {
        assert(n == 100 * q + m);
        assert(n * p == 100 * (q * p) + m * p) by (nonlinear_arith)
            requires
                n == 100 * q + m,
        ;
        assert((100 * (q * p) + m * p) / 100 == q * p + (m * p) / 100) by (nonlinear_arith)
            requires
                0 <= m < 100,
                0 <= p <= 100,
                q >= 0,
        ;
        assert(q * p <= q * 100) by (nonlinear_arith)
            requires
                p <= 100,
                q >= 0,
        ;
        assert(q * 100 <= n);
        assert(m * p <= 100 * 100) by (nonlinear_arith)
            requires
                m < 100,
                p <= 100,
        ;
        assert((m * p) / 100 <= m) by (nonlinear_arith)
            requires
                m < 100,
                p <= 100,
                m >= 0,
        ;
    }
    q * p + (m * p) / 100
}

/// Splits the files of one class by the shuffled group order `order`.
fn assign(files: &Vec<String>, fkeys: &Vec<Vec<char>>, order: &Vec<Vec<char>>, label: Label) -> (r: (
    Vec<Sample>,
    Vec<Sample>,
    Vec<Sample>,
))
    requires
        texts(fkeys@) == file_keys(views(files@)),
    ensures
        ({
            let os = texts(order@);
            let a = train_count(os.len()) as int;
            let b = a + val_count(os.len());
            &&& tagged(r.0@) == with_label(gather(views(files@), os.take(a)), label)
            &&& tagged(r.1@) == with_label(gather(views(files@), os.subrange(a, b)), label)
            &&& tagged(r.2@) == with_label(gather(views(files@), os.skip(b)), label)
        }),
{
    let n = order.len();
    let n_train = percent_of(n, 70);
    let n_val = percent_of(n, 15);
    proof {
        assert(n * 70 / 100 <= n) by (nonlinear_arith);
        assert(n * 15 / 100 <= n) by (nonlinear_arith);
        assert(n * 70 / 100 + n * 15 / 100 <= n) by (nonlinear_arith);
    }
    let train = collect_groups(files, fkeys, order, 0, n_train, label);
    let val = collect_groups(files, fkeys, order, n_train, n_train + n_val, label);
    let test = collect_groups(files, fkeys, order, n_train + n_val, n, label);
    assert(texts(order@).subrange(0, n_train as int) =~= texts(order@).take(n_train as int));
    assert(texts(order@).subrange((n_train + n_val) as int, n as int) =~= texts(order@).skip(
        (n_train + n_val) as int,
    ));
    (train, val, test)
}

/// Splits one class (positives or negatives) by group, with the group order
/// shuffled by the Fisher–Yates draws `d`: the distinct group keys are sorted,
/// shuffled by `d`, and the files of the first 70 % of the groups go to train,
/// of the next 15 % to validation, of the rest to test; inside each part the
/// groups come in the shuffled order and the files of a group in file order.
pub fn split_class_with(files: &Vec<String>, label: Label, d: &Vec<usize>) -> (r: (
    Vec<Sample>,
    Vec<Sample>,
    Vec<Sample>,
))
    requires
        valid_draws(d@, group_keys(views(files@)).len()),
    ensures
        (tagged(r.0@), tagged(r.1@), tagged(r.2@)) == class_split(views(files@), label, d@),
{
    let (fkeys, all) = file_key_texts(files);
    let mut order = sorted_distinct_texts(all);
    let ghost before = order@;
    shuffle_by_draws(&mut order, d);
    proof {
        lemma_fisher_yates_texts(before, d@);
    }
    assign(files, &fkeys, &order, label)
}

/// The draws a Fisher–Yates pass over the groups of `files` takes from a
/// generator with the seed `seed` and the history `asked`.
pub open spec fn class_draws(seed: u64, asked: Seq<usize>, files: Seq<Seq<char>>) -> Seq<usize> {
    chacha8_draws(seed, asked, fy_bounds(group_keys(files).len()))
}

/// Splits one class (positives or negatives) by group: the distinct group
/// keys are sorted, then shuffled with `rng` (Fisher–Yates: one draw from
/// `0..=i` for each group position `i` from the last down to the second), and
/// the files of the first 70 % of the groups go to train, of the next 15 % to
/// validation, of the rest to test.
pub fn split_class(files: &Vec<String>, label: Label, rng: &mut SeededRng) -> (r: (
    Vec<Sample>,
    Vec<Sample>,
    Vec<Sample>,
))
    ensures
        valid_draws(
            class_draws(old(rng).seed(), old(rng).asked(), views(files@)),
            group_keys(views(files@)).len(),
        ),
        (tagged(r.0@), tagged(r.1@), tagged(r.2@)) == class_split(
            views(files@),
            label,
            class_draws(old(rng).seed(), old(rng).asked(), views(files@)),
        ),
        final(rng).seed() == old(rng).seed(),
        final(rng).asked() == old(rng).asked() + fy_bounds(group_keys(views(files@)).len()),
{
    let (_, all) = file_key_texts(files);
    let groups = sorted_distinct_texts(all);
    let d = draw_fisher_yates(rng, groups.len());
    split_class_with(files, label, &d)
}

/// The texts of a shuffled vector are the shuffled texts.
proof fn lemma_fisher_yates_texts(s: Seq<Vec<char>>, d: Seq<usize>)
    requires
        forall|k: int| 0 <= k < d.len() ==> #[trigger] d[k] < s.len(),
        d.len() <= s.len(),
    ensures
        texts(fisher_yates(s, d)) == fisher_yates(texts(s), d),
    decreases d.len(),
{
    if d.len() > 0 {
        let e = d.drop_last();
        assert forall|k: int| 0 <= k < e.len() implies #[trigger] e[k] < s.len() by {
            assert(e[k] == d[k]);
        }
        lemma_fisher_yates_texts(s, e);
        crate::shuffle::lemma_fisher_yates_permutes(s, e);
        assert(texts(fisher_yates(s, d)) =~= fisher_yates(texts(s), d));
    }
}

/// The data set of one positive and one negative directory, split by the draws
/// `dp` (positives) and `dn` (negatives): each part holds its positives first,
/// then its negatives.
pub open spec fn load_split(
    pos: Seq<Seq<char>>,
    neg: Seq<Seq<char>>,
    dp: Seq<usize>,
    dn: Seq<usize>,
) -> (Seq<(Seq<char>, Label)>, Seq<(Seq<char>, Label)>, Seq<(Seq<char>, Label)>) {
    let p = class_split(pos, Label::Word, dp);
    let n = class_split(neg, Label::NotWord, dn);
    (p.0 + n.0, p.1 + n.1, p.2 + n.2)
}

/// The draws of the positives: the first ones of a generator seeded with
/// `SEED`.
pub open spec fn pos_draws(pos: Seq<Seq<char>>) -> Seq<usize> {
    class_draws(SEED, Seq::empty(), pos)
}

/// The draws of the negatives: those that follow the positives' draws.
pub open spec fn neg_draws(pos: Seq<Seq<char>>, neg: Seq<Seq<char>>) -> Seq<usize> {
    class_draws(SEED, fy_bounds(group_keys(pos).len()), neg)
}

/// The data set of the positive files `pos` and the negative files `neg`, as
/// `load` splits it with a generator seeded with `SEED`: positives first.
pub open spec fn seeded_split(pos: Seq<Seq<char>>, neg: Seq<Seq<char>>) -> (
    Seq<(Seq<char>, Label)>,
    Seq<(Seq<char>, Label)>,
    Seq<(Seq<char>, Label)>,
) {
    load_split(pos, neg, pos_draws(pos), neg_draws(pos, neg))
}

/// Splits the data set given the listings of the positive and the negative
/// directory. Only `.wav` files count; each directory is taken in path order.
/// A generator seeded with `SEED` shuffles the positive groups first, then
/// the negative ones; each split holds its positives, then its negatives.
pub fn load(pos_listing: &Vec<String>, neg_listing: &Vec<String>) -> (s: Splits)
    ensures
        (tagged(s.train@), tagged(s.val@), tagged(s.test@)) == seeded_split(
            wav_paths(views(pos_listing@)),
            wav_paths(views(neg_listing@)),
        ),
        valid_draws(
            pos_draws(wav_paths(views(pos_listing@))),
            group_keys(wav_paths(views(pos_listing@))).len(),
        ),
        valid_draws(
            neg_draws(wav_paths(views(pos_listing@)), wav_paths(views(neg_listing@))),
            group_keys(wav_paths(views(neg_listing@))).len(),
        ),
{
    let mut rng = SeededRng::new(SEED);
    let pos = wav_files(pos_listing);
    let neg = wav_files(neg_listing);
    let (mut pt, mut pv, mut pte) = split_class(&pos, Label::Word, &mut rng);
    assert(rng.asked() =~= fy_bounds(group_keys(views(pos@)).len()));
    let (mut nt, mut nv, mut nte) = split_class(&neg, Label::NotWord, &mut rng);
    let ghost (pt0, pv0, pte0, nt0, nv0, nte0) = (pt@, pv@, pte@, nt@, nv@, nte@);
    pt.append(&mut nt);
    pv.append(&mut nv);
    pte.append(&mut nte);
    assert(tagged(pt@) =~= tagged(pt0) + tagged(nt0));
    assert(tagged(pv@) =~= tagged(pv0) + tagged(nv0));
    assert(tagged(pte@) =~= tagged(pte0) + tagged(nte0));
    Splits { train: pt, val: pv, test: pte }
}

/// A file of the group `k` has the key `k`.
proof fn lemma_members_key(files: Seq<Seq<char>>, k: Seq<char>, x: Seq<char>)
    requires
        members(files, k).contains(x),
    ensures
        group_key_of(x) == k,
{
    let m = members(files, k);
    let i = choose|i: int| 0 <= i < m.len() && m[i] == x;
    assert((|f: Seq<char>| group_key_of(f) == k)(m[i]));
}

/// A file gathered from the groups `keys` has its key among `keys`.
proof fn lemma_gather_key(files: Seq<Seq<char>>, keys: Seq<Seq<char>>, x: Seq<char>)
    requires
        gather(files, keys).contains(x),
    ensures
        keys.contains(group_key_of(x)),
    decreases keys.len(),
{
    if keys.len() > 0 {
        let a = gather(files, keys.drop_last());
        let b = members(files, keys.last());
        let i = choose|i: int| 0 <= i < (a + b).len() && (a + b)[i] == x;
        if i < a.len() {
            assert(a[i] == x);
            lemma_gather_key(files, keys.drop_last(), x);
            let j = choose|j: int|
                0 <= j < keys.drop_last().len() && keys.drop_last()[j] == group_key_of(x);
            assert(keys[j] == group_key_of(x));
        } else {
            assert(b[i - a.len()] == x);
            lemma_members_key(files, keys.last(), x);
            assert(keys[keys.len() - 1] == group_key_of(x));
        }
    }
}

/// The shuffled group order holds each group key of the files exactly once.
proof fn lemma_group_order(files: Seq<Seq<char>>, d: Seq<usize>)
    requires
        valid_draws(d, group_keys(files).len()),
    ensures
        group_order(files, d).no_duplicates(),
        forall|f: Seq<char>|
            files.contains(f) ==> group_order(files, d).contains(#[trigger] group_key_of(f)),
{
    let g = group_keys(files);
    let o = group_order(files, d);
    lemma_ascending_distinct(file_keys(files));
    assert forall|k: int| 0 <= k < d.len() implies #[trigger] d[k] < g.len() by {
        assert(d[k] <= g.len() - 1 - k);
    }
    lemma_fisher_yates_permutes(g, d);
    g.lemma_multiset_has_no_duplicates();
    assert forall|x: Seq<char>| o.to_multiset().contains(x) implies o.to_multiset().count(x)
        == 1 by {
        assert(g.to_multiset().contains(x));
    }
    o.lemma_multiset_has_no_duplicates_conv();
    assert forall|f: Seq<char>| files.contains(f) implies o.contains(
        #[trigger] group_key_of(f),
    ) by {
        let i = choose|i: int| 0 <= i < files.len() && files[i] == f;
        assert(file_keys(files)[i] == group_key_of(f));
        assert(file_keys(files).to_set().contains(group_key_of(f)));
        assert(g.to_set().contains(group_key_of(f)));
        assert(g.to_multiset().count(group_key_of(f)) > 0);
        assert(o.to_multiset().count(group_key_of(f)) > 0);
    }
}

/// Gathering consecutive runs of groups concatenates their files.
proof fn lemma_gather_concat(files: Seq<Seq<char>>, a: Seq<Seq<char>>, b: Seq<Seq<char>>)
    ensures
        gather(files, a + b) == gather(files, a) + gather(files, b),
    decreases b.len(),
{
    if b.len() == 0 {
        assert(a + b =~= a);
        assert(gather(files, a) + gather(files, b) =~= gather(files, a));
    } else {
        assert((a + b).drop_last() =~= a + b.drop_last());
        assert((a + b).last() == b.last());
        lemma_gather_concat(files, a, b.drop_last());
        assert(gather(files, a + b) =~= gather(files, a) + gather(files, b));
    }
}

/// No file is gathered from an empty file list.
proof fn lemma_gather_no_files(keys: Seq<Seq<char>>)
    ensures
        gather(Seq::empty(), keys) == Seq::<Seq<char>>::empty(),
    decreases keys.len(),
{
    if keys.len() > 0 {
        lemma_gather_no_files(keys.drop_last());
        reveal(Seq::filter);
        assert(members(Seq::empty(), keys.last()) =~= Seq::<Seq<char>>::empty());
        assert(gather(Seq::empty(), keys) =~= Seq::<Seq<char>>::empty());
    }
}

/// One more file adds itself to what the groups `keys` gather, where its group
/// is among them, and nothing otherwise.
proof fn lemma_gather_push(files: Seq<Seq<char>>, f: Seq<char>, keys: Seq<Seq<char>>)
    requires
        keys.no_duplicates(),
    ensures
        gather(files.push(f), keys).to_multiset() == (if keys.contains(group_key_of(f)) {
            gather(files, keys).to_multiset().insert(f)
        } else {
            gather(files, keys).to_multiset()
        }),
    decreases keys.len(),
{
    if keys.len() > 0 {
        let l = keys.drop_last();
        let k = keys.last();
        assert(l.no_duplicates());
        lemma_gather_push(files, f, l);
        reveal(Seq::filter);
        assert(files.push(f).drop_last() =~= files);
        let mg = members(files.push(f), k);
        let m = members(files, k);
        if group_key_of(f) == k {
            assert(mg =~= m.push(f));
        } else {
            assert(mg =~= m);
        }
        assert(keys.contains(group_key_of(f)) <==> l.contains(group_key_of(f)) || group_key_of(f)
            == k) by {
            if keys.contains(group_key_of(f)) {
                let i = choose|i: int| 0 <= i < keys.len() && keys[i] == group_key_of(f);
                if i < l.len() {
                    assert(l[i] == group_key_of(f));
                }
            }
            if l.contains(group_key_of(f)) {
                let i = choose|i: int| 0 <= i < l.len() && l[i] == group_key_of(f);
                assert(keys[i] == group_key_of(f));
            }
            if group_key_of(f) == k {
                assert(keys[keys.len() - 1] == k);
            }
        }
        if l.contains(group_key_of(f)) {
            let i = choose|i: int| 0 <= i < l.len() && l[i] == group_key_of(f);
            assert(keys[i] == l[i]);
            assert(keys[keys.len() - 1] == k);
            assert(group_key_of(f) != k);
        }
        vstd::seq_lib::lemma_multiset_commutative(gather(files.push(f), l), mg);
        vstd::seq_lib::lemma_multiset_commutative(gather(files, l), m);
        assert(gather(files.push(f), keys) == gather(files.push(f), l) + mg);
        assert(gather(files, keys) == gather(files, l) + m);
        assert(gather(files.push(f), keys).to_multiset() =~= (if keys.contains(group_key_of(f)) {
            gather(files, keys).to_multiset().insert(f)
        } else {
            gather(files, keys).to_multiset()
        }));
    }
}

/// Groups without repeats that cover every file gather every file once.
proof fn lemma_gather_all(files: Seq<Seq<char>>, keys: Seq<Seq<char>>)
    requires
        keys.no_duplicates(),
        forall|f: Seq<char>| files.contains(f) ==> keys.contains(#[trigger] group_key_of(f)),
    ensures
        gather(files, keys).to_multiset() == files.to_multiset(),
    decreases files.len(),
{
    if files.len() == 0 {
        assert(files =~= Seq::<Seq<char>>::empty());
        lemma_gather_no_files(keys);
    } else {
        let g = files.drop_last();
        let f = files.last();
        assert(g.push(f) =~= files);
        assert forall|x: Seq<char>| g.contains(x) implies keys.contains(
            #[trigger] group_key_of(x),
        ) by {
            let i = choose|i: int| 0 <= i < g.len() && g[i] == x;
            assert(files[i] == x);
        }
        lemma_gather_all(g, keys);
        assert(files[files.len() - 1] == f);
        lemma_gather_push(g, f, keys);
    }
}

/// Files gathered from two runs of a group order without repeats, the
/// first run ending where or before the second begins, have different group
/// keys.
proof fn lemma_runs_apart(
    files: Seq<Seq<char>>,
    o: Seq<Seq<char>>,
    a: int,
    b: int,
    c: int,
    e: int,
    x: Seq<char>,
    y: Seq<char>,
)
    requires
        o.no_duplicates(),
        0 <= a <= b <= c <= e <= o.len(),
        gather(files, o.subrange(a, b)).contains(x),
        gather(files, o.subrange(c, e)).contains(y),
    ensures
        group_key_of(x) != group_key_of(y),
{
    lemma_gather_key(files, o.subrange(a, b), x);
    lemma_gather_key(files, o.subrange(c, e), y);
    let i = choose|i: int| 0 <= i < b - a && o.subrange(a, b)[i] == group_key_of(x);
    let j = choose|j: int| 0 <= j < e - c && o.subrange(c, e)[j] == group_key_of(y);
    assert(o[a + i] != o[c + j]);
}

/// Groups are never divided: two files in different parts of a class split
/// have different group keys, so a recording and all its augmentations land
/// in the same part.
pub proof fn lemma_groups_never_divided(files: Seq<Seq<char>>, d: Seq<usize>)
    requires
        valid_draws(d, group_keys(files).len()),
    ensures
        forall|x: Seq<char>, y: Seq<char>|
            #![trigger train_part(files, d).contains(x), val_part(files, d).contains(y)]
            train_part(files, d).contains(x) && val_part(files, d).contains(y) ==> group_key_of(x)
                != group_key_of(y),
        forall|x: Seq<char>, y: Seq<char>|
            #![trigger train_part(files, d).contains(x), test_part(files, d).contains(y)]
            train_part(files, d).contains(x) && test_part(files, d).contains(y) ==> group_key_of(
                x,
            ) != group_key_of(y),
        forall|x: Seq<char>, y: Seq<char>|
            #![trigger val_part(files, d).contains(x), test_part(files, d).contains(y)]
            val_part(files, d).contains(x) && test_part(files, d).contains(y) ==> group_key_of(x)
                != group_key_of(y),
{
    let o = group_order(files, d);
    let n = o.len() as int;
    let a = train_count(o.len()) as int;
    let b = a + val_count(o.len());
    assert(o.len() * 70 / 100 + o.len() * 15 / 100 <= o.len()) by (nonlinear_arith);
    lemma_group_order(files, d);
    assert(o.take(a) =~= o.subrange(0, a));
    assert(o.skip(b) =~= o.subrange(b, n));
    assert forall|x: Seq<char>, y: Seq<char>|
        train_part(files, d).contains(x) && val_part(files, d).contains(y) implies group_key_of(x)
        != group_key_of(y) by {
        lemma_runs_apart(files, o, 0, a, a, b, x, y);
    }
    assert forall|x: Seq<char>, y: Seq<char>|
        train_part(files, d).contains(x) && test_part(files, d).contains(y) implies group_key_of(
        x,
    ) != group_key_of(y) by {
        lemma_runs_apart(files, o, 0, a, b, n, x, y);
    }
    assert forall|x: Seq<char>, y: Seq<char>|
        val_part(files, d).contains(x) && test_part(files, d).contains(y) implies group_key_of(x)
        != group_key_of(y) by {
        lemma_runs_apart(files, o, a, b, b, n, x, y);
    }
}

/// A class split loses and duplicates nothing: train, validation and test
/// together hold exactly the files of the class.
pub proof fn lemma_split_keeps_every_file(files: Seq<Seq<char>>, d: Seq<usize>)
    requires
        valid_draws(d, group_keys(files).len()),
    ensures
        (train_part(files, d) + val_part(files, d) + test_part(files, d)).to_multiset()
            == files.to_multiset(),
{
    let o = group_order(files, d);
    let a = train_count(o.len()) as int;
    let b = a + val_count(o.len());
    assert(o.len() * 70 / 100 + o.len() * 15 / 100 <= o.len()) by (nonlinear_arith);
    lemma_group_order(files, d);
    lemma_gather_concat(files, o.take(a), o.subrange(a, b));
    assert(o.take(a) + o.subrange(a, b) =~= o.take(b));
    lemma_gather_concat(files, o.take(b), o.skip(b));
    assert(o.take(b) + o.skip(b) =~= o);
    lemma_gather_all(files, o);
}

/// A gathered file is one of the files.
proof fn lemma_gather_within(files: Seq<Seq<char>>, keys: Seq<Seq<char>>, x: Seq<char>)
    requires
        gather(files, keys).contains(x),
    ensures
        files.contains(x),
    decreases keys.len(),
{
    if keys.len() > 0 {
        let a = gather(files, keys.drop_last());
        let b = members(files, keys.last());
        let i = choose|i: int| 0 <= i < (a + b).len() && (a + b)[i] == x;
        if i < a.len() {
            assert(a[i] == x);
            lemma_gather_within(files, keys.drop_last(), x);
        } else {
            assert(b[i - a.len()] == x);
            files.lemma_filter_contains_rev(|f: Seq<char>| group_key_of(f) == keys.last(), x);
        }
    }
}

/// A labelled path of `with_label(ps, l)` is a path of `ps` with the label `l`.
proof fn lemma_with_label_contains(ps: Seq<Seq<char>>, l: Label, x: (Seq<char>, Label))
    requires
        with_label(ps, l).contains(x),
    ensures
        ps.contains(x.0),
        x.1 == l,
{
    let i = choose|i: int| 0 <= i < with_label(ps, l).len() && with_label(ps, l)[i] == x;
    assert(ps[i] == x.0);
}

/// Where a labelled path lies in one part of the data set: among the paths of
/// that part of its own class.
proof fn lemma_part_contains(
    p: Seq<Seq<char>>,
    n: Seq<Seq<char>>,
    x: (Seq<char>, Label),
)
    requires
        (with_label(p, Label::Word) + with_label(n, Label::NotWord)).contains(x),
    ensures
        x.1 == Label::Word ==> p.contains(x.0),
        x.1 == Label::NotWord ==> n.contains(x.0),
{
    let a = with_label(p, Label::Word);
    let b = with_label(n, Label::NotWord);
    let i = choose|i: int| 0 <= i < (a + b).len() && (a + b)[i] == x;
    if i < a.len() {
        assert(a[i] == x);
        lemma_with_label_contains(p, Label::Word, x);
    } else {
        assert(b[i - a.len()] == x);
        lemma_with_label_contains(n, Label::NotWord, x);
    }
}

/// Two paths of different parts have different group keys, given the parts
/// as unions of per-class parts whose groups are never divided and whose
/// classes share no group where the labels differ.
proof fn lemma_parts_apart(
    p1: Seq<Seq<char>>,
    n1: Seq<Seq<char>>,
    p2: Seq<Seq<char>>,
    n2: Seq<Seq<char>>,
    pos: Seq<Seq<char>>,
    neg: Seq<Seq<char>>,
    x: (Seq<char>, Label),
    y: (Seq<char>, Label),
)
    requires
        (with_label(p1, Label::Word) + with_label(n1, Label::NotWord)).contains(x),
        (with_label(p2, Label::Word) + with_label(n2, Label::NotWord)).contains(y),
        forall|u: Seq<char>, v: Seq<char>|
            p1.contains(u) && p2.contains(v) ==> group_key_of(u) != group_key_of(v),
        forall|u: Seq<char>, v: Seq<char>|
            n1.contains(u) && n2.contains(v) ==> group_key_of(u) != group_key_of(v),
        forall|u: Seq<char>| p1.contains(u) || p2.contains(u) ==> pos.contains(u),
        forall|u: Seq<char>| n1.contains(u) || n2.contains(u) ==> neg.contains(u),
        x.1 != y.1 ==> forall|u: Seq<char>, v: Seq<char>|
            pos.contains(u) && neg.contains(v) ==> group_key_of(u) != group_key_of(v),
    ensures
        group_key_of(x.0) != group_key_of(y.0),
{
    lemma_part_contains(p1, n1, x);
    lemma_part_contains(p2, n2, y);
}

/// The facts of one class that the data-set laws rest on.
proof fn lemma_class_facts(files: Seq<Seq<char>>, d: Seq<usize>)
    requires
        valid_draws(d, group_keys(files).len()),
    ensures
        forall|u: Seq<char>|
            train_part(files, d).contains(u) || val_part(files, d).contains(u) || test_part(
                files,
                d,
            ).contains(u) ==> files.contains(u),
{
    assert forall|u: Seq<char>|
        train_part(files, d).contains(u) || val_part(files, d).contains(u) || test_part(
            files,
            d,
        ).contains(u) implies files.contains(u) by {
        let o = group_order(files, d);
        let a = train_count(o.len()) as int;
        let b = a + val_count(o.len());
        if train_part(files, d).contains(u) {
            lemma_gather_within(files, o.take(a), u);
        } else if val_part(files, d).contains(u) {
            lemma_gather_within(files, o.subrange(a, b), u);
        } else {
            lemma_gather_within(files, o.skip(b), u);
        }
    }
}

/// Groups are never divided in the data set: two samples with the same label
/// in different splits have different group keys. Where no group key occurs
/// among both the positives and the negatives, no two samples in different
/// splits share a group key at all: no leakage between splits.
pub proof fn lemma_load_never_divides_groups(
    pos: Seq<Seq<char>>,
    neg: Seq<Seq<char>>,
    dp: Seq<usize>,
    dn: Seq<usize>,
)
    requires
        valid_draws(dp, group_keys(pos).len()),
        valid_draws(dn, group_keys(neg).len()),
    ensures
        ({
            let s = load_split(pos, neg, dp, dn);
            let apart = forall|u: Seq<char>, v: Seq<char>|
                pos.contains(u) && neg.contains(v) ==> group_key_of(u) != group_key_of(v);
            &&& forall|x: (Seq<char>, Label), y: (Seq<char>, Label)|
                #![trigger s.0.contains(x), s.1.contains(y)]
                s.0.contains(x) && s.1.contains(y) && (x.1 == y.1 || apart) ==> group_key_of(x.0)
                    != group_key_of(y.0)
            &&& forall|x: (Seq<char>, Label), y: (Seq<char>, Label)|
                #![trigger s.0.contains(x), s.2.contains(y)]
                s.0.contains(x) && s.2.contains(y) && (x.1 == y.1 || apart) ==> group_key_of(x.0)
                    != group_key_of(y.0)
            &&& forall|x: (Seq<char>, Label), y: (Seq<char>, Label)|
                #![trigger s.1.contains(x), s.2.contains(y)]
                s.1.contains(x) && s.2.contains(y) && (x.1 == y.1 || apart) ==> group_key_of(x.0)
                    != group_key_of(y.0)
        }),
{
    let s = load_split(pos, neg, dp, dn);
    lemma_groups_never_divided(pos, dp);
    lemma_groups_never_divided(neg, dn);
    lemma_class_facts(pos, dp);
    lemma_class_facts(neg, dn);
    let apart = forall|u: Seq<char>, v: Seq<char>|
        pos.contains(u) && neg.contains(v) ==> group_key_of(u) != group_key_of(v);
    let (pt, pv, pte) = (train_part(pos, dp), val_part(pos, dp), test_part(pos, dp));
    let (nt, nv, nte) = (train_part(neg, dn), val_part(neg, dn), test_part(neg, dn));
    assert forall|x: (Seq<char>, Label), y: (Seq<char>, Label)|
        s.0.contains(x) && s.1.contains(y) && (x.1 == y.1 || apart) implies group_key_of(x.0)
        != group_key_of(y.0) by {
        lemma_parts_apart(pt, nt, pv, nv, pos, neg, x, y);
    }
    assert forall|x: (Seq<char>, Label), y: (Seq<char>, Label)|
        s.0.contains(x) && s.2.contains(y) && (x.1 == y.1 || apart) implies group_key_of(x.0)
        != group_key_of(y.0) by {
        lemma_parts_apart(pt, nt, pte, nte, pos, neg, x, y);
    }
    assert forall|x: (Seq<char>, Label), y: (Seq<char>, Label)|
        s.1.contains(x) && s.2.contains(y) && (x.1 == y.1 || apart) implies group_key_of(x.0)
        != group_key_of(y.0) by {
        lemma_parts_apart(pv, nv, pte, nte, pos, neg, x, y);
    }
}

/// The group keys of some files, as a set.
pub open spec fn keys_in(ps: Seq<Seq<char>>) -> Set<Seq<char>> {
    ps.map_values(|f: Seq<char>| group_key_of(f)).to_set()
}

/// A file of one of the groups `keys` is gathered.
proof fn lemma_gather_contains(files: Seq<Seq<char>>, keys: Seq<Seq<char>>, f: Seq<char>)
    requires
        files.contains(f),
        keys.contains(group_key_of(f)),
    ensures
        gather(files, keys).contains(f),
    decreases keys.len(),
{
    let a = gather(files, keys.drop_last());
    let b = members(files, keys.last());
    if keys.last() == group_key_of(f) {
        let i = choose|i: int| 0 <= i < files.len() && files[i] == f;
        assert((|g: Seq<char>| group_key_of(g) == keys.last())(files[i]));
        assert(b.contains(f));
        let j = choose|j: int| 0 <= j < b.len() && b[j] == f;
        assert((a + b)[a.len() + j] == f);
    } else {
        let i = choose|i: int| 0 <= i < keys.len() && keys[i] == group_key_of(f);
        assert(keys.drop_last()[i] == group_key_of(f));
        lemma_gather_contains(files, keys.drop_last(), f);
        let j = choose|j: int| 0 <= j < a.len() && a[j] == f;
        assert((a + b)[j] == f);
    }
}

/// The groups that a run `keys` of the shuffled order gathers are exactly
/// the groups of the run, as many as the run is long.
proof fn lemma_run_groups(files: Seq<Seq<char>>, d: Seq<usize>, keys: Seq<Seq<char>>)
    requires
        valid_draws(d, group_keys(files).len()),
        keys.no_duplicates(),
        forall|k: Seq<char>| keys.contains(k) ==> group_order(files, d).contains(k),
    ensures
        keys_in(gather(files, keys)) == keys.to_set(),
        keys_in(gather(files, keys)).len() == keys.len(),
{
    let g = gather(files, keys);
    let gk = g.map_values(|f: Seq<char>| group_key_of(f));
    lemma_ascending_distinct(file_keys(files));
    assert forall|k: int| 0 <= k < d.len() implies #[trigger] d[k] < group_keys(files).len() by {
        assert(d[k] <= group_keys(files).len() - 1 - k);
    }
    lemma_fisher_yates_permutes(group_keys(files), d);
    assert forall|k: Seq<char>| gk.to_set().contains(k) <==> keys.to_set().contains(k) by {
        if gk.to_set().contains(k) {
            let i = choose|i: int| 0 <= i < gk.len() && gk[i] == k;
            assert(g.contains(g[i]));
            lemma_gather_key(files, keys, g[i]);
        }
        if keys.to_set().contains(k) {
            assert(group_order(files, d).contains(k));
            assert(group_order(files, d).to_multiset().count(k) > 0);
            assert(group_keys(files).to_multiset().count(k) > 0);
            assert(group_keys(files).to_set().contains(k));
            assert(file_keys(files).to_set().contains(k));
            let i = choose|i: int| 0 <= i < file_keys(files).len() && file_keys(files)[i] == k;
            assert(files.contains(files[i]));
            lemma_gather_contains(files, keys, files[i]);
            let j = choose|j: int| 0 <= j < g.len() && g[j] == files[i];
            assert(gk[j] == k);
        }
    }
    assert(gk.to_set() =~= keys.to_set());
    keys.unique_seq_to_set();
}

/// The split goes by groups in the proportions 70 / 15 / 15: of the `n`
/// groups of a class, train holds `n * 70 / 100`, validation `n * 15 / 100`
/// and test the rest; together they hold every group once.
pub proof fn lemma_group_counts(files: Seq<Seq<char>>, d: Seq<usize>)
    requires
        valid_draws(d, group_keys(files).len()),
    ensures
        ({
            let n = group_keys(files).len();
            &&& keys_in(train_part(files, d)).len() == train_count(n)
            &&& keys_in(val_part(files, d)).len() == val_count(n)
            &&& keys_in(test_part(files, d)).len() == n - train_count(n) - val_count(n)
            &&& keys_in(train_part(files, d)) + keys_in(val_part(files, d)) + keys_in(
                test_part(files, d),
            ) == keys_in(files)
        }),
{
    let o = group_order(files, d);
    let n = o.len();
    let a = train_count(n) as int;
    let b = a + val_count(n);
    lemma_ascending_distinct(file_keys(files));
    assert forall|k: int| 0 <= k < d.len() implies #[trigger] d[k] < group_keys(files).len() by {
        assert(d[k] <= group_keys(files).len() - 1 - k);
    }
    lemma_fisher_yates_permutes(group_keys(files), d);
    assert(n * 70 / 100 + n * 15 / 100 <= n) by (nonlinear_arith);
    lemma_group_order(files, d);
    let runs = seq![o.take(a), o.subrange(a, b), o.skip(b)];
    assert forall|r: int| 0 <= r < 3 implies (#[trigger] runs[r]).no_duplicates() && forall|
        k: Seq<char>,
    | runs[r].contains(k) ==> o.contains(k) by {
        assert forall|i: int, j: int|
            0 <= i < runs[r].len() && 0 <= j < runs[r].len() && i != j implies runs[r][i]
            != runs[r][j] by {
            let off = if r == 0 {
                0
            } else if r == 1 {
                a
            } else {
                b
            };
            assert(runs[r][i] == o[off + i] && runs[r][j] == o[off + j]);
        }
        assert forall|k: Seq<char>| runs[r].contains(k) implies o.contains(k) by {
            let i = choose|i: int| 0 <= i < runs[r].len() && runs[r][i] == k;
            let off = if r == 0 {
                0
            } else if r == 1 {
                a
            } else {
                b
            };
            assert(o[off + i] == k);
        }
    }
    assert(runs[0] == o.take(a) && runs[1] == o.subrange(a, b) && runs[2] == o.skip(b));
    lemma_run_groups(files, d, o.take(a));
    lemma_run_groups(files, d, o.subrange(a, b));
    lemma_run_groups(files, d, o.skip(b));
    assert forall|k: Seq<char>|
        (o.take(a).to_set() + o.subrange(a, b).to_set() + o.skip(b).to_set()).contains(k)
            <==> keys_in(files).contains(k) by {
        let fk = files.map_values(|f: Seq<char>| group_key_of(f));
        assert(fk =~= file_keys(files));
        if keys_in(files).contains(k) {
            let i = choose|i: int| 0 <= i < fk.len() && fk[i] == k;
            assert(files.contains(files[i]));
            assert(o.contains(k));
            let j = choose|j: int| 0 <= j < o.len() && o[j] == k;
            if j < a {
                assert(o.take(a)[j] == k);
            } else if j < b {
                assert(o.subrange(a, b)[j - a] == k);
            } else {
                assert(o.skip(b)[j - b] == k);
            }
        }
        if (o.take(a).to_set() + o.subrange(a, b).to_set() + o.skip(b).to_set()).contains(k) {
            assert(o.contains(k));
            assert(o.to_multiset().count(k) > 0);
            assert(group_keys(files).to_multiset().count(k) > 0);
            assert(group_keys(files).to_set().contains(k));
            assert(file_keys(files).to_set().contains(k));
            assert(fk.to_set().contains(k));
        }
    }
    assert(o.take(a).to_set() + o.subrange(a, b).to_set() + o.skip(b).to_set() =~= keys_in(
        files,
    ));
}

/// Files with the same entries have the same group keys.
proof fn lemma_group_keys_order_free(a: Seq<Seq<char>>, b: Seq<Seq<char>>)
    requires
        a.to_multiset() == b.to_multiset(),
    ensures
        group_keys(a) == group_keys(b),
{
    let ka = file_keys(a);
    let kb = file_keys(b);
    assert forall|k: Seq<char>| ka.to_set().contains(k) implies kb.to_set().contains(k) by {
        let i = choose|i: int| 0 <= i < ka.len() && ka[i] == k;
        assert(a.to_multiset().count(a[i]) > 0);
        assert(b.contains(a[i]));
        let j = choose|j: int| 0 <= j < b.len() && b[j] == a[i];
        assert(kb[j] == k);
    }
    assert forall|k: Seq<char>| kb.to_set().contains(k) implies ka.to_set().contains(k) by {
        let i = choose|i: int| 0 <= i < kb.len() && kb[i] == k;
        assert(b.to_multiset().count(b[i]) > 0);
        assert(a.contains(b[i]));
        let j = choose|j: int| 0 <= j < a.len() && a[j] == b[i];
        assert(ka[j] == k);
    }
    assert(ka.to_set() =~= kb.to_set());
    lemma_ascending_distinct(ka);
    lemma_ascending_distinct(kb);
    crate::order::lemma_strictly_ascending_unique(group_keys(a), group_keys(b));
}

/// Files with the same entries gather the same files from any groups.
proof fn lemma_gather_order_free(a: Seq<Seq<char>>, b: Seq<Seq<char>>, keys: Seq<Seq<char>>)
    requires
        a.to_multiset() == b.to_multiset(),
    ensures
        gather(a, keys).to_multiset() == gather(b, keys).to_multiset(),
    decreases keys.len(),
{
    broadcast use vstd::seq_lib::lemma_multiset_commutative;

    if keys.len() > 0 {
        let k = keys.last();
        lemma_gather_order_free(a, b, keys.drop_last());
        let in_group = |f: Seq<char>| group_key_of(f) == k;
        lemma_filter_counts(a, in_group);
        lemma_filter_counts(b, in_group);
        assert(members(a, k).to_multiset() =~= members(b, k).to_multiset());
    } else {
        assert(gather(a, keys) =~= gather(b, keys));
    }
}

/// A class split does not depend on the order of its files: files with the
/// same entries, in any order, have the same groups, take the same draws from
/// the generator and put the same files into train, validation and test.
pub proof fn lemma_split_order_free(
    a: Seq<Seq<char>>,
    b: Seq<Seq<char>>,
    seed: u64,
    asked: Seq<usize>,
    d: Seq<usize>,
)
    requires
        a.to_multiset() == b.to_multiset(),
    ensures
        group_keys(a) == group_keys(b),
        class_draws(seed, asked, a) == class_draws(seed, asked, b),
        train_part(a, d).to_multiset() == train_part(b, d).to_multiset(),
        val_part(a, d).to_multiset() == val_part(b, d).to_multiset(),
        test_part(a, d).to_multiset() == test_part(b, d).to_multiset(),
{
    lemma_group_keys_order_free(a, b);
    let o = group_order(a, d);
    let n = o.len();
    let t = train_count(n) as int;
    let v = val_count(n) as int;
    lemma_gather_order_free(a, b, o.take(t));
    lemma_gather_order_free(a, b, o.subrange(t, t + v));
    lemma_gather_order_free(a, b, o.skip(t + v));
}

/// Loading is reproducible: directories with the same entries, listed in any
/// order, give the same data set every time, since the generator is seeded
/// with `SEED` on each call.
pub proof fn lemma_load_reproducible(
    pos_a: Seq<Seq<char>>,
    pos_b: Seq<Seq<char>>,
    neg_a: Seq<Seq<char>>,
    neg_b: Seq<Seq<char>>,
)
    requires
        pos_a.to_multiset() == pos_b.to_multiset(),
        neg_a.to_multiset() == neg_b.to_multiset(),
    ensures
        seeded_split(wav_paths(pos_a), wav_paths(neg_a)) == seeded_split(
            wav_paths(pos_b),
            wav_paths(neg_b),
        ),
{
    lemma_listing_order_free(pos_a, pos_b);
    lemma_listing_order_free(neg_a, neg_b);
}

/// The paths `ps` labelled `l` hold samples of the class `l` only.
proof fn lemma_labelled_class(ps: Seq<Seq<char>>, l: Label, c: Label)
    ensures
        with_class(with_label(ps, l), c) == if l == c {
            with_label(ps, l)
        } else {
            Seq::empty()
        },
    decreases ps.len(),
{
    if ps.len() == 0 {
        reveal(Seq::filter);
        assert(with_label(ps, l) =~= Seq::empty());
        if l == c {
            assert(with_class(with_label(ps, l), c) =~= with_label(ps, l));
        }
    } else {
        let q = ps.drop_last();
        lemma_labelled_class(q, l, c);
        reveal(Seq::filter);
        assert(with_label(ps, l).drop_last() =~= with_label(q, l));
        assert(with_label(ps, l).last() == (ps.last(), l));
        if l == c {
            assert(with_label(q, l).push((ps.last(), l)) =~= with_label(ps, l));
        }
    }
}

/// Where the positives go does not depend on the negatives: the data sets of
/// the same positive files with any two sets of negative files hold the same
/// positive samples, in the same order, in each of train, validation and test.
pub proof fn lemma_positives_ignore_negatives(
    pos: Seq<Seq<char>>,
    neg_a: Seq<Seq<char>>,
    neg_b: Seq<Seq<char>>,
)
    ensures
        with_class(seeded_split(pos, neg_a).0, Label::Word) == with_class(
            seeded_split(pos, neg_b).0,
            Label::Word,
        ),
        with_class(seeded_split(pos, neg_a).1, Label::Word) == with_class(
            seeded_split(pos, neg_b).1,
            Label::Word,
        ),
        with_class(seeded_split(pos, neg_a).2, Label::Word) == with_class(
            seeded_split(pos, neg_b).2,
            Label::Word,
        ),
{
    broadcast use Seq::filter_distributes_over_add;

    let dp = pos_draws(pos);
    let da = neg_draws(pos, neg_a);
    let db = neg_draws(pos, neg_b);
    lemma_labelled_class(train_part(pos, dp), Label::Word, Label::Word);
    lemma_labelled_class(val_part(pos, dp), Label::Word, Label::Word);
    lemma_labelled_class(test_part(pos, dp), Label::Word, Label::Word);
    lemma_labelled_class(train_part(neg_a, da), Label::NotWord, Label::Word);
    lemma_labelled_class(val_part(neg_a, da), Label::NotWord, Label::Word);
    lemma_labelled_class(test_part(neg_a, da), Label::NotWord, Label::Word);
    lemma_labelled_class(train_part(neg_b, db), Label::NotWord, Label::Word);
    lemma_labelled_class(val_part(neg_b, db), Label::NotWord, Label::Word);
    lemma_labelled_class(test_part(neg_b, db), Label::NotWord, Label::Word);
    let p = class_split(pos, Label::Word, dp);
    let na = class_split(neg_a, Label::NotWord, da);
    let nb = class_split(neg_b, Label::NotWord, db);
    assert(p.0 + Seq::<(Seq<char>, Label)>::empty() =~= p.0);
    assert(p.1 + Seq::<(Seq<char>, Label)>::empty() =~= p.1);
    assert(p.2 + Seq::<(Seq<char>, Label)>::empty() =~= p.2);
}

/// `load` shuffles both classes from one generator seeded with `SEED`: the
/// positives' groups take its first draws, and the negatives' groups take
/// the draws that follow them in the same stream, not a fresh start of it.
pub proof fn lemma_load_draws_one_stream(pos: Seq<Seq<char>>, neg: Seq<Seq<char>>)
    ensures
        pos_draws(pos) + neg_draws(pos, neg) == chacha8_draws(
            SEED,
            Seq::empty(),
            fy_bounds(group_keys(pos).len()) + fy_bounds(group_keys(neg).len()),
        ),
{
    let bp = fy_bounds(group_keys(pos).len());
    let bn = fy_bounds(group_keys(neg).len());
    crate::shuffle::lemma_draws_continue(SEED, Seq::empty(), bp, bn);
    assert(Seq::<usize>::empty() + bp =~= bp);
}

/// A class split takes its draws from the generator it is handed, where that
/// generator stands: the `k`-th draw is what the generator gives for the
/// `k`-th bound once it has been asked everything before, so splitting with a
/// generator that has already been used continues its stream.
pub proof fn lemma_split_draws_continue(
    seed: u64,
    asked: Seq<usize>,
    files: Seq<Seq<char>>,
    k: int,
)
    requires
        0 <= k < group_keys(files).len() - 1,
    ensures
        class_draws(seed, asked, files)[k] == chacha8_upto(
            seed,
            asked + fy_bounds(group_keys(files).len()).take(k),
            (group_keys(files).len() - 1 - k) as usize,
        ),
{
    crate::shuffle::lemma_draw_at(seed, asked, fy_bounds(group_keys(files).len()), k);
}

} // verus!
