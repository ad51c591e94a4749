use std::collections::HashSet;
use wake_word_ml::check::{count_label, leaked_groups};
use wake_word_ml::shuffle::SeededRng;
use wake_word_ml::dataset::{group_key, load, split_class, split_class_with, Label, Sample, Splits, SEED};

fn strings(v: &[&str]) -> Vec<String> {
    v.iter().map(|s| s.to_string()).collect()
}

fn paths(v: &[Sample]) -> Vec<String> {
    v.iter().map(|s| s.path.clone()).collect()
}

fn ten_groups() -> Vec<String> {
    strings(&[
        "d/a.wav", "d/a_v1.wav", "d/b.wav", "d/c.wav", "d/d.wav", "d/e.wav", "d/f.wav", "d/g.wav",
        "d/h.wav", "d/h_v2.wav", "d/i.wav", "d/j.wav",
    ])
}

#[test]
fn split_class_with_identity_draws_cuts_sorted_groups() {
    let files = ten_groups();
    let (train, val, test) = split_class_with(&files, Label::Word, &vec![9, 8, 7, 6, 5, 4, 3, 2, 1]);
    assert_eq!(
        paths(&train),
        strings(&["d/a.wav", "d/a_v1.wav", "d/b.wav", "d/c.wav", "d/d.wav", "d/e.wav", "d/f.wav", "d/g.wav"])
    );
    assert_eq!(paths(&val), strings(&["d/h.wav", "d/h_v2.wav"]));
    assert_eq!(paths(&test), strings(&["d/i.wav", "d/j.wav"]));
    assert!(train.iter().chain(&val).chain(&test).all(|s| s.label == Label::Word));
}

#[test]
fn split_class_with_reordered_groups() {
    let files = ten_groups();
    // step 0 swaps the last group (j) with the first (a); the rest stay put
    let (train, val, test) = split_class_with(&files, Label::NotWord, &vec![0, 8, 7, 6, 5, 4, 3, 2, 1]);
    assert_eq!(
        paths(&train),
        strings(&["d/j.wav", "d/b.wav", "d/c.wav", "d/d.wav", "d/e.wav", "d/f.wav", "d/g.wav"])
    );
    assert_eq!(paths(&val), strings(&["d/h.wav", "d/h_v2.wav"]));
    assert_eq!(paths(&test), strings(&["d/i.wav", "d/a.wav", "d/a_v1.wav"]));
    assert!(train.iter().all(|s| s.label == Label::NotWord));
}

#[test]
fn split_class_of_few_groups() {
    // 3 groups: 70 % of 3 is 2, 15 % of 3 is 0
    let files = strings(&["x/p.wav", "x/q.wav", "x/r.wav"]);
    let (train, val, test) = split_class(&files, Label::Word, &mut SeededRng::new(SEED));
    assert_eq!((train.len(), val.len(), test.len()), (2, 0, 1));
    let (train, val, test) = split_class(&Vec::new(), Label::Word, &mut SeededRng::new(SEED));
    assert!(train.is_empty() && val.is_empty() && test.is_empty());
}

fn listing(dir: &str, n: usize, variants: usize) -> Vec<String> {
    let mut v = Vec::new();
    for i in 0..n {
        v.push(format!("{dir}/rec_{i:04}.wav"));
        for k in 1..=variants {
            v.push(format!("{dir}/rec_{i:04}_v{k}.wav"));
        }
    }
    v.push(format!("{dir}/notes.txt"));
    v.reverse();
    v
}

fn same_split(a: &Splits, b: &Splits) -> bool {
    paths(&a.train) == paths(&b.train) && paths(&a.val) == paths(&b.val) && paths(&a.test) == paths(&b.test)
}

#[test]
fn load_is_reproducible_and_keeps_groups_together() {
    let pos = listing("pos", 20, 3);
    let neg: Vec<String> = (0..40).map(|i| format!("neg/n{i:03}.wav")).collect();
    let s1 = load(&pos, &neg);
    let s2 = load(&pos, &neg);
    assert!(same_split(&s1, &s2));

    // every .wav file exactly once
    let mut all: Vec<String> = paths(&s1.train);
    all.extend(paths(&s1.val));
    all.extend(paths(&s1.test));
    assert_eq!(all.len(), 80 + 40);
    let unique: HashSet<&String> = all.iter().collect();
    assert_eq!(unique.len(), all.len());
    assert!(!all.iter().any(|p| p.ends_with(".txt")));

    // 70/15/15 of the groups of each class
    assert_eq!(count_label(&s1.train, Label::Word), 14 * 4);
    assert_eq!(count_label(&s1.val, Label::Word), 3 * 4);
    assert_eq!(count_label(&s1.test, Label::Word), 3 * 4);
    assert_eq!(count_label(&s1.train, Label::NotWord), 28);
    assert_eq!(count_label(&s1.val, Label::NotWord), 6);
    assert_eq!(count_label(&s1.test, Label::NotWord), 6);

    // positives first in each split
    assert_eq!(s1.train[0].label, Label::Word);
    assert_eq!(s1.train[s1.train.len() - 1].label, Label::NotWord);

    let (a, b) = leaked_groups(&s1);
    assert!(a.is_empty() && b.is_empty());

    let keys = |v: &[Sample]| -> HashSet<String> { v.iter().map(|s| group_key(&s.path)).collect() };
    let (kt, kv, kte) = (keys(&s1.train), keys(&s1.val), keys(&s1.test));
    assert!(kt.is_disjoint(&kv) && kt.is_disjoint(&kte) && kv.is_disjoint(&kte));
}

#[test]
fn leaked_groups_reports_shared_groups() {
    let sample = |p: &str, l: Label| Sample { path: p.to_string(), label: l };
    let s = Splits {
        train: vec![sample("d/a.wav", Label::Word), sample("d/b.wav", Label::Word), sample("d/z.wav", Label::NotWord)],
        val: vec![sample("d/a_v1.wav", Label::Word), sample("d/c.wav", Label::NotWord)],
        test: vec![sample("d/c_v3.wav", Label::Word), sample("d/z.wav", Label::NotWord)],
    };
    let (a, b) = leaked_groups(&s);
    assert_eq!(a, strings(&["a", "z"]));
    assert_eq!(b, strings(&["c"]));
    assert_eq!(count_label(&s.train, Label::Word), 2);
    assert_eq!(count_label(&s.test, Label::NotWord), 1);
}

#[test]
fn classes_sharing_a_group_may_leak() {
    // The same stem among positives and negatives: the two classes are split
    // apart, so the group may land in two splits.
    let pos: Vec<String> = (0..10).map(|i| format!("p/k{i}.wav")).collect();
    let neg: Vec<String> = (0..10).map(|i| format!("n/k{i}.wav")).collect();
    let s = load(&pos, &neg);
    let (a, b) = leaked_groups(&s);
    let total = a.len() + b.len();
    let keys = |v: &[Sample], l: Label| -> HashSet<String> {
        v.iter().filter(|s| s.label == l).map(|s| group_key(&s.path)).collect()
    };
    // within one class the groups still never divide
    for l in [Label::Word, Label::NotWord] {
        assert!(keys(&s.train, l).is_disjoint(&keys(&s.val, l)));
        assert!(keys(&s.train, l).is_disjoint(&keys(&s.test, l)));
        assert!(keys(&s.val, l).is_disjoint(&keys(&s.test, l)));
    }
    assert!(total <= 10);
}

#[test]
fn load_ignores_listing_order() {
    let pos = listing("pos", 12, 2);
    let neg: Vec<String> = (0..25).map(|i| format!("neg/n{i:03}.wav")).collect();
    let mut pos2 = pos.clone();
    pos2.rotate_left(7);
    let mut neg2 = neg.clone();
    neg2.reverse();
    assert!(same_split(&load(&pos, &neg), &load(&pos2, &neg2)));
}

#[test]
fn positives_do_not_depend_on_negatives() {
    let pos = listing("pos", 15, 1);
    let neg_a: Vec<String> = (0..10).map(|i| format!("a/n{i:03}.wav")).collect();
    let neg_b: Vec<String> = (0..33).map(|i| format!("b/m{i:03}_v1.wav")).collect();
    let a = load(&pos, &neg_a);
    let b = load(&pos, &neg_b);
    let words = |v: &[Sample]| -> Vec<String> {
        v.iter().filter(|s| s.label == Label::Word).map(|s| s.path.clone()).collect()
    };
    assert_eq!(words(&a.train), words(&b.train));
    assert_eq!(words(&a.val), words(&b.val));
    assert_eq!(words(&a.test), words(&b.test));
    assert_eq!(words(&a.train).len() + words(&a.val).len() + words(&a.test).len(), 30);
}

#[test]
fn split_class_ignores_file_order() {
    let files = ten_groups();
    let mut reordered = files.clone();
    reordered.reverse();
    let mut r1 = SeededRng::new(SEED);
    let mut r2 = SeededRng::new(SEED);
    let s1 = split_class(&files, Label::Word, &mut r1);
    let s2 = split_class(&reordered, Label::Word, &mut r2);
    let sorted = |v: &[Sample]| -> Vec<String> {
        let mut p = paths(v);
        p.sort();
        p
    };
    assert_eq!(sorted(&s1.0), sorted(&s2.0));
    assert_eq!(sorted(&s1.1), sorted(&s2.1));
    assert_eq!(sorted(&s1.2), sorted(&s2.2));
    // both generators were asked the same: their next draws agree
    assert_eq!(r1.upto(1000), r2.upto(1000));
}
