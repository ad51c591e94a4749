//! Sorting texts into the order of `String`, with or without repeats.
use vstd::prelude::*;
use vstd::relations::*;
use vstd::multiset::Multiset;
use crate::text::{texts, text_le, text_order, text_le_exec, same_text, lemma_text_le_reflexive, lemma_text_le_antisymmetric, lemma_text_le_transitive, lemma_text_le_total, lemma_text_order_total};

verus! {

broadcast use vstd::seq_lib::group_to_multiset_ensures, vstd::multiset::group_multiset_axioms;

/// Every text sorts no later than every text after it.
pub open spec fn ascending(s: Seq<Seq<char>>) -> bool {
    forall|i: int, j: int| 0 <= i < j < s.len() ==> text_le(#[trigger] s[i], #[trigger] s[j])
}

/// Every text sorts strictly before every text after it.
pub open spec fn strictly_ascending(s: Seq<Seq<char>>) -> bool {
    forall|i: int, j: int|
        0 <= i < j < s.len() ==> text_le(#[trigger] s[i], #[trigger] s[j]) && s[i] != s[j]
}

/// The distinct texts of `s`, each once, in ascending order.
pub open spec fn ascending_distinct(s: Seq<Seq<char>>) -> Seq<Seq<char>> {
    choose|r: Seq<Seq<char>>| strictly_ascending(r) && r.to_set() == s.to_set()
}

/// Two strictly ascending sequences with the same elements are equal.
pub proof fn lemma_strictly_ascending_unique(a: Seq<Seq<char>>, b: Seq<Seq<char>>)
    requires
        strictly_ascending(a),
        strictly_ascending(b),
        a.to_set() == b.to_set(),
    ensures
        a == b,
    decreases a.len(),
{
    if a.len() == 0 {
        if b.len() > 0 {
            assert(b.to_set().contains(b[0]));
            assert(!a.to_set().contains(b[0]));
        }
        assert(a =~= b);
    } else {
        assert(a.to_set().contains(a[0]));
        assert(b.to_set().contains(a[0]));
        let j = choose|j: int| 0 <= j < b.len() && b[j] == a[0];
        assert(b.to_set().contains(b[0]));
        assert(a.to_set().contains(b[0]));
        let i = choose|i: int| 0 <= i < a.len() && a[i] == b[0];
        if j > 0 {
            assert(text_le(b[0], b[j]));
        } else {
            lemma_text_le_reflexive(b[0]);
        }
        if i > 0 {
            assert(text_le(a[0], a[i]));
        } else {
            lemma_text_le_reflexive(a[0]);
        }
        lemma_text_le_antisymmetric(a[0], b[0]);
        let a1 = a.drop_first();
        let b1 = b.drop_first();
        assert forall|t: Seq<char>| a1.to_set().contains(t) <==> b1.to_set().contains(t) by {
            if a1.to_set().contains(t) {
                let k = choose|k: int| 0 <= k < a1.len() && a1[k] == t;
                assert(a[k + 1] == t);
                assert(a.to_set().contains(t));
                assert(b.to_set().contains(t));
                let m = choose|m: int| 0 <= m < b.len() && b[m] == t;
                assert(m != 0);
                assert(b1[m - 1] == t);
            }
            if b1.to_set().contains(t) {
                let k = choose|k: int| 0 <= k < b1.len() && b1[k] == t;
                assert(b[k + 1] == t);
                assert(b.to_set().contains(t));
                assert(a.to_set().contains(t));
                let m = choose|m: int| 0 <= m < a.len() && a[m] == t;
                assert(m != 0);
                assert(a1[m - 1] == t);
            }
        }
        assert(a1.to_set() =~= b1.to_set());
        lemma_strictly_ascending_unique(a1, b1);
        assert(a =~= seq![a[0]] + a1);
        assert(b =~= seq![b[0]] + b1);
    }
}

/// A strictly ascending sequence with the elements of `s` is `ascending_distinct(s)`.
pub proof fn lemma_ascending_distinct_is(r: Seq<Seq<char>>, s: Seq<Seq<char>>)
    requires
        strictly_ascending(r),
        r.to_set() == s.to_set(),
    ensures
        ascending_distinct(s) == r,
        strictly_ascending(ascending_distinct(s)),
        ascending_distinct(s).to_set() == s.to_set(),
{
    let c = ascending_distinct(s);
    assert(strictly_ascending(c) && c.to_set() == s.to_set());
    lemma_strictly_ascending_unique(c, r);
}

/// `s` with each run of equal neighbours kept once.
pub open spec fn dedup_adjacent(s: Seq<Seq<char>>) -> Seq<Seq<char>>
    decreases s.len(),
{
    if s.len() <= 1 {
        s
    } else {
        let r = dedup_adjacent(s.drop_last());
        if s.last() == s[s.len() - 2] {
            r
        } else {
            r.push(s.last())
        }
    }
}

/// Dropping repeated neighbours of an ascending sequence leaves a strictly
/// ascending one with the same elements and the same last element.
proof fn lemma_dedup_ascending(s: Seq<Seq<char>>)
    requires
        ascending(s),
    ensures
        strictly_ascending(dedup_adjacent(s)),
        forall|t: Seq<char>| dedup_adjacent(s).contains(t) <==> s.contains(t),
        s.len() > 0 ==> dedup_adjacent(s).len() > 0 && dedup_adjacent(s).last() == s.last(),
    decreases s.len(),
{
    if s.len() <= 1 {
    } else {
        let t = s.drop_last();
        let x = s.last();
        let y = s[s.len() - 2];
        assert(t.last() == y);
        assert(ascending(t)) by {
            assert forall|i: int, j: int| 0 <= i < j < t.len() implies text_le(
                #[trigger] t[i],
                #[trigger] t[j],
            ) by {
                assert(t[i] == s[i] && t[j] == s[j]);
            }
        }
        lemma_dedup_ascending(t);
        let r = dedup_adjacent(t);
        assert forall|u: Seq<char>| s.contains(u) <==> t.contains(u) || u == x by {
            if s.contains(u) {
                let k = choose|k: int| 0 <= k < s.len() && s[k] == u;
                if k < t.len() {
                    assert(t[k] == u);
                }
            }
            if t.contains(u) {
                let k = choose|k: int| 0 <= k < t.len() && t[k] == u;
                assert(s[k] == u);
            }
            if u == x {
                assert(s[s.len() - 1] == u);
            }
        }
        if x == y {
            assert(t[t.len() - 1] == x);
        } else {
            let r2 = r.push(x);
            assert forall|u: Seq<char>| r.contains(u) implies text_le(u, x) && u != x by {
                assert(t.contains(u));
                let k = choose|k: int| 0 <= k < t.len() && t[k] == u;
                assert(text_le(s[k], s[s.len() - 1]));
                if u == x {
                    if k < t.len() - 1 {
                        assert(text_le(s[k], s[s.len() - 2]));
                    } else {
                        lemma_text_le_reflexive(y);
                    }
                    assert(text_le(s[s.len() - 2], s[s.len() - 1]));
                    lemma_text_le_antisymmetric(x, y);
                }
            }
            assert forall|i: int, j: int| 0 <= i < j < r2.len() implies text_le(
                #[trigger] r2[i],
                #[trigger] r2[j],
            ) && r2[i] != r2[j] by {
                if j == r2.len() - 1 {
                    assert(r.contains(r2[i]));
                } else {
                    assert(r2[i] == r[i] && r2[j] == r[j]);
                }
            }
            assert forall|u: Seq<char>| r2.contains(u) <==> r.contains(u) || u == x by {
                if r2.contains(u) {
                    let k = choose|k: int| 0 <= k < r2.len() && r2[k] == u;
                    if k < r.len() {
                        assert(r[k] == u);
                    }
                }
                if r.contains(u) {
                    let k = choose|k: int| 0 <= k < r.len() && r[k] == u;
                    assert(r2[k] == u);
                }
                if u == x {
                    assert(r2[r.len() as int] == u);
                }
            }
        }
    }
}

/// `ascending_distinct(s)` exists: it is strictly ascending and holds exactly
/// the elements of `s`.
pub proof fn lemma_ascending_distinct(s: Seq<Seq<char>>)
    ensures
        strictly_ascending(ascending_distinct(s)),
        ascending_distinct(s).to_set() == s.to_set(),
        ascending_distinct(s).no_duplicates(),
{
    lemma_text_order_total();
    s.lemma_sort_by_ensures(text_order());
    let sorted = s.sort_by(text_order());
    assert(ascending(sorted)) by {
        assert forall|i: int, j: int| 0 <= i < j < sorted.len() implies text_le(
            #[trigger] sorted[i],
            #[trigger] sorted[j],
        ) by {
            assert(text_order()(sorted[i], sorted[j]));
        }
    }
    lemma_dedup_ascending(sorted);
    let r = dedup_adjacent(sorted);
    assert forall|t: Seq<char>| r.to_set().contains(t) <==> s.to_set().contains(t) by {
        assert(sorted.to_multiset().count(t) == s.to_multiset().count(t));
        if s.contains(t) {
            assert(s.to_multiset().count(t) > 0);
        }
        if sorted.contains(t) {
            assert(sorted.to_multiset().count(t) > 0);
        }
    }
    assert(r.to_set() =~= s.to_set());
    lemma_ascending_distinct_is(r, s);
    lemma_strictly_ascending_no_duplicates(r);
}

/// A strictly ascending sequence has no repeated element.
pub proof fn lemma_strictly_ascending_no_duplicates(s: Seq<Seq<char>>)
    requires
        strictly_ascending(s),
    ensures
        s.no_duplicates(),
{
    assert forall|i: int, j: int| 0 <= i < s.len() && 0 <= j < s.len() && i != j implies s[i]
        != s[j] by {
        if i < j {
            assert(text_le(s[i], s[j]) && s[i] != s[j]);
        } else {
            assert(text_le(s[j], s[i]) && s[j] != s[i]);
        }
    }
}

/// Inserting `a` into `s` adds exactly `a` to what `s` contains.
proof fn lemma_insert_contains(s: Seq<Seq<char>>, i: int, a: Seq<char>, t: Seq<char>)
    requires
        0 <= i <= s.len(),
    ensures
        s.insert(i, a).contains(t) <==> s.contains(t) || t == a,
{
    let u = s.insert(i, a);
    if s.contains(t) {
        let k = choose|k: int| 0 <= k < s.len() && s[k] == t;
        if k < i {
            assert(u[k] == t);
        } else {
            assert(u[k + 1] == t);
        }
    }
    if t == a {
        assert(u[i] == t);
    }
    if u.contains(t) {
        let k = choose|k: int| 0 <= k < u.len() && u[k] == t;
        if k < i {
            assert(s[k] == t);
        } else if k > i {
            assert(s[k - 1] == t);
        }
    }
}

/// The first position of an ascending `r` whose text sorts strictly after `x`.
fn upper_bound(r: &Vec<Vec<char>>, x: &Vec<char>) -> (lo: usize)
    requires
        ascending(texts(r@)),
    ensures
        lo <= r.len(),
        forall|i: int| 0 <= i < lo ==> text_le(#[trigger] r@[i]@, x@),
        forall|i: int| lo <= i < r.len() ==> !text_le(#[trigger] r@[i]@, x@),
{
    let mut lo: usize = 0;
    let mut hi: usize = r.len();
    while lo < hi
        invariant
            lo <= hi <= r.len(),
            ascending(texts(r@)),
            forall|i: int| 0 <= i < lo ==> text_le(#[trigger] r@[i]@, x@),
            forall|i: int| hi <= i < r.len() ==> !text_le(#[trigger] r@[i]@, x@),
        decreases hi - lo,
    {
        let mid = lo + (hi - lo) / 2;
        if text_le_exec(&r[mid], x) {
            assert forall|i: int| 0 <= i < mid + 1 implies text_le(#[trigger] r@[i]@, x@) by {
                if i < mid {
                    assert(texts(r@)[i] == r@[i]@ && texts(r@)[mid as int] == r@[mid as int]@);
                    lemma_text_le_transitive(r@[i]@, r@[mid as int]@, x@);
                }
            }
            lo = mid + 1;
        } else {
            assert forall|i: int| mid <= i < r.len() implies !text_le(#[trigger] r@[i]@, x@) by {
                if i > mid && text_le(r@[i]@, x@) {
                    assert(texts(r@)[i] == r@[i]@ && texts(r@)[mid as int] == r@[mid as int]@);
                    lemma_text_le_transitive(r@[mid as int]@, r@[i]@, x@);
                }
            }
            hi = mid;
        }
    }
    lo
}

/// Sorts texts into the order of `String`, keeping repeats.
pub fn sort_texts(items: Vec<Vec<char>>) -> (r: Vec<Vec<char>>)
    ensures
        texts(r@) == texts(items@).sort_by(text_order()),
        ascending(texts(r@)),
        texts(r@).to_multiset() == texts(items@).to_multiset(),
{
    let ghost orig = texts(items@);
    let mut items = items;
    let mut r: Vec<Vec<char>> = Vec::new();
    assert(texts(r@).to_multiset() =~= Multiset::empty());
    while items.len() > 0
        invariant
            ascending(texts(r@)),
            texts(r@).to_multiset().add(texts(items@).to_multiset()) == orig.to_multiset(),
        decreases items.len(),
    {
        let ghost before = items@;
        let x = items.pop().unwrap();
        assert(texts(before) =~= texts(items@).push(x@));
        let lo = upper_bound(&r, &x);
        let ghost old_r = r@;
        r.insert(lo, x);
        assert(texts(r@) =~= texts(old_r).insert(lo as int, x@));
        assert forall|i: int, j: int| 0 <= i < j < texts(r@).len() implies text_le(
            #[trigger] texts(r@)[i],
            #[trigger] texts(r@)[j],
        ) by {
            if j < lo {
                assert(texts(old_r)[i] == texts(r@)[i] && texts(old_r)[j] == texts(r@)[j]);
            } else if j == lo {
                assert(texts(r@)[i] == old_r[i]@);
            } else if i < lo {
                assert(texts(old_r)[i] == texts(r@)[i] && texts(old_r)[j - 1] == texts(r@)[j]);
            } else if i == lo {
                assert(!text_le(old_r[j - 1]@, x@));
                lemma_text_le_total(old_r[j - 1]@, x@);
            } else {
                assert(texts(old_r)[i - 1] == texts(r@)[i] && texts(old_r)[j - 1]
                    == texts(r@)[j]);
            }
        }
    }
    proof {
        assert(texts(items@).to_multiset() =~= Multiset::empty());
        assert(texts(r@).to_multiset().add(Multiset::empty()) =~= texts(r@).to_multiset());
        lemma_text_order_total();
        orig.lemma_sort_by_ensures(text_order());
        assert(sorted_by(texts(r@), text_order()));
        vstd::seq_lib::lemma_sorted_unique(texts(r@), orig.sort_by(text_order()), text_order());
    }
    r
}

/// The distinct texts of `items`, each once, ascending in the order of `String`.
pub fn sorted_distinct_texts(items: Vec<Vec<char>>) -> (r: Vec<Vec<char>>)
    ensures
        texts(r@) == ascending_distinct(texts(items@)),
        strictly_ascending(texts(r@)),
        texts(r@).to_set() == texts(items@).to_set(),
{
    let ghost orig = texts(items@);
    let mut items = items;
    let mut r: Vec<Vec<char>> = Vec::new();
    while items.len() > 0
        invariant
            strictly_ascending(texts(r@)),
            forall|t: Seq<char>|
                orig.contains(t) <==> texts(r@).contains(t) || texts(items@).contains(t),
        decreases items.len(),
    {
        let ghost before = items@;
        let x = items.pop().unwrap();
        assert(texts(before) =~= texts(items@).push(x@));
        proof {
            assert forall|i: int, j: int| 0 <= i < j < texts(r@).len() implies text_le(
                #[trigger] texts(r@)[i],
                #[trigger] texts(r@)[j],
            ) by {
                assert(text_le(texts(r@)[i], texts(r@)[j]) && texts(r@)[i] != texts(r@)[j]);
            }
        }
        let lo = upper_bound(&r, &x);
        let ghost old_r = r@;
        if lo > 0 && same_text(&r[lo - 1], &x) {
            assert(texts(old_r)[lo - 1] == x@);
            assert forall|t: Seq<char>|
                orig.contains(t) <==> texts(r@).contains(t) || texts(items@).contains(t) by {
                if t == x@ {
                    assert(texts(r@)[lo - 1] == t);
                }
                if texts(before).contains(t) {
                    let k = choose|k: int| 0 <= k < texts(before).len() && texts(before)[k] == t;
                    if k < texts(items@).len() {
                        assert(texts(items@)[k] == t);
                    }
                }
                if texts(items@).contains(t) {
                    let k = choose|k: int| 0 <= k < texts(items@).len() && texts(items@)[k] == t;
                    assert(texts(before)[k] == t);
                }
            }
        } else {
            r.insert(lo, x);
            assert(texts(r@) =~= texts(old_r).insert(lo as int, x@));
            assert forall|t: Seq<char>|
                orig.contains(t) <==> texts(r@).contains(t) || texts(items@).contains(t) by {
                lemma_insert_contains(texts(old_r), lo as int, x@, t);
                if t == x@ {
                    assert(texts(before)[texts(items@).len() as int] == t);
                }
                if texts(before).contains(t) {
                    let k = choose|k: int| 0 <= k < texts(before).len() && texts(before)[k] == t;
                    if k < texts(items@).len() {
                        assert(texts(items@)[k] == t);
                    }
                }
                if texts(items@).contains(t) {
                    let k = choose|k: int| 0 <= k < texts(items@).len() && texts(items@)[k] == t;
                    assert(texts(before)[k] == t);
                }
            }
            assert forall|i: int, j: int| 0 <= i < j < texts(r@).len() implies text_le(
                #[trigger] texts(r@)[i],
                #[trigger] texts(r@)[j],
            ) && texts(r@)[i] != texts(r@)[j] by {
                if j < lo {
                    assert(texts(old_r)[i] == texts(r@)[i] && texts(old_r)[j] == texts(r@)[j]);
                } else if j == lo {
                    assert(texts(r@)[i] == old_r[i]@);
                    assert(text_le(old_r[i]@, x@));
                    if old_r[i]@ == x@ {
                        assert(i < lo - 1);
                        assert(texts(old_r)[i] == old_r[i]@);
                        assert(texts(old_r)[lo - 1] == old_r[lo - 1]@);
                        assert(text_le(old_r[lo - 1]@, x@));
                        lemma_text_le_antisymmetric(old_r[lo - 1]@, x@);
                    }
                } else if i < lo {
                    assert(texts(old_r)[i] == texts(r@)[i] && texts(old_r)[j - 1] == texts(r@)[j]);
                } else if i == lo {
                    assert(!text_le(old_r[j - 1]@, x@));
                    lemma_text_le_total(old_r[j - 1]@, x@);
                    if old_r[j - 1]@ == x@ {
                        lemma_text_le_reflexive(x@);
                    }
                } else {
                    assert(texts(old_r)[i - 1] == texts(r@)[i] && texts(old_r)[j - 1]
                        == texts(r@)[j]);
                }
            }
        }
    }
    proof {
        assert(texts(r@).to_set() =~= orig.to_set());
        lemma_ascending_distinct_is(texts(r@), orig);
    }
    r
}

/// Whether the strictly ascending `r` holds `x`.
pub fn contains_text(r: &Vec<Vec<char>>, x: &Vec<char>) -> (b: bool)
    requires
        strictly_ascending(texts(r@)),
    ensures
        b == texts(r@).contains(x@),
{
    proof {
        assert forall|i: int, j: int| 0 <= i < j < texts(r@).len() implies text_le(
            #[trigger] texts(r@)[i],
            #[trigger] texts(r@)[j],
        ) by {
            assert(text_le(texts(r@)[i], texts(r@)[j]) && texts(r@)[i] != texts(r@)[j]);
        }
    }
    let lo = upper_bound(r, x);
    if lo > 0 && same_text(&r[lo - 1], x) {
        assert(texts(r@)[lo - 1] == x@);
        true
    } else {
        proof {
            if texts(r@).contains(x@) {
                let i = choose|i: int| 0 <= i < texts(r@).len() && texts(r@)[i] == x@;
                assert(r@[i]@ == x@);
                lemma_text_le_reflexive(x@);
                assert(i < lo);
                if i < lo - 1 {
                    assert(text_le(texts(r@)[i], texts(r@)[lo - 1]));
                }
                assert(text_le(r@[lo - 1]@, x@));
                lemma_text_le_antisymmetric(r@[lo - 1]@, x@);
            }
        }
        false
    }
}

} // verus!
