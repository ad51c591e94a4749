//! File names: group keys of recordings and selection of `.wav` files.
use vstd::prelude::*;
use crate::text::{views, texts, text_order, chars_of, string_of, lemma_text_order_total};
use crate::order::sort_texts;

verus! {

/// What `Path::file_stem` gives for the path `path`, as text, under the path
/// syntax of the platform the library is built for.
pub uninterp spec fn file_stem_of(path: Seq<char>) -> Option<Seq<char>>;

/// What `Path::extension` gives for the path `path`, as text, under the path
/// syntax of the platform the library is built for.
pub uninterp spec fn extension_of(path: Seq<char>) -> Option<Seq<char>>;

/// The text of an optional string.
pub open spec fn text_of(o: Option<String>) -> Option<Seq<char>> {
    match o {
        Some(s) => Some(s@),
        None => None,
    }
}

/// `c` stands inside a file name without being read as a path separator, a
/// drive separator or a dot.
pub open spec fn plain_char(c: char) -> bool {
    c != '/' && c != '\\' && c != ':' && c != '.'
}

/// `path` is `dir`, then `stem`, a dot and `ext`, where `dir` is empty or ends
/// in `/` and holds no `\` or `:`, `stem` is not empty, and neither `stem`
/// nor `ext` holds a separator, a `:` or a dot. On every platform the last
/// component of such a path is the file name `stem.ext`.
pub open spec fn plain_file_path(
    path: Seq<char>,
    dir: Seq<char>,
    stem: Seq<char>,
    ext: Seq<char>,
) -> bool {
    &&& path == dir + stem + seq!['.'] + ext
    &&& (dir.len() == 0 || dir.last() == '/')
    &&& forall|i: int| 0 <= i < dir.len() ==> #[trigger] dir[i] != '\\' && dir[i] != ':'
    &&& stem.len() > 0
    &&& forall|i: int| 0 <= i < stem.len() ==> plain_char(#[trigger] stem[i])
    &&& forall|i: int| 0 <= i < ext.len() ==> plain_char(#[trigger] ext[i])
}

/// The file stem of `path`: `std::path::Path::file_stem`, taken as `str`.
/// The contract names the result (`file_stem_of`). Of a path `dir/stem.ext`
/// as `plain_file_path` describes it, it also states what the documentation
/// of `file_stem` gives: the file name is the last component `stem.ext`, and
/// its stem is the part before the final dot, `stem`, character for
/// character. Of other paths it claims nothing more.
#[verifier::external_body]
fn file_stem(path: &str) -> (r: Option<String>)
    ensures
        text_of(r) == file_stem_of(path@),
        forall|dir: Seq<char>, stem: Seq<char>, ext: Seq<char>|
            #[trigger] plain_file_path(path@, dir, stem, ext) ==> text_of(r) == Some(stem),
{
    std::path::Path::new(path).file_stem().and_then(|s| s.to_str()).map(|s| s.to_string())
}

/// The extension of `path`: `std::path::Path::extension`, taken as `str`.
/// The contract names the result (`extension_of`) and claims nothing else of it.
#[verifier::external_body]
fn extension(path: &str) -> (r: Option<String>)
    ensures
        text_of(r) == extension_of(path@),
{
    std::path::Path::new(path).extension().and_then(|s| s.to_str()).map(|s| s.to_string())
}

/// What `str::to_lowercase` gives for the text `s`.
pub uninterp spec fn lowercase_of(s: Seq<char>) -> Seq<char>;

/// The lowercase form of `s`: `str::to_lowercase`. The contract names the
/// result (`lowercase_of`) and claims nothing else of it.
#[verifier::external_body]
fn lowercase(s: &str) -> (r: String)
    ensures
        r@ == lowercase_of(s@),
{
    s.to_lowercase()
}

/// A path is an audio file to preprocess: its extension, in lower case, is
/// `wav` or `mp3`.
pub open spec fn is_audio_input(path: Seq<char>) -> bool {
    match extension_of(path) {
        Some(e) => lowercase_of(e) == seq!['w', 'a', 'v'] || lowercase_of(e) == seq!['m', 'p', '3'],
        None => false,
    }
}

/// The audio files of a directory listing, in path order.
pub open spec fn audio_input_paths(listing: Seq<Seq<char>>) -> Seq<Seq<char>> {
    listing.filter(|p: Seq<char>| is_audio_input(p)).sort_by(text_order())
}

/// The augmentation marker `_v` starts at position `i` of `s`.
pub open spec fn marker_at(s: Seq<char>, i: int) -> bool {
    0 <= i && i + 1 < s.len() && s[i] == '_' && s[i + 1] == 'v'
}

/// `s` holds the marker `_v` somewhere.
pub open spec fn has_marker(s: Seq<char>) -> bool {
    exists|i: int| marker_at(s, i)
}

/// `c` is a decimal digit.
pub open spec fn is_digit(c: char) -> bool {
    '0' <= c && c <= '9'
}

/// From position `i` on, `s` is the augmentation suffix: `_v` followed by
/// one or more decimal digits up to its end.
pub open spec fn suffix_at(s: Seq<char>, i: int) -> bool {
    &&& 0 <= i
    &&& i + 2 < s.len()
    &&& s[i] == '_'
    &&& s[i + 1] == 'v'
    &&& forall|j: int| i + 2 <= j < s.len() ==> is_digit(#[trigger] s[j])
}

/// The group key of a file stem: the stem without its augmentation suffix
/// `_vN` (`N` decimal digits), or the whole stem where it does not end in one.
pub open spec fn key_of_stem(s: Seq<char>) -> Seq<char> {
    if exists|i: int| suffix_at(s, i) {
        s.take(choose|i: int| suffix_at(s, i))
    } else {
        s
    }
}

/// The group key of the recording at `path`: the key of its file stem, where
/// a path without a stem counts as the empty stem.
pub open spec fn group_key_of(path: Seq<char>) -> Seq<char> {
    key_of_stem(
        match file_stem_of(path) {
            Some(s) => s,
            None => Seq::empty(),
        },
    )
}

/// A path is a `.wav` file: its extension is exactly `wav`.
pub open spec fn is_wav(path: Seq<char>) -> bool {
    extension_of(path) == Some(seq!['w', 'a', 'v'])
}

/// A path is a recording that augmentation starts from: a `.wav` file whose
/// stem, where it has one, holds no `_v`.
pub open spec fn is_augment_source(path: Seq<char>) -> bool {
    &&& is_wav(path)
    &&& match file_stem_of(path) {
        Some(s) => !has_marker(s),
        None => true,
    }
}

/// The `.wav` files of a directory listing, in path order.
pub open spec fn wav_paths(listing: Seq<Seq<char>>) -> Seq<Seq<char>> {
    listing.filter(|p: Seq<char>| is_wav(p)).sort_by(text_order())
}

/// The augmentation sources of a directory listing, in path order.
pub open spec fn augment_source_paths(listing: Seq<Seq<char>>) -> Seq<Seq<char>> {
    listing.filter(|p: Seq<char>| is_augment_source(p)).sort_by(text_order())
}

/// A stem ends in at most one augmentation suffix.
proof fn lemma_suffix_unique(s: Seq<char>, i: int)
    requires
        suffix_at(s, i),
    ensures
        (choose|k: int| suffix_at(s, k)) == i,
{
    let k = choose|k: int| suffix_at(s, k);
    assert(suffix_at(s, k));
    if k < i {
        if i == k + 1 {
            assert(s[k + 1] == 'v');
        } else {
            assert(is_digit(s[i]));
        }
    } else if k > i {
        if k == i + 1 {
            assert(s[i + 1] == 'v');
        } else {
            assert(is_digit(s[k]));
        }
    }
}

/// Whether the characters `c` hold `_v`.
fn holds_marker(c: &Vec<char>) -> (r: bool)
    ensures
        r == has_marker(c@),
{
    let mut i: usize = 0;
    while i < c.len() && i + 1 < c.len()
        invariant
            i <= c.len(),
            forall|j: int| 0 <= j < i ==> !marker_at(c@, j),
        decreases c.len() - i,
    {
        if c[i] == '_' && c[i + 1] == 'v' {
            assert(marker_at(c@, i as int));
            return true;
        }
        i = i + 1;
    }
    proof {
        assert forall|j: int| !marker_at(c@, j) by {
            if j >= i {
                assert(!(j + 1 < c@.len()));
            }
        }
    }
    false
}

/// The group key of a file stem: the stem without its augmentation suffix
/// `_vN`. `germes_real_0020_v7` gives `germes_real_0020`, and so does
/// `germes_real_0020` itself; a stem that does not end in `_v` and digits
/// (`ru_voice_01`) is its own key.
pub fn key_from_stem(stem: &str) -> (r: String)
    ensures
        r@ == key_of_stem(stem@),
{
    let c = chars_of(stem);
    let mut i: usize = c.len();
    while i > 0 && c[i - 1] >= '0' && c[i - 1] <= '9'
        invariant
            i <= c.len(),
            c@ == stem@,
            forall|j: int| i <= j < c.len() ==> is_digit(#[trigger] c@[j]),
        decreases i,
    {
        i = i - 1;
    }
    if i < c.len() && i >= 2 && c[i - 2] == '_' && c[i - 1] == 'v' {
        proof {
            assert(suffix_at(c@, i - 2));
            lemma_suffix_unique(c@, i - 2);
        }
        let r = string_of(&c.as_slice()[0..i - 2]);
        assert(c@.subrange(0, i - 2) =~= c@.take(i - 2));
        return r;
    }
    proof {
        assert forall|k: int| !suffix_at(c@, k) by {
            if suffix_at(c@, k) {
                if i > k + 2 {
                    assert(is_digit(c@[i - 1]));
                } else if i < k + 2 {
                    assert(is_digit(c@[k + 1]));
                }
            }
        }
    }
    string_of(c.as_slice())
}

/// Grouping key of a recording: its file name without the augmentation suffix
/// `_vN`. `germes_real_0020_v7.wav` gives `germes_real_0020`, and so does
/// `germes_real_0020.wav`, so the two are never separated when the data set is
/// split. Negatives have no suffix: each file is a group of its own.
pub fn group_key(path: &str) -> (r: String)
    ensures
        r@ == group_key_of(path@),
        forall|dir: Seq<char>, stem: Seq<char>, ext: Seq<char>|
            #[trigger] plain_file_path(path@, dir, stem, ext) ==> r@ == key_of_stem(stem),
{
    match file_stem(path) {
        Some(stem) => key_from_stem(stem.as_str()),
        None => {
            let empty = String::new();
            key_from_stem(empty.as_str())
        },
    }
}

/// Whether the text is exactly `wav`.
fn is_wav_text(e: &Vec<char>) -> (r: bool)
    ensures
        r == (e@ == seq!['w', 'a', 'v']),
{
    if e.len() == 3 && e[0] == 'w' && e[1] == 'a' && e[2] == 'v' {
        assert(e@ =~= seq!['w', 'a', 'v']);
        true
    } else {
        false
    }
}

/// Whether `path` is a `.wav` file.
fn wav_file(path: &str) -> (r: bool)
    ensures
        r == is_wav(path@),
{
    match extension(path) {
        Some(e) => {
            let c = chars_of(e.as_str());
            is_wav_text(&c)
        },
        None => false,
    }
}

/// Whether `path` is an audio file to preprocess.
fn audio_input(path: &str) -> (r: bool)
    ensures
        r == is_audio_input(path@),
{
    match extension(path) {
        Some(e) => {
            let low = lowercase(e.as_str());
            let c = chars_of(low.as_str());
            if c.len() == 3 && c[0] == 'm' && c[1] == 'p' && c[2] == '3' {
                assert(c@ =~= seq!['m', 'p', '3']);
                true
            } else {
                proof {
                    if c@ == seq!['m', 'p', '3'] {
                        assert(c@[0] == 'm' && c@[1] == 'p' && c@[2] == '3');
                    }
                }
                is_wav_text(&c)
            }
        },
        None => false,
    }
}

/// Whether `path` is a recording that augmentation starts from.
fn augment_source(path: &str) -> (r: bool)
    ensures
        r == is_augment_source(path@),
{
    if !wav_file(path) {
        return false;
    }
    match file_stem(path) {
        Some(s) => {
            let c = chars_of(s.as_str());
            !holds_marker(&c)
        },
        None => true,
    }
}

/// Strings with the given texts.
fn strings_of(t: Vec<Vec<char>>) -> (r: Vec<String>)
    ensures
        views(r@) == texts(t@),
{
    let mut r: Vec<String> = Vec::new();
    for i in 0..t.len()
        invariant
            views(r@) == texts(t@).take(i as int),
    {
        let s = string_of(t[i].as_slice());
        assert(s@ == texts(t@)[i as int]);
        let ghost before = r@;
        r.push(s);
        assert(views(r@) =~= views(before).push(s@));
        assert(views(r@) =~= texts(t@).take(i + 1));
    }
    assert(texts(t@).take(t.len() as int) =~= texts(t@));
    r
}

/// Which paths of a listing to select.
enum Selection {
    Wav,
    AugmentSource,
    AudioInput,
}

/// The test of a selection.
spec fn selected(kind: Selection) -> spec_fn(Seq<char>) -> bool {
    match kind {
        Selection::Wav => |p: Seq<char>| is_wav(p),
        Selection::AugmentSource => |p: Seq<char>| is_augment_source(p),
        Selection::AudioInput => |p: Seq<char>| is_audio_input(p),
    }
}

/// The paths of `listing` that the selection `kind` picks, in path order.
fn select_sorted(listing: &Vec<String>, kind: Selection) -> (r: Vec<String>)
    ensures
        views(r@) == views(listing@).filter(selected(kind)).sort_by(text_order()),
{
    let ghost pred = selected(kind);
    let mut picked: Vec<Vec<char>> = Vec::new();
    assert(views(listing@).take(0) =~= Seq::<Seq<char>>::empty());
    proof {
        reveal(Seq::filter);
    }
    for i in 0..listing.len()
        invariant
            pred == selected(kind),
            texts(picked@) == views(listing@).take(i as int).filter(pred),
    {
        let path = listing[i].as_str();
        let keep = match kind {
            Selection::Wav => wav_file(path),
            Selection::AugmentSource => augment_source(path),
            Selection::AudioInput => audio_input(path),
        };
        let ghost before = picked@;
        proof {
            reveal(Seq::filter);
            assert(views(listing@).take(i + 1).drop_last() =~= views(listing@).take(i as int));
            assert(views(listing@).take(i + 1).last() == listing@[i as int]@);
        }
        if keep {
            picked.push(chars_of(path));
            assert(texts(picked@) =~= texts(before).push(listing@[i as int]@));
        } else {
            assert(texts(picked@) =~= texts(before));
        }
    }
    assert(views(listing@).take(listing.len() as int) =~= views(listing@));
    let sorted = sort_texts(picked);
    strings_of(sorted)
}

/// The `.wav` files of a directory listing, in path order (for the paths of
/// one directory, the order of `PathBuf`).
pub fn wav_files(listing: &Vec<String>) -> (r: Vec<String>)
    ensures
        views(r@) == wav_paths(views(listing@)),
{
    let r = select_sorted(listing, Selection::Wav);
    assert(selected(Selection::Wav) == |p: Seq<char>| is_wav(p));
    r
}

/// The recordings of a directory listing that augmentation starts from: the
/// `.wav` files whose stem holds no `_v` (files already augmented are never
/// augmented again), in path order.
pub fn augment_sources(listing: &Vec<String>) -> (r: Vec<String>)
    ensures
        views(r@) == augment_source_paths(views(listing@)),
{
    let r = select_sorted(listing, Selection::AugmentSource);
    assert(selected(Selection::AugmentSource) == |p: Seq<char>| is_augment_source(p));
    r
}

/// The audio files of a directory listing to preprocess: those whose
/// extension, in lower case, is `wav` or `mp3`, in path order.
pub fn audio_inputs(listing: &Vec<String>) -> (r: Vec<String>)
    ensures
        views(r@) == audio_input_paths(views(listing@)),
{
    let r = select_sorted(listing, Selection::AudioInput);
    assert(selected(Selection::AudioInput) == |p: Seq<char>| is_audio_input(p));
    r
}

/// An augmented copy keeps the group key of its source: for a stem `s` without
/// `_v`, both `s` and `s` followed by `_v` and decimal digits `t` (the variant
/// number) have the key `s`.
pub proof fn lemma_variant_keeps_key(s: Seq<char>, t: Seq<char>)
    requires
        !has_marker(s),
        t.len() > 0,
        forall|j: int| 0 <= j < t.len() ==> is_digit(#[trigger] t[j]),
    ensures
        key_of_stem(s) == s,
        key_of_stem(s + seq!['_', 'v'] + t) == s,
{
    assert forall|k: int| !suffix_at(s, k) by {
        assert(!marker_at(s, k));
    }
    let u = s + seq!['_', 'v'] + t;
    let n = s.len() as int;
    assert forall|j: int| n + 2 <= j < u.len() implies is_digit(#[trigger] u[j]) by {
        assert(u[j] == t[j - n - 2]);
    }
    assert(suffix_at(u, n));
    lemma_suffix_unique(u, n);
    assert(u.take(n) =~= s);
}

/// Selecting from a sequence keeps, of each item that passes, as many copies
/// as the sequence holds, and drops the rest.
pub proof fn lemma_filter_counts<A>(s: Seq<A>, keep: spec_fn(A) -> bool)
    ensures
        forall|x: A|
            #[trigger] s.filter(keep).to_multiset().count(x) == if keep(x) {
                s.to_multiset().count(x)
            } else {
                0
            },
    decreases s.len(),
{
    broadcast use vstd::seq_lib::group_to_multiset_ensures, vstd::multiset::group_multiset_axioms;

    if s.len() == 0 {
        reveal(Seq::filter);
        assert(s.filter(keep) =~= Seq::<A>::empty());
        assert(s =~= Seq::<A>::empty());
    } else {
        let r = s.drop_last();
        lemma_filter_counts(r, keep);
        assert(s =~= r.push(s.last()));
        r.lemma_filter_push(s.last(), keep);
    }
}

/// The files that a listing yields do not depend on the order in which the
/// directory hands out its entries: listings with the same entries give the
/// same `.wav` files, the same augmentation sources and the same audio
/// inputs, in the same order.
pub proof fn lemma_listing_order_free(a: Seq<Seq<char>>, b: Seq<Seq<char>>)
    requires
        a.to_multiset() == b.to_multiset(),
    ensures
        wav_paths(a) == wav_paths(b),
        augment_source_paths(a) == augment_source_paths(b),
        audio_input_paths(a) == audio_input_paths(b),
{
    lemma_text_order_total();
    let k1 = |p: Seq<char>| is_wav(p);
    let k2 = |p: Seq<char>| is_augment_source(p);
    let k3 = |p: Seq<char>| is_audio_input(p);
    lemma_filter_counts(a, k1);
    lemma_filter_counts(b, k1);
    lemma_filter_counts(a, k2);
    lemma_filter_counts(b, k2);
    lemma_filter_counts(a, k3);
    lemma_filter_counts(b, k3);
    assert(a.filter(k1).to_multiset() =~= b.filter(k1).to_multiset());
    assert(a.filter(k2).to_multiset() =~= b.filter(k2).to_multiset());
    assert(a.filter(k3).to_multiset() =~= b.filter(k3).to_multiset());
    a.filter(k1).lemma_sort_by_ensures(text_order());
    b.filter(k1).lemma_sort_by_ensures(text_order());
    a.filter(k2).lemma_sort_by_ensures(text_order());
    b.filter(k2).lemma_sort_by_ensures(text_order());
    a.filter(k3).lemma_sort_by_ensures(text_order());
    b.filter(k3).lemma_sort_by_ensures(text_order());
    vstd::seq_lib::lemma_sorted_unique(
        a.filter(k1).sort_by(text_order()),
        b.filter(k1).sort_by(text_order()),
        text_order(),
    );
    vstd::seq_lib::lemma_sorted_unique(
        a.filter(k2).sort_by(text_order()),
        b.filter(k2).sort_by(text_order()),
        text_order(),
    );
    vstd::seq_lib::lemma_sorted_unique(
        a.filter(k3).sort_by(text_order()),
        b.filter(k3).sort_by(text_order()),
        text_order(),
    );
}

/// The group key keeps the characters of the stem, case and all: it is the
/// stem itself where the stem does not end in an augmentation suffix, and
/// otherwise the stem cut just before its suffix `_vN`.
pub proof fn lemma_key_keeps_stem(s: Seq<char>)
    ensures
        key_of_stem(s) == s.take(key_of_stem(s).len() as int),
        key_of_stem(s).len() <= s.len(),
        (exists|i: int| suffix_at(s, i)) ==> suffix_at(s, key_of_stem(s).len() as int),
        !(exists|i: int| suffix_at(s, i)) ==> key_of_stem(s) == s,
{
    if exists|i: int| suffix_at(s, i) {
        let i = choose|i: int| suffix_at(s, i);
        assert(s.take(i).len() == i);
    } else {
        assert(s.take(s.len() as int) =~= s);
    }
}

} // verus!
