//! Text-to-speech generation of positive samples: which voices the
//! synthesiser offers, and how each generated file and request is named.
use vstd::prelude::*;
use crate::text::{texts, decimal, push_decimal, push_str, string_of, chars_of};

verus! {

/// The characters with the Unicode property White_Space, which
/// `char::is_whitespace` (and so `str::split_whitespace`) separates at.
pub open spec fn is_white_space(c: char) -> bool {
    let u = c as u32;
    ||| 0x9 <= u <= 0xD
    ||| u == 0x20
    ||| u == 0x85
    ||| u == 0xA0
    ||| u == 0x1680
    ||| 0x2000 <= u <= 0x200A
    ||| u == 0x2028
    ||| u == 0x2029
    ||| u == 0x202F
    ||| u == 0x205F
    ||| u == 0x3000
}

/// Whether `c` is a White_Space character.
pub fn white_space(c: char) -> (r: bool)
    ensures
        r == is_white_space(c),
{
    let u = c as u32;
    (0x9 <= u && u <= 0xD) || u == 0x20 || u == 0x85 || u == 0xA0 || u == 0x1680 || (0x2000 <= u
        && u <= 0x200A) || u == 0x2028 || u == 0x2029 || u == 0x202F || u == 0x205F || u == 0x3000
}

/// The pieces of `t` between newlines: always at least one, the last one
/// empty where `t` is empty or ends with a newline.
pub open spec fn pieces(t: Seq<char>) -> Seq<Seq<char>>
    decreases t.len(),
{
    if t.len() == 0 {
        seq![Seq::empty()]
    } else {
        let p = pieces(t.drop_last());
        if t.last() == '\n' {
            p.push(Seq::empty())
        } else {
            p.update(p.len() - 1, p.last().push(t.last()))
        }
    }
}

/// A line without the carriage return that ends it, if any.
pub open spec fn strip_cr(l: Seq<char>) -> Seq<char> {
    if l.len() > 0 && l.last() == '\r' {
        l.drop_last()
    } else {
        l
    }
}

/// The lines of `t` as `str::lines` gives them: cut at each newline, a
/// carriage return right before a newline dropped, no line after a final
/// newline.
pub open spec fn text_lines(t: Seq<char>) -> Seq<Seq<char>> {
    let p = pieces(t);
    let body = if p.last().len() == 0 {
        p.drop_last()
    } else {
        p
    };
    Seq::new(body.len(), |i: int| if i < p.len() - 1 { strip_cr(body[i]) } else { body[i] })
}

/// The mark of a Russian voice name: `ru-RU-`.
pub open spec fn voice_mark() -> Seq<char> {
    seq!['r', 'u', '-', 'R', 'U', '-']
}

/// `ru-RU-` starts at position `q` of `l`.
pub open spec fn voice_mark_at(l: Seq<char>, q: int) -> bool {
    0 <= q && q + 6 <= l.len() && l.subrange(q, q + 6) == voice_mark()
}

/// The first `ru-RU-` of `l` starts at `q`.
pub open spec fn first_voice_mark(l: Seq<char>, q: int) -> bool {
    voice_mark_at(l, q) && forall|j: int| 0 <= j < q ==> !voice_mark_at(l, j)
}

/// The start of the whitespace-free run of `l` around position `q`.
pub open spec fn token_start(l: Seq<char>, q: int) -> int
    decreases q,
{
    if q <= 0 || is_white_space(l[q - 1]) {
        q
    } else {
        token_start(l, q - 1)
    }
}

/// The end of the whitespace-free run of `l` around position `q`.
pub open spec fn token_end(l: Seq<char>, q: int) -> int
    decreases l.len() - q,
{
    if q >= l.len() || is_white_space(l[q]) {
        q
    } else {
        token_end(l, q + 1)
    }
}

/// The voice a line names: the first whitespace-separated word of the line
/// that holds `ru-RU-` (the word around the first `ru-RU-`), if any.
pub open spec fn voice_of_line(l: Seq<char>) -> Option<Seq<char>> {
    if exists|q: int| first_voice_mark(l, q) {
        let q = choose|q: int| first_voice_mark(l, q);
        Some(l.subrange(token_start(l, q), token_end(l, q)))
    } else {
        None
    }
}

/// The voices a voice listing names: for each line that names one, in order.
pub open spec fn listed_voices(t: Seq<char>) -> Seq<Seq<char>> {
    text_lines(t).filter_map(|l: Seq<char>| voice_of_line(l))
}

/// The lines of `t`.
fn split_lines(t: &Vec<char>) -> (r: Vec<Vec<char>>)
    ensures
        texts(r@) == text_lines(t@),
{
    let mut done: Vec<Vec<char>> = Vec::new();
    let mut cur: Vec<char> = Vec::new();
    let ghost mut raw: Seq<Seq<char>> = Seq::empty();
    assert(t@.take(0) =~= Seq::<char>::empty());
    for i in 0..t.len()
        invariant
            pieces(t@.take(i as int)) == raw.push(cur@),
            texts(done@) == raw.map_values(|l: Seq<char>| strip_cr(l)),
    {
        assert(t@.take(i + 1).drop_last() =~= t@.take(i as int));
        assert(t@.take(i + 1).last() == t@[i as int]);
        if t[i] == '\n' {
            let ghost whole = cur@;
            let mut line = cur;
            if line.len() > 0 && line[line.len() - 1] == '\r' {
                line.pop();
            }
            assert(line@ == strip_cr(whole));
            let ghost before = done@;
            done.push(line);
            proof {
                raw = raw.push(whole);
            }
            assert(texts(done@) =~= texts(before).push(strip_cr(whole)));
            assert(raw.map_values(|l: Seq<char>| strip_cr(l)) =~= raw.drop_last().map_values(
                |l: Seq<char>| strip_cr(l),
            ).push(strip_cr(whole)));
            cur = Vec::new();
            assert(pieces(t@.take(i + 1)) =~= raw.push(cur@));
        } else {
            cur.push(t[i]);
            assert(pieces(t@.take(i + 1)) =~= raw.push(cur@));
        }
    }
    assert(t@.take(t.len() as int) =~= t@);
    let ghost p = raw.push(cur@);
    assert(pieces(t@) == p);
    if cur.len() > 0 {
        let ghost before = done@;
        let ghost last = cur@;
        done.push(cur);
        assert(texts(done@) =~= texts(before).push(last));
        assert(p.last() == last);
        assert forall|i: int| 0 <= i < texts(done@).len() implies texts(done@)[i] == text_lines(
            t@,
        )[i] by {
            if i < raw.len() {
                assert(texts(before)[i] == strip_cr(raw[i]));
                assert(p[i] == raw[i]);
            }
        }
        assert(texts(done@) =~= text_lines(t@));
    } else {
        assert(p.drop_last() =~= raw);
        assert(texts(done@) =~= text_lines(t@));
    }
    done
}

/// Whether `ru-RU-` starts at position `q` of `l`.
fn mark_at(l: &Vec<char>, q: usize) -> (r: bool)
    requires
        q + 6 <= l.len(),
    ensures
        r == voice_mark_at(l@, q as int),
{
    if l[q] == 'r' && l[q + 1] == 'u' && l[q + 2] == '-' && l[q + 3] == 'R' && l[q + 4] == 'U'
        && l[q + 5] == '-' {
        assert(l@.subrange(q as int, q + 6) =~= voice_mark());
        true
    } else {
        assert(l@.subrange(q as int, q + 6)[0] == l@[q as int]);
        assert(l@.subrange(q as int, q + 6)[1] == l@[q + 1]);
        assert(l@.subrange(q as int, q + 6)[2] == l@[q + 2]);
        assert(l@.subrange(q as int, q + 6)[3] == l@[q + 3]);
        assert(l@.subrange(q as int, q + 6)[4] == l@[q + 4]);
        assert(l@.subrange(q as int, q + 6)[5] == l@[q + 5]);
        false
    }
}

/// The voice a line names, if any.
fn voice_in_line(l: &Vec<char>) -> (r: Option<String>)
    ensures
        match r {
            Some(s) => voice_of_line(l@) == Some(s@),
            None => voice_of_line(l@) is None,
        },
{
    let mut q: usize = 0;
    while q < l.len() && 6 <= l.len() - q
        invariant
            q <= l.len(),
            forall|j: int| 0 <= j < q ==> !voice_mark_at(l@, j),
        decreases l.len() - q,
    {
        if mark_at(l, q) {
            proof {
                assert(first_voice_mark(l@, q as int));
                let c = choose|c: int| first_voice_mark(l@, c);
                if c < q {
                    assert(!voice_mark_at(l@, c));
                } else if c > q {
                    assert(voice_mark_at(l@, q as int));
                }
            }
            let mut s = q;
            while s > 0 && !white_space(l[s - 1])
                invariant
                    s <= q,
                    q < l.len(),
                    token_start(l@, q as int) == token_start(l@, s as int),
                decreases s,
            {
                s = s - 1;
            }
            let mut e = q;
            while e < l.len() && !white_space(l[e])
                invariant
                    q <= e <= l.len(),
                    token_end(l@, q as int) == token_end(l@, e as int),
                decreases l.len() - e,
            {
                e = e + 1;
            }
            let v = string_of(&l.as_slice()[s..e]);
            assert(l@.subrange(s as int, e as int) == l@.subrange(
                token_start(l@, q as int),
                token_end(l@, q as int),
            ));
            return Some(v);
        }
        q = q + 1;
    }
    proof {
        assert forall|c: int| !first_voice_mark(l@, c) by {
            if c >= q && voice_mark_at(l@, c) {
                assert(c + 6 <= l.len());
            }
        }
    }
    None
}

/// The Russian voices in the output of `edge-tts --list-voices`: from each
/// line, the first whitespace-separated word that holds `ru-RU-`, in order.
/// The exact layout of the listing does not matter.
pub fn voices_in_listing(listing: &str) -> (r: Vec<String>)
    ensures
        crate::text::views(r@) == listed_voices(listing@),
{
    let t = chars_of(listing);
    let lines = split_lines(&t);
    let mut out: Vec<String> = Vec::new();
    let ghost ls = texts(lines@);
    assert(ls.take(0) =~= Seq::<Seq<char>>::empty());
    for i in 0..lines.len()
        invariant
            ls == texts(lines@),
            crate::text::views(out@) == ls.take(i as int).filter_map(
                |l: Seq<char>| voice_of_line(l),
            ),
    {
        assert(ls.take(i + 1).drop_last() =~= ls.take(i as int));
        assert(ls.take(i + 1).last() == lines@[i as int]@);
        let ghost before = out@;
        match voice_in_line(&lines[i]) {
            Some(v) => {
                let ghost vv = v@;
                out.push(v);
                assert(crate::text::views(out@) =~= crate::text::views(before) + seq![vv]);
            },
            None => {},
        }
    }
    assert(ls.take(lines.len() as int) =~= ls);
    out
}

/// The short name of a voice: without the leading `ru-RU-`, where there is one.
pub open spec fn short_voice(v: Seq<char>) -> Seq<char> {
    if v.len() >= 6 && v.take(6) == voice_mark() {
        v.skip(6)
    } else {
        v
    }
}

/// The short name of a voice for file names: `ru-RU-DmitryNeural` gives
/// `DmitryNeural`; a name without `ru-RU-` stays as it is.
pub fn voice_short(voice: &str) -> (r: String)
    ensures
        r@ == short_voice(voice@),
{
    let c = chars_of(voice);
    if c.len() >= 6 && mark_at(&c, 0) {
        assert(c@.subrange(0, 6) =~= c@.take(6));
        assert(c@.subrange(6, c@.len() as int) =~= c@.skip(6));
        string_of(&c.as_slice()[6..c.len()])
    } else {
        proof {
            if c@.len() >= 6 {
                assert(c@.subrange(0, 6) =~= c@.take(6));
            }
        }
        string_of(c.as_slice())
    }
}

/// The tag of a speaking rate in file names: `norm` for 0, `plus{r}` above,
/// `minus{-r}` below.
pub open spec fn rate_tag_of(rate: int) -> Seq<char> {
    if rate == 0 {
        seq!['n', 'o', 'r', 'm']
    } else if rate > 0 {
        seq!['p', 'l', 'u', 's'] + decimal(rate as nat)
    } else {
        seq!['m', 'i', 'n', 'u', 's'] + decimal((-rate) as nat)
    }
}

/// Appends the tag of a speaking rate to `out`.
fn push_rate_tag(out: &mut Vec<char>, rate: i32)
    requires
        rate != i32::MIN,
    ensures
        final(out)@ == old(out)@ + rate_tag_of(rate as int),
{
    if rate == 0 {
        push_str(out, "norm");
        proof {
            reveal_strlit("norm");
        }
    } else if rate > 0 {
        push_str(out, "plus");
        proof {
            reveal_strlit("plus");
        }
        push_decimal(out, rate as u64);
        assert(out@ =~= old(out)@ + rate_tag_of(rate as int));
    } else {
        push_str(out, "minus");
        proof {
            reveal_strlit("minus");
        }
        push_decimal(out, (-rate) as u64);
        assert(out@ =~= old(out)@ + rate_tag_of(rate as int));
    }
    assert(out@ =~= old(out)@ + rate_tag_of(rate as int));
}

/// The tag of a speaking rate in file names: `norm`, `plus25`, `minus10`.
pub fn rate_tag(rate: i32) -> (r: String)
    requires
        rate != i32::MIN,
    ensures
        r@ == rate_tag_of(rate as int),
{
    let mut c: Vec<char> = Vec::new();
    push_rate_tag(&mut c, rate);
    assert(c@ =~= rate_tag_of(rate as int));
    string_of(c.as_slice())
}

/// The rate option of the synthesiser: `--rate=` then the rate with its sign
/// (`+` for zero and above) and `%`.
pub open spec fn rate_option_of(rate: int) -> Seq<char> {
    seq!['-', '-', 'r', 'a', 't', 'e', '='] + (if rate >= 0 {
        seq!['+'] + decimal(rate as nat)
    } else {
        seq!['-'] + decimal((-rate) as nat)
    }) + seq!['%']
}

/// The rate option of the synthesiser: `--rate=+25%`, `--rate=-10%`,
/// `--rate=+0%`.
pub fn rate_option(rate: i32) -> (r: String)
    ensures
        r@ == rate_option_of(rate as int),
{
    let mut c: Vec<char> = Vec::new();
    push_str(&mut c, "--rate=");
    proof {
        reveal_strlit("--rate=");
    }
    let wide = rate as i64;
    if wide >= 0 {
        c.push('+');
        push_decimal(&mut c, wide as u64);
    } else {
        c.push('-');
        push_decimal(&mut c, (-wide) as u64);
    }
    c.push('%');
    assert(c@ =~= rate_option_of(rate as int));
    string_of(c.as_slice())
}

/// The file a voice, a text and a rate are written to:
/// `{out_dir}/germes_t{text_index}_{short voice}_{rate tag}.mp3`.
pub open spec fn tts_file_name_of(out_dir: Seq<char>, text_index: nat, voice: Seq<char>, rate: int) -> Seq<
    char,
> {
    out_dir + seq!['/', 'g', 'e', 'r', 'm', 'e', 's', '_', 't'] + decimal(text_index) + seq!['_']
        + short_voice(voice) + seq!['_'] + rate_tag_of(rate) + seq!['.', 'm', 'p', '3']
}

/// The file a voice, a text and a rate are written to, e.g.
/// `dataset/raw/tts/germes_t0_DmitryNeural_plus25.mp3`.
pub fn tts_file_name(out_dir: &str, text_index: usize, voice: &str, rate: i32) -> (r: String)
    requires
        rate != i32::MIN,
    ensures
        r@ == tts_file_name_of(out_dir@, text_index as nat, voice@, rate as int),
{
    let mut c: Vec<char> = Vec::new();
    push_str(&mut c, out_dir);
    push_str(&mut c, "/germes_t");
    proof {
        reveal_strlit("/germes_t");
    }
    push_decimal(&mut c, text_index as u64);
    c.push('_');
    let short = voice_short(voice);
    push_str(&mut c, short.as_str());
    c.push('_');
    push_rate_tag(&mut c, rate);
    push_str(&mut c, ".mp3");
    proof {
        reveal_strlit(".mp3");
    }
    assert(c@ =~= tts_file_name_of(out_dir@, text_index as nat, voice@, rate as int));
    string_of(c.as_slice())
}

/// A file counts as already generated when it exists and is not empty.
pub fn already_generated(size: Option<u64>) -> (r: bool)
    ensures
        r == (size matches Some(n) && n > 0),
{
    match size {
        Some(n) => n > 0,
        None => false,
    }
}

/// A generation counts as done when the synthesiser exited successfully and
/// left a file of more than 1000 bytes (a failing service may leave an empty
/// or tiny file).
pub fn generation_succeeded(exit_ok: bool, size: Option<u64>) -> (r: bool)
    ensures
        r == (exit_ok && (size matches Some(n) && n > 1000)),
{
    exit_ok && match size {
        Some(n) => n > 1000,
        None => false,
    }
}

} // verus!
