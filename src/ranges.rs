use vstd::prelude::*;
use crate::data::{get_browser_stat, lookup, BrowserStat, Data, DataView, StatView};
use crate::dates::{midnight_utc, utc_midnight, valid_date};
use crate::error::{Distrib, Error, ErrorView};
use crate::selectors::{dviews, named, newest, selected, Selected};
use crate::usage::{passes, passes_exec, sign_len, sub_chars};
use crate::text::{
    all_digits, all_digits_exec, decimal_value, fraction_millionths, pad_fraction, is_digit, is_word_char, parse_decimal, digits_value, is_keyword, is_keyword_exec, is_name, is_name_exec,
    join_words, join_words_exec, parse_digits, split_by, split_chars, string_of, views,
};

verus! {

broadcast use Seq::lemma_flatten_push;

/// The release date recorded for a version: the first entry for it.
pub open spec fn release_date_of(rd: Seq<(Seq<char>, Option<i64>)>, v: Seq<char>) -> Option<i64>
    decreases rd.len(),
{
    if rd.len() == 0 {
        None
    } else if rd[0].0 == v {
        rd[0].1
    } else {
        release_date_of(rd.drop_first(), v)
    }
}

fn release_date_exec(st: &BrowserStat, v: &String) -> (r: Option<i64>)
    ensures
        r == release_date_of(st@.release_date, v@),
{
    let ghost rd = st@.release_date;
    let mut i: usize = 0;
    proof {
        assert(rd.skip(0) =~= rd);
    }
    while i < st.release_date.len()
        invariant
            rd == st@.release_date,
            i <= rd.len(),
            release_date_of(rd, v@) == release_date_of(rd.skip(i as int), v@),
        decreases rd.len() - i,
    {
        let e = &st.release_date[i];
        proof {
            assert(rd[i as int] == e@);
            assert(rd.skip(i as int)[0] == e@);
            assert(rd.skip(i as int).drop_first() =~= rd.skip(i + 1));
        }
        if e.version == *v {
            return e.date;
        }
        i = i + 1;
    }
    None
}

/// The versions of a stat released at or after `time`.
pub open spec fn released_since(st: StatView, time: int) -> Seq<Seq<char>> {
    st.versions.filter(
        |v: Seq<char>|
            match release_date_of(st.release_date, v) {
                Some(t) => t >= time,
                None => false,
            },
    )
}

pub open spec fn since_of(d: DataView, b: StatView, time: int, mobile_to_desktop: bool) -> Seq<(Seq<char>, Seq<char>)> {
    match lookup(d, b.name, mobile_to_desktop) {
        Some((n, st)) => named(n, released_since(st, time)),
        None => Seq::empty(),
    }
}

/// Every version of every browser released at or after `time`.
pub open spec fn since_all(d: DataView, time: int, mobile_to_desktop: bool) -> Seq<(Seq<char>, Seq<char>)> {
    d.browsers.map_values(|b: StatView| since_of(d, b, time, mobile_to_desktop)).flatten()
}

/// The date of a clause `since YYYY[-MM[-DD]]`, and its parts.
pub open spec fn since_shape(ws: Seq<Seq<char>>) -> Option<Seq<char>> {
    if ws.len() == 2 && is_keyword(ws[0], "since"@) {
        let p = split_by(ws[1], |c: char| c == '-');
        if 1 <= p.len() <= 3 && (forall|i: int| 0 <= i < p.len() ==> (#[trigger] p[i]).len() > 0 && all_digits(p[i])) {
            Some(ws[1])
        } else {
            None
        }
    } else {
        None
    }
}

/// The `i`th part of a date, `1` where it is left out.
pub open spec fn date_part(date: Seq<char>, i: int) -> int {
    let p = split_by(date, |c: char| c == '-');
    if i < p.len() {
        digits_value(p[i])
    } else {
        1
    }
}

pub open spec fn select_since(ws: Seq<Seq<char>>, d: DataView, mobile_to_desktop: bool) -> Selected {
    match since_shape(ws) {
        None => Ok(None),
        Some(date) => {
            let (y, m, dd) = (date_part(date, 0), date_part(date, 1), date_part(date, 2));
            if y > i32::MAX || m > u32::MAX || dd > u32::MAX || !valid_date(y, m, dd) {
                Err(ErrorView::InvalidDate(date))
            } else {
                Ok(Some(since_all(d, midnight_utc(y, m, dd), mobile_to_desktop)))
            }
        },
    }
}

fn date_part_exec(p: &Vec<Vec<char>>, i: usize) -> (r: Option<u64>)
    requires
        forall|k: int| 0 <= k < p@.len() ==> all_digits(#[trigger] p@[k]@),
    ensures
        i < p@.len() ==> r == (if digits_value(p@[i as int]@) <= u64::MAX {
            Some(digits_value(p@[i as int]@) as u64)
        } else {
            None::<u64>
        }),
        i >= p@.len() ==> r == Some(1u64),
{
    if i < p.len() {
        parse_digits(&p[i])
    } else {
        Some(1)
    }
}

fn push_since(out: &mut Vec<Distrib>, n: &String, st: &BrowserStat, time: i64)
    ensures
        dviews(final(out)@) == dviews(old(out)@) + named(n@, released_since(st@, time as int)),
{
    let ghost vs = st@.versions;
    let ghost pred = |v: Seq<char>|
        match release_date_of(st@.release_date, v) {
            Some(t) => t >= time,
            None => false,
        };
    let ghost base = dviews(out@);
    let mut i: usize = 0;
    while i < st.versions.len()
        invariant
            vs == st@.versions,
            pred == (|v: Seq<char>|
                match release_date_of(st@.release_date, v) {
                    Some(t) => t >= time,
                    None => false,
                }),
            i <= vs.len(),
            dviews(out@) == base + named(n@, vs.subrange(0, i as int).filter(pred)),
        decreases vs.len() - i,
    {
        let v = &st.versions[i];
        proof {
            assert(vs[i as int] == v@);
            let t = vs.subrange(0, i + 1);
            assert(t.drop_last() =~= vs.subrange(0, i as int));
            assert(t.last() == v@);
            reveal(Seq::filter);
        }
        let keep = match release_date_exec(st, v) {
            Some(t) => t >= time,
            None => false,
        };
        if keep {
            let ghost before = out@;
            let e = Distrib::from_strings(n.clone(), v.clone());
            out.push(e);
            proof {
                assert(dviews(out@) =~= dviews(before).push(e@));
                assert(dviews(out@) =~= base + named(n@, vs.subrange(0, i + 1).filter(pred)));
            }
        } else {
            proof {
                assert(vs.subrange(0, i + 1).filter(pred) == vs.subrange(0, i as int).filter(pred));
            }
        }
        i = i + 1;
    }
    proof {
        assert(vs.subrange(0, vs.len() as int) =~= vs);
    }
}

/// `since YYYY[-MM[-DD]]`: every version released at or after midnight UTC of
/// that day.
pub fn since_exec(ws: &Vec<Vec<char>>, mobile_to_desktop: bool, data: &Data) -> (r: Result<Option<Vec<Distrib>>, Error>)
    ensures
        selected(r) == select_since(views(ws@), data@, mobile_to_desktop),
{
    if !(ws.len() == 2 && is_keyword_exec(&ws[0], "since")) {
        return Ok(None);
    }
    let p = split_chars(&ws[1], '-');
    if !(1 <= p.len() && p.len() <= 3) {
        return Ok(None);
    }
    let mut k: usize = 0;
    while k < p.len()
        invariant
            k <= p@.len(),
            1 <= p@.len() <= 3,
            ws@.len() == 2,
            is_keyword(ws@[0]@, "since"@),
            views(p@) == split_by(ws@[1]@, |c: char| c == '-'),
            forall|j: int| 0 <= j < k ==> (#[trigger] p@[j]@).len() > 0 && all_digits(p@[j]@),
        decreases p@.len() - k,
    {
        if !(p[k].len() > 0 && all_digits_exec(&p[k])) {
            proof {
                let pv = views(p@);
                assert(views(ws@)[1] == ws@[1]@);
                assert(pv[k as int] == p@[k as int]@);
                assert(!(pv[k as int].len() > 0 && all_digits(pv[k as int])));
                assert(since_shape(views(ws@)).is_none());
            }
            return Ok(None);
        }
        k = k + 1;
    }
    let ghost date = views(ws@)[1];
    proof {
        let pv = views(p@);
        assert(date == ws@[1]@);
        assert forall|i: int| 0 <= i < pv.len() implies (#[trigger] pv[i]).len() > 0 && all_digits(pv[i]) by {
            assert(pv[i] == p@[i]@);
        }
        assert(since_shape(views(ws@)) == Some(date));
        assert forall|i: int| 0 <= i < 3 && i < p@.len() implies date_part(date, i) == digits_value(p@[i]@) by {
            assert(pv[i] == p@[i]@);
        }
        crate::text::lemma_digits_value_nonneg(p@[0]@);
        if p@.len() > 1 {
            crate::text::lemma_digits_value_nonneg(p@[1]@);
        }
        if p@.len() > 2 {
            crate::text::lemma_digits_value_nonneg(p@[2]@);
        }
    }
    let y = date_part_exec(&p, 0);
    let m = date_part_exec(&p, 1);
    let dd = date_part_exec(&p, 2);
    let (y, m, dd) = match (y, m, dd) {
        (Some(y), Some(m), Some(dd)) => {
            if y > i32::MAX as u64 || m > u32::MAX as u64 || dd > u32::MAX as u64 {
                return Err(Error::InvalidDate(string_of(&ws[1])));
            }
            (y as i32, m as u32, dd as u32)
        },
        _ => {
            return Err(Error::InvalidDate(string_of(&ws[1])));
        },
    };
    let time = match utc_midnight(y, m, dd) {
        Some(t) => t,
        None => {
            return Err(Error::InvalidDate(string_of(&ws[1])));
        },
    };
    let ghost d = data@;
    let ghost parts = d.browsers.map_values(|b: StatView| since_of(d, b, time as int, mobile_to_desktop));
    let mut out: Vec<Distrib> = Vec::new();
    let mut i: usize = 0;
    proof {
        assert(parts.subrange(0, 0) =~= Seq::<Seq<(Seq<char>, Seq<char>)>>::empty());
        assert(dviews(out@) =~= parts.subrange(0, 0).flatten());
        assert(time == midnight_utc(date_part(date, 0), date_part(date, 1), date_part(date, 2)));
    }
    while i < data.browsers.len()
        invariant
            d == data@,
            parts == d.browsers.map_values(|b: StatView| since_of(d, b, time as int, mobile_to_desktop)),
            i <= data.browsers@.len(),
            dviews(out@) == parts.subrange(0, i as int).flatten(),
        decreases data.browsers@.len() - i,
    {
        let b = &data.browsers[i];
        proof {
            assert(d.browsers[i as int] == b@);
        }
        match get_browser_stat(b.name.as_str(), mobile_to_desktop, data) {
            Some((n, st)) => {
                push_since(&mut out, &n, st, time);
            },
            None => {},
        }
        proof {
            assert(parts.subrange(0, i + 1) =~= parts.subrange(0, i as int).push(parts[i as int]));
            assert(dviews(out@) =~= parts.subrange(0, i + 1).flatten());
        }
        i = i + 1;
    }
    proof {
        assert(parts.subrange(0, parts.len() as int) =~= parts);
    }
    Ok(Some(out))
}

/// The text of a clause with the spaces taken out.
pub fn concat_words(ws: &Vec<Vec<char>>) -> (r: Vec<char>)
    ensures
        r@ == views(ws@).flatten(),
{
    let ghost wv = views(ws@);
    let mut r: Vec<char> = Vec::new();
    let mut i: usize = 0;
    proof {
        assert(wv.subrange(0, 0) =~= Seq::<Seq<char>>::empty());
    }
    while i < ws.len()
        invariant
            wv == views(ws@),
            i <= ws@.len(),
            r@ == wv.subrange(0, i as int).flatten(),
        decreases ws@.len() - i,
    {
        let w = &ws[i];
        let ghost base = r@;
        let mut j: usize = 0;
        while j < w.len()
            invariant
                j <= w@.len(),
                r@ == base + w@.subrange(0, j as int),
            decreases w@.len() - j,
        {
            r.push(w[j]);
            proof {
                assert(base + w@.subrange(0, j + 1) =~= (base + w@.subrange(0, j as int)).push(w@[j as int]));
            }
            j = j + 1;
        }
        proof {
            assert(w@.subrange(0, w@.len() as int) =~= w@);
            assert(wv[i as int] == w@);
            assert(wv.subrange(0, i + 1) =~= wv.subrange(0, i as int).push(wv[i as int]));
        }
        i = i + 1;
    }
    proof {
        assert(wv.subrange(0, wv.len() as int) =~= wv);
    }
    r
}

/// How many word characters a text starts with.
pub open spec fn word_prefix_len(t: Seq<char>) -> int
    decreases t.len(),
{
    if t.len() > 0 && is_word_char(t[0]) {
        1 + word_prefix_len(t.drop_first())
    } else {
        0
    }
}

fn word_prefix_len_exec(t: &Vec<char>) -> (r: usize)
    ensures
        r == word_prefix_len(t@),
        r <= t@.len(),
{
    let mut i: usize = 0;
    proof {
        assert(t@.skip(0) =~= t@);
    }
    while i < t.len()
        invariant
            i <= t@.len(),
            word_prefix_len(t@) == i + word_prefix_len(t@.skip(i as int)),
        decreases t@.len() - i,
    {
        let c = t[i];
        proof {
            assert(t@.skip(i as int)[0] == c);
            assert(t@.skip(i as int).drop_first() =~= t@.skip(i + 1));
        }
        if !(('0' <= c && c <= '9') || ('a' <= c && c <= 'z') || ('A' <= c && c <= 'Z') || c == '_') {
            return i;
        }
        i = i + 1;
    }
    proof {
        assert(t@.skip(i as int).len() == 0);
    }
    i
}

/// Digits and dots, at least one character.
pub open spec fn is_version_text(v: Seq<char>) -> bool {
    v.len() > 0 && forall|i: int| 0 <= i < v.len() ==> (is_digit(#[trigger] v[i]) || v[i] == '.')
}

fn is_version_text_exec(v: &Vec<char>) -> (r: bool)
    ensures
        r == is_version_text(v@),
{
    if v.len() == 0 {
        return false;
    }
    let mut i: usize = 0;
    while i < v.len()
        invariant
            i <= v@.len(),
            forall|k: int| 0 <= k < i ==> (is_digit(#[trigger] v@[k]) || v@[k] == '.'),
        decreases v@.len() - i,
    {
        let c = v[i];
        if !(('0' <= c && c <= '9') || c == '.') {
            return false;
        }
        i = i + 1;
    }
    true
}

/// The browser, sign and version of a clause `<browser> >= V` and its kin.
pub open spec fn range_shape(ws: Seq<Seq<char>>) -> Option<(Seq<char>, Seq<char>, Seq<char>)> {
    let t = ws.flatten();
    let k = word_prefix_len(t);
    let rest = t.skip(k);
    let s = sign_len(rest);
    if k > 0 && s > 0 && is_version_text(rest.skip(s)) {
        Some((t.take(k), rest.take(s), rest.skip(s)))
    } else {
        None
    }
}

/// A version read as a number, in millionths; `0` where it is none.
pub open spec fn number_or_zero(v: Seq<char>) -> int {
    match decimal_value(v) {
        Some(x) => if x <= u64::MAX {
            x
        } else {
            0
        },
        None => 0,
    }
}

fn number_or_zero_exec(v: &Vec<char>) -> (r: u64)
    ensures
        r == number_or_zero(v@),
{
    match parse_decimal(v) {
        Some(x) => x,
        None => 0,
    }
}

/// The version an alias stands for, or the version itself.
pub open spec fn alias_target(aliases: Seq<(Seq<char>, Seq<char>, Seq<char>)>, browser: Seq<char>, v: Seq<char>) -> Seq<char>
    decreases aliases.len(),
{
    if aliases.len() == 0 {
        v
    } else if aliases[0].0 == browser && aliases[0].1 == v {
        aliases[0].2
    } else {
        alias_target(aliases.drop_first(), browser, v)
    }
}

fn alias_target_exec(data: &Data, browser: &String, v: &String) -> (r: String)
    ensures
        r@ == alias_target(data@.version_aliases, browser@, v@),
{
    let ghost al = data@.version_aliases;
    let mut i: usize = 0;
    proof {
        assert(al.skip(0) =~= al);
    }
    while i < data.version_aliases.len()
        invariant
            al == data@.version_aliases,
            i <= al.len(),
            alias_target(al, browser@, v@) == alias_target(al.skip(i as int), browser@, v@),
        decreases al.len() - i,
    {
        let a = &data.version_aliases[i];
        proof {
            assert(al[i as int] == a@);
            assert(al.skip(i as int)[0] == a@);
            assert(al.skip(i as int).drop_first() =~= al.skip(i + 1));
        }
        if a.browser == *browser && a.alias == *v {
            return a.version.clone();
        }
        i = i + 1;
    }
    v.clone()
}

pub open spec fn select_range(ws: Seq<Seq<char>>, d: DataView, mobile_to_desktop: bool) -> Selected {
    match range_shape(ws) {
        None => Ok(None),
        Some((b, sign, v)) => match lookup(d, b, mobile_to_desktop) {
            None => Err(ErrorView::BrowserNotFound(b)),
            Some((n, st)) => {
                let x = number_or_zero(alias_target(d.version_aliases, st.name, v));
                Ok(Some(named(n, st.released.filter(|r: Seq<char>| passes(sign, number_or_zero(r), x)))))
            },
        },
    }
}

/// `<browser> >= V` and its kin: the released versions that compare so with
/// `V`, as numbers.
pub fn range_exec(ws: &Vec<Vec<char>>, mobile_to_desktop: bool, data: &Data) -> (r: Result<Option<Vec<Distrib>>, Error>)
    ensures
        selected(r) == select_range(views(ws@), data@, mobile_to_desktop),
{
    let t = concat_words(ws);
    let k = word_prefix_len_exec(&t);
    let rest = sub_chars(&t, k, t.len());
    let s: usize = if rest.len() >= 2 && (rest[0] == '>' || rest[0] == '<') && rest[1] == '=' {
        2
    } else if rest.len() >= 1 && (rest[0] == '>' || rest[0] == '<') {
        1
    } else {
        0
    };
    if k == 0 || s == 0 {
        return Ok(None);
    }
    let ver = sub_chars(&rest, s, rest.len());
    if !is_version_text_exec(&ver) {
        return Ok(None);
    }
    let bname = sub_chars(&t, 0, k);
    let sign = sub_chars(&rest, 0, s);
    proof {
        assert(rest@ =~= t@.skip(k as int));
        assert(ver@ =~= rest@.skip(s as int));
        assert(bname@ =~= t@.take(k as int));
        assert(sign@ =~= rest@.take(s as int));
    }
    let bs = string_of(&bname);
    let (n, st) = match get_browser_stat(bs.as_str(), mobile_to_desktop, data) {
        Some(found) => found,
        None => {
            return Err(Error::BrowserNotFound(bs));
        },
    };
    let target = alias_target_exec(data, &st.name, &string_of(&ver));
    let x = number_or_zero_exec(&crate::text::chars_of(target.as_str()));
    let ghost vs = st@.released;
    let ghost pred = |r: Seq<char>| passes(sign@, number_or_zero(r), x as int);
    let mut out: Vec<Distrib> = Vec::new();
    let mut i: usize = 0;
    while i < st.released.len()
        invariant
            vs == st@.released,
            pred == (|r: Seq<char>| passes(sign@, number_or_zero(r), x as int)),
            i <= vs.len(),
            dviews(out@) == named(n@, vs.subrange(0, i as int).filter(pred)),
        decreases vs.len() - i,
    {
        let v = &st.released[i];
        proof {
            assert(vs[i as int] == v@);
            let tt = vs.subrange(0, i + 1);
            assert(tt.drop_last() =~= vs.subrange(0, i as int));
            assert(tt.last() == v@);
            reveal(Seq::filter);
        }
        let y = number_or_zero_exec(&crate::text::chars_of(v.as_str()));
        if passes_exec(&sign, y, x) {
            let ghost before = out@;
            let e = Distrib::from_strings(n.clone(), v.clone());
            out.push(e);
            proof {
                assert(dviews(out@) =~= dviews(before).push(e@));
                assert(dviews(out@) =~= named(n@, vs.subrange(0, i + 1).filter(pred)));
            }
        } else {
            proof {
                assert(vs.subrange(0, i + 1).filter(pred) == vs.subrange(0, i as int).filter(pred));
            }
        }
        i = i + 1;
    }
    proof {
        assert(vs.subrange(0, vs.len() as int) =~= vs);
    }
    Ok(Some(out))
}

/// The browser and version of a clause `<browser> <version>`.
pub open spec fn accurate_shape(ws: Seq<Seq<char>>) -> Option<(Seq<char>, Seq<char>)> {
    if ws.len() == 2 && is_name(ws[0]) && (is_keyword(ws[1], "tp"@) || is_version_text(ws[1])) {
        Some((ws[0], ws[1]))
    } else {
        None
    }
}

pub open spec fn select_accurate(ws: Seq<Seq<char>>, d: DataView, mobile_to_desktop: bool) -> Selected {
    match accurate_shape(ws) {
        None => Ok(None),
        Some((b, v)) => match lookup(d, b, mobile_to_desktop) {
            None => Err(ErrorView::BrowserNotFound(b)),
            Some((n, st)) => {
                let t = alias_target(d.version_aliases, st.name, v);
                if st.versions.contains(t) {
                    Ok(Some(seq![(n, t)]))
                } else {
                    Err(ErrorView::UnknownQuery(join_words(ws)))
                }
            },
        },
    }
}

/// `<browser> <version>`: that one version, where the dataset knows it.
pub fn accurate_exec(ws: &Vec<Vec<char>>, mobile_to_desktop: bool, data: &Data) -> (r: Result<Option<Vec<Distrib>>, Error>)
    ensures
        selected(r) == select_accurate(views(ws@), data@, mobile_to_desktop),
{
    if !(ws.len() == 2 && is_name_exec(&ws[0]) && (is_keyword_exec(&ws[1], "tp") || is_version_text_exec(&ws[1]))) {
        return Ok(None);
    }
    proof {
        assert(views(ws@)[0] == ws@[0]@);
        assert(views(ws@)[1] == ws@[1]@);
    }
    let bs = string_of(&ws[0]);
    let (n, st) = match get_browser_stat(bs.as_str(), mobile_to_desktop, data) {
        Some(found) => found,
        None => {
            return Err(Error::BrowserNotFound(bs));
        },
    };
    let t = alias_target_exec(data, &st.name, &string_of(&ws[1]));
    let ghost vs = st@.versions;
    let mut i: usize = 0;
    while i < st.versions.len()
        invariant
            vs == st@.versions,
            accurate_shape(views(ws@)) == Some((ws@[0]@, ws@[1]@)),
            lookup(data@, ws@[0]@, mobile_to_desktop) == Some((n@, st@)),
            t@ == alias_target(data@.version_aliases, st@.name, ws@[1]@),
            i <= vs.len(),
            forall|k: int| 0 <= k < i ==> vs[k] != t@,
        decreases vs.len() - i,
    {
        if st.versions[i] == t {
            proof {
                assert(vs[i as int] == t@);
            }
            let one = vec![Distrib::from_strings(n, t)];
            proof {
                assert(dviews(one@) =~= seq![(n@, t@)]);
            }
            return Ok(Some(one));
        }
        proof {
            assert(vs[i as int] == st.versions@[i as int]@);
        }
        i = i + 1;
    }
    proof {
        assert(!vs.contains(t@));
    }
    Err(Error::UnknownQuery(join_words_exec(ws)))
}

/// Whether a word names Firefox.
pub open spec fn is_firefox(w: Seq<char>) -> bool {
    is_keyword(w, "firefox"@) || is_keyword(w, "fx"@) || is_keyword(w, "ff"@)
}

pub open spec fn select_firefox_esr(ws: Seq<Seq<char>>, d: DataView) -> Selected {
    if ws.len() == 2 && is_firefox(ws[0]) && is_keyword(ws[1], "esr"@) {
        Ok(Some(named("firefox"@, d.firefox_esr)))
    } else {
        Ok(None)
    }
}

/// `Firefox ESR`: the Firefox versions with extended support.
pub fn firefox_esr_exec(ws: &Vec<Vec<char>>, data: &Data) -> (r: Result<Option<Vec<Distrib>>, Error>)
    ensures
        selected(r) == select_firefox_esr(views(ws@), data@),
{
    if !(ws.len() == 2 && (is_keyword_exec(&ws[0], "firefox") || is_keyword_exec(&ws[0], "fx") || is_keyword_exec(
        &ws[0],
        "ff",
    )) && is_keyword_exec(&ws[1], "esr")) {
        return Ok(None);
    }
    let ghost es = data@.firefox_esr;
    let mut out: Vec<Distrib> = Vec::new();
    let mut i: usize = 0;
    while i < data.firefox_esr.len()
        invariant
            es == data@.firefox_esr,
            ws@.len() == 2,
            i <= es.len(),
            dviews(out@) == named("firefox"@, es.subrange(0, i as int)),
        decreases es.len() - i,
    {
        let ghost before = out@;
        let e = Distrib::from_strings("firefox".to_owned(), data.firefox_esr[i].clone());
        out.push(e);
        proof {
            assert(es[i as int] == data.firefox_esr@[i as int]@);
            assert(dviews(out@) =~= dviews(before).push(e@));
            assert(dviews(out@) =~= named("firefox"@, es.subrange(0, i + 1)));
        }
        i = i + 1;
    }
    proof {
        assert(es.subrange(0, es.len() as int) =~= es);
    }
    Ok(Some(out))
}

/// The Chromium versions of the Electron releases, oldest first.
pub open spec fn electron_chromes(d: DataView) -> Seq<Seq<char>> {
    d.electron.map_values(|e: (Seq<char>, Seq<char>)| e.1)
}

pub open spec fn select_last_electron(ws: Seq<Seq<char>>, d: DataView) -> Selected {
    if ws.len() == 4 && is_keyword(ws[0], "last"@) && ws[1].len() > 0 && all_digits(ws[1]) && is_keyword(
        ws[2],
        "electron"@,
    ) && (is_keyword(ws[3], "versions"@) || is_keyword(ws[3], "version"@)) {
        if digits_value(ws[1]) > usize::MAX {
            Err(ErrorView::ParseVersionsCount(ws[1]))
        } else {
            Ok(Some(named("chrome"@, newest(electron_chromes(d), digits_value(ws[1])))))
        }
    } else {
        Ok(None)
    }
}

/// `last N electron versions`: the Chromium versions of the newest `N`
/// Electron releases.
pub fn last_electron_exec(ws: &Vec<Vec<char>>, data: &Data) -> (r: Result<Option<Vec<Distrib>>, Error>)
    ensures
        selected(r) == select_last_electron(views(ws@), data@),
{
    if !(ws.len() == 4 && is_keyword_exec(&ws[0], "last") && ws[1].len() > 0 && all_digits_exec(&ws[1])
        && is_keyword_exec(&ws[2], "electron") && (is_keyword_exec(&ws[3], "versions") || is_keyword_exec(
        &ws[3],
        "version",
    ))) {
        return Ok(None);
    }
    proof {
        assert(views(ws@)[1] == ws@[1]@);
        crate::text::lemma_digits_value_nonneg(ws@[1]@);
    }
    let count: usize = match parse_digits(&ws[1]) {
        Some(v) => {
            if v <= usize::MAX as u64 {
                v as usize
            } else {
                return Err(Error::ParseVersionsCount(string_of(&ws[1])));
            }
        },
        None => {
            return Err(Error::ParseVersionsCount(string_of(&ws[1])));
        },
    };
    let ghost cs = electron_chromes(data@);
    let ghost want = named("chrome"@, newest(cs, count as int));
    let len = data.electron.len();
    let m = if count < len { count } else { len };
    let mut out: Vec<Distrib> = Vec::new();
    let mut i: usize = 0;
    while i < m
        invariant
            len == data.electron@.len(),
            cs == electron_chromes(data@),
            m <= len,
            want == named("chrome"@, newest(cs, count as int)),
            want.len() == m,
            i <= m,
            dviews(out@) == want.subrange(0, i as int),
        decreases m - i,
    {
        let ghost before = out@;
        let e = Distrib::from_strings("chrome".to_owned(), data.electron[len - 1 - i].chrome.clone());
        out.push(e);
        proof {
            assert(cs[len - 1 - i] == data.electron@[len - 1 - i].chrome@);
            assert(dviews(out@) =~= dviews(before).push(e@));
            assert(want[i as int] == e@);
            assert(want.subrange(0, i + 1) =~= want.subrange(0, i as int).push(want[i as int]));
        }
        i = i + 1;
    }
    proof {
        assert(want.subrange(0, m as int) =~= want);
    }
    Ok(Some(out))
}

/// The value, in millionths, of an Electron version written `A.B` or
/// `A.B.C`: the patch number does not count.
pub open spec fn electron_value(p: Seq<char>) -> Option<int> {
    let segs = split_by(p, |c: char| c == '.');
    if (segs.len() == 2 || segs.len() == 3) && (forall|i: int|
        0 <= i < segs.len() ==> (#[trigger] segs[i]).len() > 0 && all_digits(segs[i])) {
        Some(digits_value(segs[0]) * 1000000 + digits_value(pad_fraction(segs[1])))
    } else {
        None
    }
}

/// The two ends of a clause `electron A-B`; spaces may stand anywhere after
/// the keyword.
pub open spec fn electron_range_shape(ws: Seq<Seq<char>>) -> Option<(int, int)> {
    if ws.len() >= 2 && is_keyword(ws[0], "electron"@) {
        let parts = split_by(ws.drop_first().flatten(), |c: char| c == '-');
        if parts.len() == 2 && electron_value(parts[0]) is Some && electron_value(parts[1]) is Some {
            Some((electron_value(parts[0]).unwrap(), electron_value(parts[1]).unwrap()))
        } else {
            None
        }
    } else {
        None
    }
}

pub open spec fn in_electron_range(e: (Seq<char>, Seq<char>), from: int, to: int) -> bool {
    from <= number_or_zero(e.0) <= to
}

pub open spec fn select_electron_range(ws: Seq<Seq<char>>, d: DataView) -> Selected {
    match electron_range_shape(ws) {
        None => Ok(None),
        Some((from, to)) => Ok(
            Some(
                named(
                    "chrome"@,
                    d.electron.filter(|e: (Seq<char>, Seq<char>)| in_electron_range(e, from, to)).map_values(
                        |e: (Seq<char>, Seq<char>)| e.1,
                    ),
                ),
            ),
        ),
    }
}

/// The value of an Electron version; `Some(None)` where it does not fit.
fn electron_value_exec(p: &Vec<char>) -> (r: Option<Option<u64>>)
    ensures
        match r {
            None => electron_value(p@).is_none(),
            Some(None) => electron_value(p@) matches Some(v) && v > u64::MAX,
            Some(Some(x)) => electron_value(p@) == Some(x as int),
        },
{
    let segs = split_chars(p, '.');
    if !(segs.len() == 2 || segs.len() == 3) {
        return None;
    }
    let mut k: usize = 0;
    while k < segs.len()
        invariant
            k <= segs@.len(),
            segs@.len() == 2 || segs@.len() == 3,
            views(segs@) == split_by(p@, |c: char| c == '.'),
            forall|j: int| 0 <= j < k ==> (#[trigger] segs@[j]@).len() > 0 && all_digits(segs@[j]@),
        decreases segs@.len() - k,
    {
        if !(segs[k].len() > 0 && all_digits_exec(&segs[k])) {
            proof {
                assert(views(segs@)[k as int] == segs@[k as int]@);
            }
            return None;
        }
        k = k + 1;
    }
    proof {
        let sv = views(segs@);
        assert forall|i: int| 0 <= i < sv.len() implies (#[trigger] sv[i]).len() > 0 && all_digits(sv[i]) by {
            assert(sv[i] == segs@[i]@);
        }
        assert(sv[0] == segs@[0]@);
        assert(sv[1] == segs@[1]@);
        crate::text::lemma_digits_value_nonneg(segs@[0]@);
    }
    let frac = fraction_millionths(&segs[1]);
    match parse_digits(&segs[0]) {
        Some(whole) => {
            if whole > (u64::MAX - frac) / 1000000 {
                Some(None)
            } else {
                Some(Some(whole * 1000000 + frac))
            }
        },
        None => Some(None),
    }
}

/// `electron A-B`: the Chromium versions of the Electron releases from `A`
/// to `B`, both included.
pub fn electron_range_exec(ws: &Vec<Vec<char>>, data: &Data) -> (r: Result<Option<Vec<Distrib>>, Error>)
    ensures
        selected(r) == select_electron_range(views(ws@), data@),
{
    if !(ws.len() >= 2 && is_keyword_exec(&ws[0], "electron")) {
        return Ok(None);
    }
    proof {
        assert(views(ws@)[0] == ws@[0]@);
    }
    let rest = concat_words(&crate::resolver::drop_first_word(ws));
    let parts = split_chars(&rest, '-');
    if parts.len() != 2 {
        return Ok(None);
    }
    proof {
        assert(views(parts@)[0] == parts@[0]@);
        assert(views(parts@)[1] == parts@[1]@);
    }
    let from = match electron_value_exec(&parts[0]) {
        Some(v) => v,
        None => {
            return Ok(None);
        },
    };
    let to = match electron_value_exec(&parts[1]) {
        Some(v) => v,
        None => {
            return Ok(None);
        },
    };
    let ghost lo = electron_value(parts@[0]@).unwrap();
    let ghost hi = electron_value(parts@[1]@).unwrap();
    let ghost es = data@.electron;
    let ghost pred = |e: (Seq<char>, Seq<char>)| in_electron_range(e, lo, hi);
    let mut out: Vec<Distrib> = Vec::new();
    let mut i: usize = 0;
    while i < data.electron.len()
        invariant
            es == data@.electron,
            pred == (|e: (Seq<char>, Seq<char>)| in_electron_range(e, lo, hi)),
            match from {
                Some(x) => lo == x as int,
                None => lo > u64::MAX,
            },
            match to {
                Some(x) => hi == x as int,
                None => hi > u64::MAX,
            },
            i <= es.len(),
            dviews(out@) == named(
                "chrome"@,
                es.subrange(0, i as int).filter(pred).map_values(|e: (Seq<char>, Seq<char>)| e.1),
            ),
        decreases es.len() - i,
    {
        let e = &data.electron[i];
        proof {
            assert(es[i as int] == e@);
            let t = es.subrange(0, i + 1);
            assert(t.drop_last() =~= es.subrange(0, i as int));
            assert(t.last() == e@);
            reveal(Seq::filter);
        }
        let v = number_or_zero_exec(&crate::text::chars_of(e.electron.as_str()));
        let above = match from {
            Some(x) => x <= v,
            None => false,
        };
        let below = match to {
            Some(x) => v <= x,
            None => true,
        };
        if above && below {
            let ghost before = out@;
            let d = Distrib::from_strings("chrome".to_owned(), e.chrome.clone());
            out.push(d);
            proof {
                assert(dviews(out@) =~= dviews(before).push(d@));
                assert(dviews(out@) =~= named(
                    "chrome"@,
                    es.subrange(0, i + 1).filter(pred).map_values(|e: (Seq<char>, Seq<char>)| e.1),
                ));
            }
        } else {
            proof {
                assert(es.subrange(0, i + 1).filter(pred) == es.subrange(0, i as int).filter(pred));
            }
        }
        i = i + 1;
    }
    proof {
        assert(es.subrange(0, es.len() as int) =~= es);
    }
    Ok(Some(out))
}

} // verus!
