use vstd::prelude::*;
use crate::data::{lookup, get_browser_stat, strs, BrowserStat, Data, DataView, StatView};
use crate::error::{Distrib, Error, ErrorView};
use crate::text::{
    all_digits, all_digits_exec, is_name, is_name_exec, digits_value, is_keyword, is_keyword_exec, parse_digits, split_chars, string_of,
    views,
};
use crate::version::{seg_num, seg_num_exec, segments};
use itertools::Itertools;

verus! {

broadcast use Seq::lemma_flatten_push;

pub open spec fn dviews(v: Seq<Distrib>) -> Seq<(Seq<char>, Seq<char>)> {
    v.map_values(|d: Distrib| d@)
}

/// What a selector makes of a clause: `Ok(None)` where the clause is not its
/// shape.
pub type Selected = Result<Option<Seq<(Seq<char>, Seq<char>)>>, ErrorView>;

/// Pairs each version with a browser name.
pub open spec fn named(n: Seq<char>, vs: Seq<Seq<char>>) -> Seq<(Seq<char>, Seq<char>)> {
    vs.map_values(|v: Seq<char>| (n, v))
}

/// The `k` newest entries of a chronological list, newest first.
pub open spec fn newest(r: Seq<Seq<char>>, k: int) -> Seq<Seq<char>> {
    let m = if k < r.len() { k } else { r.len() as int };
    Seq::new(m as nat, |i: int| r[r.len() - 1 - i])
}

/// The major number of the newest released Android version.
pub open spec fn android_last_major(d: DataView, mobile_to_desktop: bool) -> int {
    match lookup(d, "android"@, mobile_to_desktop) {
        Some((_, st)) => if st.released.len() > 0 {
            seg_num(segments(st.released.last())[0])
        } else {
            0
        },
        None => 0,
    }
}

/// How many Android versions a "last N" count stands for: Android's
/// evergreen releases are one bucket in the dataset, so the count shrinks to
/// one unless the newest version is close to the evergreen cutoff.
pub open spec fn android_count(d: DataView, count: int, mobile_to_desktop: bool) -> int {
    let diff = android_last_major(d, mobile_to_desktop) - 37 - count;
    if diff > 0 {
        1
    } else if 1 - diff <= usize::MAX {
        1 - diff
    } else {
        usize::MAX as int
    }
}

/// Whether a count aimed at `name` gets the Android adjustment.
pub fn should_filter_android(name: &str, mobile_to_desktop: bool) -> (r: bool)
    ensures
        r == (name@ == "android"@ && !mobile_to_desktop),
{
    crate::text::str_eq(name, "android") && !mobile_to_desktop
}

/// The count that a "last N" clause takes of Android.
pub fn count_android_filter(count: usize, mobile_to_desktop: bool, data: &Data) -> (r: usize)
    ensures
        r == android_count(data@, count as int, mobile_to_desktop),
{
    let last: i64 = match get_browser_stat("android", mobile_to_desktop, data) {
        Some((_, st)) => {
            if st.released.len() > 0 {
                let cs = crate::text::chars_of(st.released[st.released.len() - 1].as_str());
                let p = split_chars(&cs, '.');
                proof {
                    crate::text::lemma_split_by_nonempty(cs@, |c: char| c == '.');
                }
                seg_num_exec(&p[0])
            } else {
                0
            }
        },
        None => 0,
    };
    let bound: i128 = 37i128 + count as i128;
    if last as i128 > bound {
        1
    } else {
        let v: i128 = bound + 1 - last as i128;
        if v > usize::MAX as i128 {
            usize::MAX
        } else {
            v as usize
        }
    }
}

/// The count a "last N" clause takes of browser `n`.
pub open spec fn effective_count(d: DataView, n: Seq<char>, count: int, mobile_to_desktop: bool) -> int {
    if n == "android"@ && !mobile_to_desktop {
        android_count(d, count, mobile_to_desktop)
    } else {
        count
    }
}

fn effective_count_exec(n: &String, count: usize, mobile_to_desktop: bool, data: &Data) -> (r: usize)
    ensures
        r == effective_count(data@, n@, count as int, mobile_to_desktop),
{
    if should_filter_android(n.as_str(), mobile_to_desktop) {
        count_android_filter(count, mobile_to_desktop, data)
    } else {
        count
    }
}

/// Appends the `k` newest released versions of `st`, newest first.
fn push_newest(out: &mut Vec<Distrib>, n: &String, st: &BrowserStat, k: usize)
    ensures
        dviews(final(out)@) == dviews(old(out)@) + named(n@, newest(strs(st.released@), k as int)),
{
    let ghost r = strs(st.released@);
    let ghost want = named(n@, newest(r, k as int));
    let ghost base = dviews(out@);
    let len = st.released.len();
    let m = if k < len { k } else { len };
    let mut i: usize = 0;
    while i < m
        invariant
            m <= len,
            len == st.released@.len(),
            r == strs(st.released@),
            want == named(n@, newest(r, k as int)),
            want.len() == m,
            i <= m,
            dviews(out@) == base + want.subrange(0, i as int),
        decreases m - i,
    {
        let ghost before = out@;
        let d = Distrib::from_strings(n.clone(), st.released[len - 1 - i].clone());
        out.push(d);
        proof {
            assert(dviews(out@) =~= dviews(before).push(d@));
            assert(want[i as int] == d@);
            assert(want.subrange(0, i + 1) =~= want.subrange(0, i as int).push(want[i as int]));
        }
        i = i + 1;
    }
    proof {
        assert(want.subrange(0, m as int) =~= want);
    }
}

/// "last N versions" of one browser of the dataset.
pub open spec fn last_n_of(d: DataView, b: StatView, count: int, mobile_to_desktop: bool) -> Seq<(Seq<char>, Seq<char>)> {
    match lookup(d, b.name, mobile_to_desktop) {
        Some((n, st)) => named(n, newest(st.released, effective_count(d, n, count, mobile_to_desktop))),
        None => Seq::empty(),
    }
}

/// "last N versions": the newest `count` released versions of every browser.
pub open spec fn last_n_versions(d: DataView, count: int, mobile_to_desktop: bool) -> Seq<(Seq<char>, Seq<char>)> {
    d.browsers.map_values(|b: StatView| last_n_of(d, b, count, mobile_to_desktop)).flatten()
}

/// The count of a clause `last N versions`.
pub open spec fn last_n_versions_shape(ws: Seq<Seq<char>>) -> Option<Seq<char>> {
    if ws.len() == 3 && is_keyword(ws[0], "last"@) && ws[1].len() > 0 && all_digits(ws[1]) && (is_keyword(
        ws[2],
        "versions"@,
    ) || is_keyword(ws[2], "version"@)) {
        Some(ws[1])
    } else {
        None
    }
}

pub open spec fn select_last_n_versions(ws: Seq<Seq<char>>, d: DataView, mobile_to_desktop: bool) -> Selected {
    match last_n_versions_shape(ws) {
        None => Ok(None),
        Some(c) => if digits_value(c) > usize::MAX {
            Err(ErrorView::ParseVersionsCount(c))
        } else {
            Ok(Some(last_n_versions(d, digits_value(c), mobile_to_desktop)))
        },
    }
}

/// Reads a count of versions.
fn parse_count(c: &Vec<char>) -> (r: Result<usize, Error>)
    requires
        all_digits(c@),
    ensures
        match r {
            Ok(n) => digits_value(c@) <= usize::MAX && n == digits_value(c@),
            Err(e) => digits_value(c@) > usize::MAX && e@ == ErrorView::ParseVersionsCount(c@),
        },
{
    proof {
        crate::text::lemma_digits_value_nonneg(c@);
    }
    match parse_digits(c) {
        Some(v) => {
            if v <= usize::MAX as u64 {
                Ok(v as usize)
            } else {
                Err(Error::ParseVersionsCount(string_of(c)))
            }
        },
        None => Err(Error::ParseVersionsCount(string_of(c))),
    }
}

pub fn last_n_versions_exec(ws: &Vec<Vec<char>>, mobile_to_desktop: bool, data: &Data) -> (r: Result<Option<Vec<Distrib>>, Error>)
    ensures
        selected(r) == select_last_n_versions(views(ws@), data@, mobile_to_desktop),
{
    if !(ws.len() == 3 && is_keyword_exec(&ws[0], "last") && ws[1].len() > 0 && all_digits_exec(&ws[1]) && (
    is_keyword_exec(&ws[2], "versions") || is_keyword_exec(&ws[2], "version"))) {
        return Ok(None);
    }
    let count = match parse_count(&ws[1]) {
        Ok(n) => n,
        Err(e) => {
            return Err(e);
        },
    };
    let ghost d = data@;
    let ghost parts = d.browsers.map_values(|b: StatView| last_n_of(d, b, count as int, mobile_to_desktop));
    let mut out: Vec<Distrib> = Vec::new();
    let mut i: usize = 0;
    proof {
        assert(parts.subrange(0, 0) =~= Seq::<Seq<(Seq<char>, Seq<char>)>>::empty());
        assert(dviews(out@) =~= parts.subrange(0, 0).flatten());
    }
    while i < data.browsers.len()
        invariant
            d == data@,
            parts == d.browsers.map_values(|b: StatView| last_n_of(d, b, count as int, mobile_to_desktop)),
            i <= data.browsers@.len(),
            dviews(out@) == parts.subrange(0, i as int).flatten(),
        decreases data.browsers@.len() - i,
    {
        let b = &data.browsers[i];
        proof {
            assert(d.browsers[i as int] == b@);
        }
        match get_browser_stat(b.name.as_str(), mobile_to_desktop, data) {
            Some((n, st)) => {
                let k = effective_count_exec(&n, count, mobile_to_desktop, data);
                push_newest(&mut out, &n, st, k);
            },
            None => {},
        }
        proof {
            assert(parts.subrange(0, i + 1) =~= parts.subrange(0, i as int).push(parts[i as int]));
            assert(dviews(out@) =~= parts.subrange(0, i + 1).flatten());
        }
        i = i + 1;
    }
    proof {
        assert(parts.subrange(0, parts.len() as int) =~= parts);
    }
    Ok(Some(out))
}

pub open spec fn selected(r: Result<Option<Vec<Distrib>>, Error>) -> Selected {
    match r {
        Ok(Some(v)) => Ok(Some(dviews(v@))),
        Ok(None) => Ok(None),
        Err(e) => Err(e@),
    }
}

/// Collapses each run of equal neighbours to one item.
pub open spec fn dedup_consecutive<A>(s: Seq<A>) -> Seq<A>
    decreases s.len(),
{
    if s.len() <= 1 {
        s
    } else {
        let r = dedup_consecutive(s.drop_last());
        if s.last() == s[s.len() - 2] {
            r
        } else {
            r.push(s.last())
        }
    }
}

/// Relies on itertools' `Itertools::dedup`: each run of equal neighbours
/// becomes its first item.
#[verifier::external_body]
fn dedup_strings(v: Vec<String>) -> (r: Vec<String>)
    ensures
        strs(r@) == dedup_consecutive(strs(v@)),
{
    v.into_iter().dedup().collect()
}

/// The major component of a version: what stands before the first dot.
pub open spec fn major_of(v: Seq<char>) -> Seq<char> {
    segments(v)[0]
}

/// The smallest major number among the `k` newest distinct majors; `0` where
/// there are fewer.
pub open spec fn major_floor(st: StatView, k: int) -> int {
    let ms = dedup_consecutive(newest(st.released, st.released.len() as int).map_values(|v: Seq<char>| major_of(v)));
    if 1 <= k <= ms.len() {
        seg_num(ms[k - 1])
    } else {
        0
    }
}

/// Released versions whose major number reaches `floor`, newest first.
pub open spec fn majors_from(st: StatView, floor: int) -> Seq<Seq<char>> {
    newest(st.released, st.released.len() as int).filter(|v: Seq<char>| seg_num(major_of(v)) >= floor)
}

/// The browser name of a clause `last N <browser> major versions`, with its count.
pub open spec fn last_n_major_shape(ws: Seq<Seq<char>>) -> Option<(Seq<char>, Seq<char>)> {
    if ws.len() == 5 && is_keyword(ws[0], "last"@) && ws[1].len() > 0 && all_digits(ws[1]) && is_name(ws[2])
        && is_keyword(ws[3], "major"@) && (is_keyword(ws[4], "versions"@) || is_keyword(ws[4], "version"@)) {
        Some((ws[1], ws[2]))
    } else {
        None
    }
}

pub open spec fn select_last_n_major(ws: Seq<Seq<char>>, d: DataView, mobile_to_desktop: bool) -> Selected {
    match last_n_major_shape(ws) {
        None => Ok(None),
        Some((c, b)) => if digits_value(c) > usize::MAX {
            Err(ErrorView::ParseVersionsCount(c))
        } else {
            match lookup(d, b, mobile_to_desktop) {
                None => Err(ErrorView::BrowserNotFound(b)),
                Some((n, st)) => {
                    let k = effective_count(d, n, digits_value(c), mobile_to_desktop);
                    if k == 0 {
                        Ok(Some(Seq::empty()))
                    } else {
                        Ok(Some(named(n, majors_from(st, major_floor(st, k)))))
                    }
                },
            }
        },
    }
}

fn major_exec(v: &String) -> (r: String)
    ensures
        r@ == major_of(v@),
{
    let cs = crate::text::chars_of(v.as_str());
    let p = split_chars(&cs, '.');
    proof {
        crate::text::lemma_split_by_nonempty(cs@, |c: char| c == '.');
    }
    string_of(&p[0])
}

pub fn last_n_major_exec(ws: &Vec<Vec<char>>, mobile_to_desktop: bool, data: &Data) -> (r: Result<Option<Vec<Distrib>>, Error>)
    ensures
        selected(r) == select_last_n_major(views(ws@), data@, mobile_to_desktop),
{
    if !(ws.len() == 5 && is_keyword_exec(&ws[0], "last") && ws[1].len() > 0 && all_digits_exec(&ws[1])
        && is_name_exec(&ws[2]) && is_keyword_exec(&ws[3], "major") && (is_keyword_exec(&ws[4], "versions")
        || is_keyword_exec(&ws[4], "version"))) {
        return Ok(None);
    }
    let count = match parse_count(&ws[1]) {
        Ok(n) => n,
        Err(e) => {
            return Err(e);
        },
    };
    let bname = string_of(&ws[2]);
    let (n, st) = match get_browser_stat(bname.as_str(), mobile_to_desktop, data) {
        Some(found) => found,
        None => {
            return Err(Error::BrowserNotFound(bname));
        },
    };
    let k = effective_count_exec(&n, count, mobile_to_desktop, data);
    if k == 0 {
        let none: Vec<Distrib> = Vec::new();
        proof {
            assert(dviews(none@) =~= Seq::<(Seq<char>, Seq<char>)>::empty());
        }
        return Ok(Some(none));
    }
    let ghost r = strs(st.released@);
    let ghost all = newest(r, r.len() as int);
    let len = st.released.len();
    let mut majors: Vec<String> = Vec::new();
    let mut i: usize = 0;
    while i < len
        invariant
            len == st.released@.len(),
            r == strs(st.released@),
            all == newest(r, r.len() as int),
            i <= len,
            strs(majors@) == all.subrange(0, i as int).map_values(|v: Seq<char>| major_of(v)),
        decreases len - i,
    {
        let ghost before = majors@;
        let m = major_exec(&st.released[len - 1 - i]);
        majors.push(m);
        proof {
            assert(strs(majors@) =~= strs(before).push(m@));
            assert(all[i as int] == r[len - 1 - i]);
            assert(all.subrange(0, i + 1).map_values(|v: Seq<char>| major_of(v)) =~= all.subrange(0, i as int).map_values(
                |v: Seq<char>| major_of(v),
            ).push(major_of(all[i as int])));
        }
        i = i + 1;
    }
    proof {
        assert(all.subrange(0, len as int) =~= all);
    }
    let distinct = dedup_strings(majors);
    let floor: i64 = if k <= distinct.len() {
        let cs = crate::text::chars_of(distinct[k - 1].as_str());
        seg_num_exec(&cs)
    } else {
        0
    };
    let ghost want = majors_from(st@, floor as int);
    let mut out: Vec<Distrib> = Vec::new();
    let mut j: usize = 0;
    while j < len
        invariant
            len == st.released@.len(),
            r == strs(st.released@),
            all == newest(r, r.len() as int),
            j <= len,
            dviews(out@) == named(n@, all.subrange(0, j as int).filter(|v: Seq<char>| seg_num(major_of(v)) >= floor)),
        decreases len - j,
    {
        let v = &st.released[len - 1 - j];
        let m = major_exec(v);
        let mc = crate::text::chars_of(m.as_str());
        let num = seg_num_exec(&mc);
        proof {
            assert(all[j as int] == v@);
            let t = all.subrange(0, j + 1);
            assert(t.drop_last() =~= all.subrange(0, j as int));
            assert(t.last() == v@);
            reveal(Seq::filter);
        }
        if num >= floor {
            let ghost before = out@;
            let d = Distrib::from_strings(n.clone(), v.clone());
            out.push(d);
            proof {
                assert(dviews(out@) =~= dviews(before).push(d@));
                assert(dviews(out@) =~= named(n@, all.subrange(0, j + 1).filter(|v: Seq<char>| seg_num(major_of(v)) >= floor)));
            }
        } else {
            proof {
                assert(all.subrange(0, j + 1).filter(|v: Seq<char>| seg_num(major_of(v)) >= floor) == all.subrange(0, j as int).filter(
                    |v: Seq<char>| seg_num(major_of(v)) >= floor,
                ));
            }
        }
        j = j + 1;
    }
    proof {
        assert(all.subrange(0, len as int) =~= all);
    }
    Ok(Some(out))
}

/// The count and browser of a clause `last N <browser> versions`.
pub open spec fn last_n_browser_shape(ws: Seq<Seq<char>>) -> Option<(Seq<char>, Seq<char>)> {
    if ws.len() == 4 && is_keyword(ws[0], "last"@) && ws[1].len() > 0 && all_digits(ws[1]) && is_name(ws[2]) && (
    is_keyword(ws[3], "versions"@) || is_keyword(ws[3], "version"@)) {
        Some((ws[1], ws[2]))
    } else {
        None
    }
}

pub open spec fn select_last_n_browser(ws: Seq<Seq<char>>, d: DataView, mobile_to_desktop: bool) -> Selected {
    match last_n_browser_shape(ws) {
        None => Ok(None),
        Some((c, b)) => if digits_value(c) > usize::MAX {
            Err(ErrorView::ParseVersionsCount(c))
        } else {
            match lookup(d, b, mobile_to_desktop) {
                None => Err(ErrorView::BrowserNotFound(b)),
                Some((n, st)) => Ok(
                    Some(named(n, newest(st.released, effective_count(d, n, digits_value(c), mobile_to_desktop)))),
                ),
            }
        },
    }
}

/// `last N <browser> versions`: the newest `N` released versions of one
/// browser.
pub fn last_n_browser_exec(ws: &Vec<Vec<char>>, mobile_to_desktop: bool, data: &Data) -> (r: Result<Option<Vec<Distrib>>, Error>)
    ensures
        selected(r) == select_last_n_browser(views(ws@), data@, mobile_to_desktop),
{
    if !(ws.len() == 4 && is_keyword_exec(&ws[0], "last") && ws[1].len() > 0 && all_digits_exec(&ws[1])
        && is_name_exec(&ws[2]) && (is_keyword_exec(&ws[3], "versions") || is_keyword_exec(&ws[3], "version"))) {
        return Ok(None);
    }
    let count = match parse_count(&ws[1]) {
        Ok(n) => n,
        Err(e) => {
            return Err(e);
        },
    };
    let bname = string_of(&ws[2]);
    let (n, st) = match get_browser_stat(bname.as_str(), mobile_to_desktop, data) {
        Some(found) => found,
        None => {
            return Err(Error::BrowserNotFound(bname));
        },
    };
    let k = effective_count_exec(&n, count, mobile_to_desktop, data);
    let mut out: Vec<Distrib> = Vec::new();
    push_newest(&mut out, &n, st, k);
    proof {
        assert(dviews(out@) =~= named(n@, newest(strs(st.released@), k as int)));
    }
    Ok(Some(out))
}

/// The known versions of a stat that are not released, oldest first.
pub open spec fn unreleased_of(st: StatView) -> Seq<Seq<char>> {
    st.versions.filter(|v: Seq<char>| !st.released.contains(v))
}

pub open spec fn unreleased_row(d: DataView, b: StatView, mobile_to_desktop: bool) -> Seq<(Seq<char>, Seq<char>)> {
    match lookup(d, b.name, mobile_to_desktop) {
        Some((n, st)) => named(n, unreleased_of(st)),
        None => Seq::empty(),
    }
}

/// Whether a clause is `unreleased versions`, or `unreleased <browser>
/// versions` (with the browser's name).
pub open spec fn unreleased_shape(ws: Seq<Seq<char>>) -> Option<Option<Seq<char>>> {
    if ws.len() == 2 && is_keyword(ws[0], "unreleased"@) && (is_keyword(ws[1], "versions"@) || is_keyword(
        ws[1],
        "version"@,
    )) {
        Some(None)
    } else if ws.len() == 3 && is_keyword(ws[0], "unreleased"@) && is_name(ws[1]) && (is_keyword(ws[2], "versions"@)
        || is_keyword(ws[2], "version"@)) {
        Some(Some(ws[1]))
    } else {
        None
    }
}

pub open spec fn select_unreleased(ws: Seq<Seq<char>>, d: DataView, mobile_to_desktop: bool) -> Selected {
    match unreleased_shape(ws) {
        None => Ok(None),
        Some(None) => Ok(
            Some(d.browsers.map_values(|b: StatView| unreleased_row(d, b, mobile_to_desktop)).flatten()),
        ),
        Some(Some(b)) => match lookup(d, b, mobile_to_desktop) {
            None => Err(ErrorView::BrowserNotFound(b)),
            Some((n, st)) => Ok(Some(named(n, unreleased_of(st)))),
        },
    }
}

fn released_contains(st: &BrowserStat, v: &String) -> (r: bool)
    ensures
        r == st@.released.contains(v@),
{
    let ghost rs = st@.released;
    let mut i: usize = 0;
    while i < st.released.len()
        invariant
            rs == st@.released,
            i <= rs.len(),
            forall|k: int| 0 <= k < i ==> rs[k] != v@,
        decreases rs.len() - i,
    {
        if st.released[i] == *v {
            proof {
                assert(rs[i as int] == v@);
            }
            return true;
        }
        proof {
            assert(rs[i as int] == st.released@[i as int]@);
        }
        i = i + 1;
    }
    false
}

fn push_unreleased(out: &mut Vec<Distrib>, n: &String, st: &BrowserStat)
    ensures
        dviews(final(out)@) == dviews(old(out)@) + named(n@, unreleased_of(st@)),
{
    let ghost vs = st@.versions;
    let ghost p = |v: Seq<char>| !st@.released.contains(v);
    let ghost base = dviews(out@);
    let mut i: usize = 0;
    while i < st.versions.len()
        invariant
            vs == st@.versions,
            p == (|v: Seq<char>| !st@.released.contains(v)),
            i <= vs.len(),
            dviews(out@) == base + named(n@, vs.subrange(0, i as int).filter(p)),
        decreases vs.len() - i,
    {
        let v = &st.versions[i];
        proof {
            assert(vs[i as int] == v@);
            let t = vs.subrange(0, i + 1);
            assert(t.drop_last() =~= vs.subrange(0, i as int));
            assert(t.last() == v@);
            reveal(Seq::filter);
        }
        if !released_contains(st, v) {
            let ghost before = out@;
            let e = Distrib::from_strings(n.clone(), v.clone());
            out.push(e);
            proof {
                assert(dviews(out@) =~= dviews(before).push(e@));
                assert(dviews(out@) =~= base + named(n@, vs.subrange(0, i + 1).filter(p)));
            }
        } else {
            proof {
                assert(vs.subrange(0, i + 1).filter(p) == vs.subrange(0, i as int).filter(p));
            }
        }
        i = i + 1;
    }
    proof {
        assert(vs.subrange(0, vs.len() as int) =~= vs);
    }
}

/// `unreleased versions` and `unreleased <browser> versions`: the known
/// versions that are not released yet.
pub fn unreleased_exec(ws: &Vec<Vec<char>>, mobile_to_desktop: bool, data: &Data) -> (r: Result<Option<Vec<Distrib>>, Error>)
    ensures
        selected(r) == select_unreleased(views(ws@), data@, mobile_to_desktop),
{
    let all = ws.len() == 2 && is_keyword_exec(&ws[0], "unreleased") && (is_keyword_exec(&ws[1], "versions")
        || is_keyword_exec(&ws[1], "version"));
    let one = ws.len() == 3 && is_keyword_exec(&ws[0], "unreleased") && is_name_exec(&ws[1]) && (is_keyword_exec(
        &ws[2],
        "versions",
    ) || is_keyword_exec(&ws[2], "version"));
    if one {
        let bname = string_of(&ws[1]);
        let (n, st) = match get_browser_stat(bname.as_str(), mobile_to_desktop, data) {
            Some(found) => found,
            None => {
                return Err(Error::BrowserNotFound(bname));
            },
        };
        let mut out: Vec<Distrib> = Vec::new();
        push_unreleased(&mut out, &n, st);
        proof {
            assert(dviews(out@) =~= named(n@, unreleased_of(st@)));
        }
        return Ok(Some(out));
    }
    if !all {
        return Ok(None);
    }
    let ghost d = data@;
    let ghost parts = d.browsers.map_values(|b: StatView| unreleased_row(d, b, mobile_to_desktop));
    let mut out: Vec<Distrib> = Vec::new();
    let mut i: usize = 0;
    proof {
        assert(parts.subrange(0, 0) =~= Seq::<Seq<(Seq<char>, Seq<char>)>>::empty());
        assert(dviews(out@) =~= parts.subrange(0, 0).flatten());
    }
    while i < data.browsers.len()
        invariant
            d == data@,
            parts == d.browsers.map_values(|b: StatView| unreleased_row(d, b, mobile_to_desktop)),
            i <= data.browsers@.len(),
            dviews(out@) == parts.subrange(0, i as int).flatten(),
        decreases data.browsers@.len() - i,
    {
        let b = &data.browsers[i];
        proof {
            assert(d.browsers[i as int] == b@);
        }
        match get_browser_stat(b.name.as_str(), mobile_to_desktop, data) {
            Some((n, st)) => {
                push_unreleased(&mut out, &n, st);
            },
            None => {},
        }
        proof {
            assert(parts.subrange(0, i + 1) =~= parts.subrange(0, i as int).push(parts[i as int]));
            assert(dviews(out@) =~= parts.subrange(0, i + 1).flatten());
        }
        i = i + 1;
    }
    proof {
        assert(parts.subrange(0, parts.len() as int) =~= parts);
    }
    Ok(Some(out))
}

} // verus!
