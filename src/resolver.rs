use std::cmp::Ordering;
use vstd::prelude::*;
use crate::data::{get_browser_stat, lookup, strs, Data, DataView};
use crate::error::{Distrib, Error, ErrorView, Opts};
use crate::parser::{clause_views, parse, parse_query, Clause};
use crate::ranges::{
    accurate_exec, electron_range_exec, firefox_esr_exec, select_electron_range, last_electron_exec, range_exec, select_accurate, select_firefox_esr,
    select_last_electron, select_range, select_since, since_exec,
};
use crate::selectors::{
    dviews, last_n_browser_exec, select_unreleased, unreleased_exec, last_n_major_exec, select_last_n_browser, last_n_versions_exec, select_last_n_major, select_last_n_versions,
    selected, Selected,
};
use crate::text::{
    chars_of, copy_words, is_keyword, is_keyword_exec, join_words, join_words_exec, split_words, views, words,
};
use crate::usage::{cover_exec, percentage_exec, select_cover, select_percentage};
use crate::version::{semver_compare, semver_order};

verus! {

broadcast use Seq::lemma_flatten_push;

/// How deep `defaults` and `dead` may expand into further queries.
pub const EXPANSION_DEPTH: u8 = 2;

/// The queries that `defaults` stands for.
pub open spec fn defaults_queries() -> Seq<Seq<char>> {
    seq!["> 0.5%"@, "last 2 versions"@, "Firefox ESR"@, "not dead"@]
}

/// The queries that `dead` stands for: browsers without updates.
pub open spec fn dead_queries() -> Seq<Seq<char>> {
    seq!["Baidu >= 0"@, "ie <= 11"@, "ie_mob <= 11"@, "bb <= 10"@, "op_mob <= 12.1"@, "samsung 4"@]
}

/// The first selector, in priority order, that takes the clause.
pub open spec fn first_selected(ws: Seq<Seq<char>>, d: DataView, m: bool) -> Selected {
    let a = select_last_n_versions(ws, d, m);
    let b = select_last_n_major(ws, d, m);
    let c = select_last_electron(ws, d);
    let x = select_last_n_browser(ws, d, m);
    let u = select_unreleased(ws, d, m);
    let e = select_since(ws, d, m);
    let f = select_percentage(ws, d);
    let g = select_cover(ws, d);
    let k = select_electron_range(ws, d);
    let h = select_range(ws, d, m);
    let i = select_firefox_esr(ws, d);
    let j = select_accurate(ws, d, m);
    if a != Ok::<Option<Seq<(Seq<char>, Seq<char>)>>, ErrorView>(None) {
        a
    } else if b != Ok::<Option<Seq<(Seq<char>, Seq<char>)>>, ErrorView>(None) {
        b
    } else if c != Ok::<Option<Seq<(Seq<char>, Seq<char>)>>, ErrorView>(None) {
        c
    } else if x != Ok::<Option<Seq<(Seq<char>, Seq<char>)>>, ErrorView>(None) {
        x
    } else if u != Ok::<Option<Seq<(Seq<char>, Seq<char>)>>, ErrorView>(None) {
        u
    } else if e != Ok::<Option<Seq<(Seq<char>, Seq<char>)>>, ErrorView>(None) {
        e
    } else if f != Ok::<Option<Seq<(Seq<char>, Seq<char>)>>, ErrorView>(None) {
        f
    } else if g != Ok::<Option<Seq<(Seq<char>, Seq<char>)>>, ErrorView>(None) {
        g
    } else if k != Ok::<Option<Seq<(Seq<char>, Seq<char>)>>, ErrorView>(None) {
        k
    } else if h != Ok::<Option<Seq<(Seq<char>, Seq<char>)>>, ErrorView>(None) {
        h
    } else if i != Ok::<Option<Seq<(Seq<char>, Seq<char>)>>, ErrorView>(None) {
        i
    } else {
        j
    }
}

/// What one clause (its words) resolves to.
pub open spec fn clause_result(ws: Seq<Seq<char>>, d: DataView, m: bool, depth: nat) -> Result<
    Seq<(Seq<char>, Seq<char>)>,
    ErrorView,
>
    decreases depth, 0int, 0int,
{
    match first_selected(ws, d, m) {
        Ok(Some(r)) => Ok(r),
        Err(e) => Err(e),
        Ok(None) => if depth > 0 && ws.len() == 1 && is_keyword(ws[0], "defaults"@) {
            resolve_spec(defaults_queries(), d, m, (depth - 1) as nat)
        } else if depth > 0 && ws.len() == 1 && is_keyword(ws[0], "dead"@) {
            resolve_spec(dead_queries(), d, m, (depth - 1) as nat)
        } else if lookup(d, join_words(ws), m).is_some() {
            Err(ErrorView::VersionRequired(join_words(ws)))
        } else {
            Err(ErrorView::UnknownQuery(join_words(ws)))
        },
    }
}

/// Whether a clause starts with `not`.
pub open spec fn is_negated(ws: Seq<Seq<char>>) -> bool {
    ws.len() > 0 && is_keyword(ws[0], "not"@)
}

/// Applies one clause's result to the running result.
pub open spec fn combine(
    acc: Seq<(Seq<char>, Seq<char>)>,
    rs: Seq<(Seq<char>, Seq<char>)>,
    and: bool,
    negated: bool,
) -> Seq<(Seq<char>, Seq<char>)> {
    if negated {
        acc.filter(|x: (Seq<char>, Seq<char>)| !rs.contains(x))
    } else if and {
        acc.filter(|x: (Seq<char>, Seq<char>)| rs.contains(x))
    } else {
        acc + rs
    }
}

/// Folds the clauses, in order, into the running result.
pub open spec fn fold_clauses(
    acc: Seq<(Seq<char>, Seq<char>)>,
    cs: Seq<(bool, Seq<Seq<char>>)>,
    d: DataView,
    m: bool,
    depth: nat,
) -> Result<Seq<(Seq<char>, Seq<char>)>, ErrorView>
    decreases depth, 1int, cs.len(),
{
    if cs.len() == 0 {
        Ok(acc)
    } else {
        let ws = cs[0].1;
        let negated = is_negated(ws);
        let body = if negated {
            ws.drop_first()
        } else {
            ws
        };
        match clause_result(body, d, m, depth) {
            Err(e) => Err(e),
            Ok(rs) => fold_clauses(combine(acc, rs, cs[0].0, negated), cs.drop_first(), d, m, depth),
        }
    }
}

/// The clauses of all queries, in order.
pub open spec fn all_clauses(qs: Seq<Seq<char>>) -> Seq<(bool, Seq<Seq<char>>)> {
    qs.map_values(|q: Seq<char>| parse_query(q)).flatten()
}

/// Dictionary order of two texts.
pub open spec fn text_order(a: Seq<char>, b: Seq<char>) -> Ordering
    decreases a.len(),
{
    if a.len() == 0 && b.len() == 0 {
        Ordering::Equal
    } else if a.len() == 0 {
        Ordering::Less
    } else if b.len() == 0 {
        Ordering::Greater
    } else if a[0] < b[0] {
        Ordering::Less
    } else if a[0] > b[0] {
        Ordering::Greater
    } else {
        text_order(a.drop_first(), b.drop_first())
    }
}

/// The order of the final result: by name, then the bigger version first.
pub open spec fn distrib_order(x: (Seq<char>, Seq<char>), y: (Seq<char>, Seq<char>)) -> Ordering {
    match text_order(x.0, y.0) {
        Ordering::Equal => semver_order(x.1, y.1),
        o => o,
    }
}

/// Puts `x` before the first entry that it orders strictly before.
pub open spec fn insert_sorted(s: Seq<(Seq<char>, Seq<char>)>, x: (Seq<char>, Seq<char>)) -> Seq<(Seq<char>, Seq<char>)>
    decreases s.len(),
{
    if s.len() == 0 {
        seq![x]
    } else if distrib_order(x, s[0]) == Ordering::Less {
        seq![x] + s
    } else {
        seq![s[0]] + insert_sorted(s.drop_first(), x)
    }
}

/// A stable sort by [`distrib_order`].
pub open spec fn sort_distribs(s: Seq<(Seq<char>, Seq<char>)>) -> Seq<(Seq<char>, Seq<char>)>
    decreases s.len(),
{
    if s.len() == 0 {
        s
    } else {
        insert_sorted(sort_distribs(s.drop_last()), s.last())
    }
}

/// What a sequence of tagged clauses resolves to: folded from an empty
/// start, then sorted, then with every duplicate removed.
pub open spec fn resolve_clauses(cs: Seq<(bool, Seq<Seq<char>>)>, d: DataView, m: bool, depth: nat) -> Result<
    Seq<(Seq<char>, Seq<char>)>,
    ErrorView,
>
    decreases depth, 2int, 0int,
{
    match fold_clauses(Seq::empty(), cs, d, m, depth) {
        Ok(r) => Ok(dedup_all(sort_distribs(r))),
        Err(e) => Err(e),
    }
}

/// What a list of queries resolves to: all their clauses, resolved together.
pub open spec fn resolve_spec(qs: Seq<Seq<char>>, d: DataView, m: bool, depth: nat) -> Result<
    Seq<(Seq<char>, Seq<char>)>,
    ErrorView,
>
    decreases depth, 3int, 0int,
{
    resolve_clauses(all_clauses(qs), d, m, depth)
}

pub open spec fn resolved(r: Result<Vec<Distrib>, Error>) -> Result<Seq<(Seq<char>, Seq<char>)>, ErrorView> {
    match r {
        Ok(v) => Ok(dviews(v@)),
        Err(e) => Err(e@),
    }
}

fn text_cmp(a: &Vec<char>, b: &Vec<char>) -> (r: Ordering)
    ensures
        r == text_order(a@, b@),
{
    let mut i: usize = 0;
    proof {
        assert(a@.skip(0) =~= a@);
        assert(b@.skip(0) =~= b@);
    }
    while i < a.len() && i < b.len()
        invariant
            i <= a@.len(),
            i <= b@.len(),
            text_order(a@, b@) == text_order(a@.skip(i as int), b@.skip(i as int)),
        decreases a@.len() - i,
    {
        proof {
            assert(a@.skip(i as int)[0] == a@[i as int]);
            assert(b@.skip(i as int)[0] == b@[i as int]);
            assert(a@.skip(i as int).drop_first() =~= a@.skip(i + 1));
            assert(b@.skip(i as int).drop_first() =~= b@.skip(i + 1));
        }
        if a[i] < b[i] {
            return Ordering::Less;
        } else if a[i] > b[i] {
            return Ordering::Greater;
        }
        i = i + 1;
    }
    if a.len() == i && b.len() == i {
        Ordering::Equal
    } else if a.len() == i {
        Ordering::Less
    } else {
        Ordering::Greater
    }
}

/// Compares two entries in the order of the final result.
fn distrib_cmp(x: &Distrib, y: &Distrib) -> (r: Ordering)
    ensures
        r == distrib_order(x@, y@),
{
    match text_cmp(&chars_of(x.name()), &chars_of(y.name())) {
        Ordering::Equal => semver_compare(x.version(), y.version()),
        o => o,
    }
}

fn goes_before(x: &Distrib, y: &Distrib) -> (r: bool)
    ensures
        r == (distrib_order(x@, y@) == Ordering::Less),
{
    match distrib_cmp(x, y) {
        Ordering::Less => true,
        _ => false,
    }
}

proof fn lemma_insert_split(s: Seq<(Seq<char>, Seq<char>)>, x: (Seq<char>, Seq<char>), j: int)
    requires
        0 <= j <= s.len(),
        forall|k: int| 0 <= k < j ==> distrib_order(x, #[trigger] s[k]) != Ordering::Less,
    ensures
        insert_sorted(s, x) == s.take(j) + insert_sorted(s.skip(j), x),
    decreases j,
{
    if j > 0 {
        assert(distrib_order(x, s[0]) != Ordering::Less);
        let t = s.drop_first();
        assert forall|k: int| 0 <= k < j - 1 implies distrib_order(x, #[trigger] t[k]) != Ordering::Less by {
            assert(t[k] == s[k + 1]);
        }
        lemma_insert_split(t, x, j - 1);
        assert(t.skip(j - 1) =~= s.skip(j));
        assert(s.take(j) =~= seq![s[0]] + t.take(j - 1));
    } else {
        assert(s.skip(0) =~= s);
        assert(s.take(0) =~= Seq::<(Seq<char>, Seq<char>)>::empty());
    }
}

/// Sorts entries stably by [`distrib_order`].
fn sort_exec(v: Vec<Distrib>) -> (r: Vec<Distrib>)
    ensures
        dviews(r@) == sort_distribs(dviews(v@)),
{
    let ghost all = dviews(v@);
    let mut sorted: Vec<Distrib> = Vec::new();
    let mut i: usize = 0;
    proof {
        assert(all.subrange(0, 0) =~= Seq::<(Seq<char>, Seq<char>)>::empty());
        assert(dviews(sorted@) =~= Seq::<(Seq<char>, Seq<char>)>::empty());
    }
    while i < v.len()
        invariant
            all == dviews(v@),
            i <= v@.len(),
            dviews(sorted@) == sort_distribs(all.subrange(0, i as int)),
        decreases v@.len() - i,
    {
        let x = v[i].copy();
        let ghost sv = dviews(sorted@);
        let mut j: usize = 0;
        while j < sorted.len() && !goes_before(&x, &sorted[j])
            invariant
                sv == dviews(sorted@),
                j <= sorted@.len(),
                forall|k: int| 0 <= k < j ==> distrib_order(x@, #[trigger] sv[k]) != Ordering::Less,
            decreases sorted@.len() - j,
        {
            proof {
                assert(sv[j as int] == sorted@[j as int]@);
            }
            j = j + 1;
        }
        proof {
            lemma_insert_split(sv, x@, j as int);
            let t = all.subrange(0, i + 1);
            assert(t.drop_last() =~= all.subrange(0, i as int));
            assert(t.last() == x@);
            if j < sorted@.len() {
                assert(sv[j as int] == sorted@[j as int]@);
                assert(distrib_order(x@, sv.skip(j as int)[0]) == Ordering::Less);
                assert(insert_sorted(sv.skip(j as int), x@) == seq![x@] + sv.skip(j as int));
            } else {
                assert(sv.skip(j as int) =~= Seq::<(Seq<char>, Seq<char>)>::empty());
                assert(sv.take(j as int) =~= sv);
            }
        }
        let ghost before = sorted@;
        sorted.insert(j, x);
        proof {
            assert(dviews(sorted@) =~= sv.take(j as int) + (seq![x@] + sv.skip(j as int)));
        }
        i = i + 1;
    }
    proof {
        assert(all.subrange(0, all.len() as int) =~= all);
    }
    sorted
}

/// Keeps the first occurrence of each entry, in order.
pub open spec fn dedup_all<A>(s: Seq<A>) -> Seq<A>
    decreases s.len(),
{
    if s.len() == 0 {
        s
    } else {
        let r = dedup_all(s.drop_last());
        if s.drop_last().contains(s.last()) {
            r
        } else {
            r.push(s.last())
        }
    }
}

/// Dropping duplicates keeps every entry once and adds none.
pub proof fn lemma_dedup_all<A>(s: Seq<A>)
    ensures
        forall|x: A| #![trigger dedup_all(s).contains(x)] dedup_all(s).contains(x) <==> s.contains(x),
        forall|i: int, j: int| 0 <= i < j < dedup_all(s).len() ==> dedup_all(s)[i] != dedup_all(s)[j],
    decreases s.len(),
{
    if s.len() > 0 {
        let d = s.drop_last();
        lemma_dedup_all(d);
        let r = dedup_all(d);
        assert forall|x: A| #![trigger dedup_all(s).contains(x)] dedup_all(s).contains(x) <==> s.contains(x) by {
            if s.contains(x) {
                let k = choose|k: int| 0 <= k < s.len() && s[k] == x;
                if k < d.len() {
                    assert(d[k] == x);
                    assert(d.contains(x));
                    assert(r.contains(x));
                    if !d.contains(s.last()) {
                        let m = choose|m: int| 0 <= m < r.len() && r[m] == x;
                        assert(r.push(s.last())[m] == x);
                    }
                } else {
                    if d.contains(s.last()) {
                        assert(r.contains(s.last()));
                    } else {
                        assert(r.push(s.last())[r.len() as int] == x);
                    }
                }
            }
            if dedup_all(s).contains(x) {
                if d.contains(s.last()) {
                    assert(r.contains(x));
                    let k = choose|k: int| 0 <= k < d.len() && d[k] == x;
                    assert(s[k] == x);
                } else {
                    let m = choose|m: int| 0 <= m < r.len() + 1 && r.push(s.last())[m] == x;
                    if m < r.len() {
                        assert(r[m] == x);
                        assert(r.contains(x));
                        let k = choose|k: int| 0 <= k < d.len() && d[k] == x;
                        assert(s[k] == x);
                    } else {
                        assert(s[s.len() - 1] == x);
                    }
                }
            }
        }
        if !d.contains(s.last()) {
            assert forall|i: int, j: int| 0 <= i < j < r.len() + 1 implies r.push(s.last())[i] != r.push(s.last())[j] by {
                if j == r.len() {
                    assert(r.push(s.last())[i] == r[i]);
                    if r[i] == s.last() {
                        assert(r.contains(s.last()));
                    }
                }
            }
        }
    }
}

/// Removes every entry equal to an earlier one.
fn dedup_exec(v: Vec<Distrib>) -> (r: Vec<Distrib>)
    ensures
        dviews(r@) == dedup_all(dviews(v@)),
{
    let ghost all = dviews(v@);
    let mut out: Vec<Distrib> = Vec::new();
    let mut i: usize = 0;
    proof {
        assert(all.subrange(0, 0) =~= Seq::<(Seq<char>, Seq<char>)>::empty());
        assert(dviews(out@) =~= Seq::<(Seq<char>, Seq<char>)>::empty());
    }
    while i < v.len()
        invariant
            all == dviews(v@),
            i <= v@.len(),
            dviews(out@) == dedup_all(all.subrange(0, i as int)),
        decreases v@.len() - i,
    {
        let ghost t = all.subrange(0, i + 1);
        proof {
            assert(t.drop_last() =~= all.subrange(0, i as int));
            assert(t.last() == v@[i as int]@);
            lemma_dedup_all(all.subrange(0, i as int));
        }
        if !contains_exec(&out, &v[i]) {
            let ghost before = out@;
            let x = v[i].copy();
            out.push(x);
            proof {
                assert(dviews(out@) =~= dviews(before).push(x@));
            }
        }
        i = i + 1;
    }
    proof {
        assert(all.subrange(0, all.len() as int) =~= all);
    }
    out
}

fn contains_exec(rs: &Vec<Distrib>, x: &Distrib) -> (r: bool)
    ensures
        r == dviews(rs@).contains(x@),
{
    let ghost rv = dviews(rs@);
    let mut i: usize = 0;
    while i < rs.len()
        invariant
            rv == dviews(rs@),
            i <= rs@.len(),
            forall|k: int| 0 <= k < i ==> rv[k] != x@,
        decreases rs@.len() - i,
    {
        if rs[i].same(x) {
            proof {
                assert(rv[i as int] == x@);
            }
            return true;
        }
        i = i + 1;
    }
    false
}

/// Keeps the entries of `acc` that are in `rs` (`keep_present`) or that are
/// not.
fn retain_exec(acc: &Vec<Distrib>, rs: &Vec<Distrib>, keep_present: bool) -> (r: Vec<Distrib>)
    ensures
        dviews(r@) == (if keep_present {
            dviews(acc@).filter(|x: (Seq<char>, Seq<char>)| dviews(rs@).contains(x))
        } else {
            dviews(acc@).filter(|x: (Seq<char>, Seq<char>)| !dviews(rs@).contains(x))
        }),
{
    let ghost av = dviews(acc@);
    let ghost rv = dviews(rs@);
    let ghost p = if keep_present {
        |x: (Seq<char>, Seq<char>)| rv.contains(x)
    } else {
        |x: (Seq<char>, Seq<char>)| !rv.contains(x)
    };
    let mut out: Vec<Distrib> = Vec::new();
    let mut i: usize = 0;
    while i < acc.len()
        invariant
            av == dviews(acc@),
            rv == dviews(rs@),
            p == (if keep_present {
                |x: (Seq<char>, Seq<char>)| rv.contains(x)
            } else {
                |x: (Seq<char>, Seq<char>)| !rv.contains(x)
            }),
            i <= acc@.len(),
            dviews(out@) == av.subrange(0, i as int).filter(p),
        decreases acc@.len() - i,
    {
        proof {
            let t = av.subrange(0, i + 1);
            assert(t.drop_last() =~= av.subrange(0, i as int));
            assert(t.last() == acc@[i as int]@);
            reveal(Seq::filter);
        }
        let present = contains_exec(rs, &acc[i]);
        if present == keep_present {
            let ghost before = out@;
            let x = acc[i].copy();
            out.push(x);
            proof {
                assert(dviews(out@) =~= dviews(before).push(x@));
            }
        }
        i = i + 1;
    }
    proof {
        assert(av.subrange(0, av.len() as int) =~= av);
    }
    out
}

fn combine_exec(acc: Vec<Distrib>, rs: Vec<Distrib>, and: bool, negated: bool) -> (r: Vec<Distrib>)
    ensures
        dviews(r@) == combine(dviews(acc@), dviews(rs@), and, negated),
{
    if negated {
        retain_exec(&acc, &rs, false)
    } else if and {
        retain_exec(&acc, &rs, true)
    } else {
        let mut out = acc;
        let ghost base = out@;
        let mut i: usize = 0;
        while i < rs.len()
            invariant
                i <= rs@.len(),
                dviews(out@) == dviews(base) + dviews(rs@).subrange(0, i as int),
            decreases rs@.len() - i,
        {
            let ghost before = out@;
            let x = rs[i].copy();
            out.push(x);
            proof {
                assert(dviews(out@) =~= dviews(before).push(x@));
                assert(dviews(rs@).subrange(0, i + 1) =~= dviews(rs@).subrange(0, i as int).push(x@));
            }
            i = i + 1;
        }
        proof {
            assert(dviews(rs@).subrange(0, rs@.len() as int) =~= dviews(rs@));
        }
        out
    }
}

fn declined(r: &Result<Option<Vec<Distrib>>, Error>) -> (b: bool)
    ensures
        b == (selected(*r) == Ok::<Option<Seq<(Seq<char>, Seq<char>)>>, ErrorView>(None)),
{
    match r {
        Ok(None) => true,
        _ => false,
    }
}

fn first_selected_exec(ws: &Vec<Vec<char>>, m: bool, data: &Data) -> (r: Result<Option<Vec<Distrib>>, Error>)
    ensures
        selected(r) == first_selected(views(ws@), data@, m),
{
    let a = last_n_versions_exec(ws, m, data);
    if !declined(&a) {
        return a;
    }
    let b = last_n_major_exec(ws, m, data);
    if !declined(&b) {
        return b;
    }
    let c = last_electron_exec(ws, data);
    if !declined(&c) {
        return c;
    }
    let x = last_n_browser_exec(ws, m, data);
    if !declined(&x) {
        return x;
    }
    let u = unreleased_exec(ws, m, data);
    if !declined(&u) {
        return u;
    }
    let e = since_exec(ws, m, data);
    if !declined(&e) {
        return e;
    }
    let f = percentage_exec(ws, data);
    if !declined(&f) {
        return f;
    }
    let g = cover_exec(ws, data);
    if !declined(&g) {
        return g;
    }
    let k = electron_range_exec(ws, data);
    if !declined(&k) {
        return k;
    }
    let h = range_exec(ws, m, data);
    if !declined(&h) {
        return h;
    }
    let i = firefox_esr_exec(ws, data);
    if !declined(&i) {
        return i;
    }
    accurate_exec(ws, m, data)
}

pub(crate) fn drop_first_word(ws: &Vec<Vec<char>>) -> (r: Vec<Vec<char>>)
    requires
        ws@.len() > 0,
    ensures
        views(r@) == views(ws@).drop_first(),
{
    let ghost wv = views(ws@);
    let mut r: Vec<Vec<char>> = Vec::new();
    let mut i: usize = 1;
    while i < ws.len()
        invariant
            wv == views(ws@),
            1 <= i <= ws@.len(),
            views(r@) == wv.subrange(1, i as int),
        decreases ws@.len() - i,
    {
        let ghost before = r@;
        r.push(crate::text::copy_chars(&ws[i]));
        proof {
            assert(views(r@) =~= views(before).push(ws@[i as int]@));
            assert(wv.subrange(1, i + 1) =~= wv.subrange(1, i as int).push(wv[i as int]));
        }
        i = i + 1;
    }
    proof {
        assert(wv.subrange(1, wv.len() as int) =~= wv.drop_first());
    }
    r
}

/// Resolves one clause, given as its words.
fn query_depth(ws: &Vec<Vec<char>>, m: bool, data: &Data, depth: u8) -> (r: Result<Vec<Distrib>, Error>)
    ensures
        resolved(r) == clause_result(views(ws@), data@, m, depth as nat),
    decreases depth, 0int,
{
    match first_selected_exec(ws, m, data) {
        Ok(Some(v)) => {
            return Ok(v);
        },
        Err(e) => {
            return Err(e);
        },
        Ok(None) => {},
    }
    proof {
        assert(ws@.len() == 1 ==> views(ws@)[0] == ws@[0]@);
    }
    if depth > 0 && ws.len() == 1 && is_keyword_exec(&ws[0], "defaults") {
        let qs = vec!["> 0.5%".to_owned(), "last 2 versions".to_owned(), "Firefox ESR".to_owned(), "not dead".to_owned()];
        proof {
            assert(strs(qs@) =~= defaults_queries());
        }
        return resolve_depth(&qs, m, data, depth - 1);
    }
    if depth > 0 && ws.len() == 1 && is_keyword_exec(&ws[0], "dead") {
        let qs = vec![
            "Baidu >= 0".to_owned(),
            "ie <= 11".to_owned(),
            "ie_mob <= 11".to_owned(),
            "bb <= 10".to_owned(),
            "op_mob <= 12.1".to_owned(),
            "samsung 4".to_owned(),
        ];
        proof {
            assert(strs(qs@) =~= dead_queries());
        }
        return resolve_depth(&qs, m, data, depth - 1);
    }
    let text = join_words_exec(ws);
    if get_browser_stat(text.as_str(), m, data).is_some() {
        Err(Error::VersionRequired(text))
    } else {
        Err(Error::UnknownQuery(text))
    }
}

/// Resolves a list of queries, expanding `defaults` and `dead` at most
/// `depth` levels deep.
fn resolve_depth(qs: &Vec<String>, m: bool, data: &Data, depth: u8) -> (r: Result<Vec<Distrib>, Error>)
    ensures
        resolved(r) == resolve_spec(strs(qs@), data@, m, depth as nat),
    decreases depth, 1int,
{
    let ghost qv = strs(qs@);
    let ghost pm = qv.map_values(|q: Seq<char>| parse_query(q));
    let mut clauses: Vec<Clause> = Vec::new();
    let mut i: usize = 0;
    proof {
        assert(pm.subrange(0, 0) =~= Seq::<Seq<(bool, Seq<Seq<char>>)>>::empty());
        assert(clause_views(clauses@) =~= pm.subrange(0, 0).flatten());
    }
    while i < qs.len()
        invariant
            qv == strs(qs@),
            pm == qv.map_values(|q: Seq<char>| parse_query(q)),
            i <= qs@.len(),
            clause_views(clauses@) == pm.subrange(0, i as int).flatten(),
        decreases qs@.len() - i,
    {
        let mut parsed = parse(qs[i].as_str());
        let ghost pv = clause_views(parsed@);
        let ghost before = clause_views(clauses@);
        clauses.append(&mut parsed);
        proof {
            assert(clause_views(clauses@) =~= before + pv);
            assert(pm[i as int] == pv);
            assert(pm.subrange(0, i + 1) =~= pm.subrange(0, i as int).push(pm[i as int]));
        }
        i = i + 1;
    }
    proof {
        assert(pm.subrange(0, pm.len() as int) =~= pm);
    }
    let ghost cs = clause_views(clauses@);
    let mut acc: Vec<Distrib> = Vec::new();
    let mut k: usize = 0;
    proof {
        assert(cs.skip(0) =~= cs);
        assert(dviews(acc@) =~= Seq::<(Seq<char>, Seq<char>)>::empty());
    }
    while k < clauses.len()
        invariant
            cs == clause_views(clauses@),
            cs == all_clauses(strs(qs@)),
            k <= cs.len(),
            fold_clauses(Seq::empty(), cs, data@, m, depth as nat) == fold_clauses(
                dviews(acc@),
                cs.skip(k as int),
                data@,
                m,
                depth as nat,
            ),
        decreases cs.len() - k,
    {
        let c = &clauses[k];
        proof {
            assert(cs.skip(k as int)[0] == c@);
            assert(cs.skip(k as int).drop_first() =~= cs.skip(k + 1));
            if c.words@.len() > 0 {
                assert(views(c.words@)[0] == c.words@[0]@);
            }
        }
        let negated = c.words.len() > 0 && is_keyword_exec(&c.words[0], "not");
        let body = if negated {
            drop_first_word(&c.words)
        } else {
            copy_words(&c.words)
        };
        let rs = match query_depth(&body, m, data, depth) {
            Ok(rs) => rs,
            Err(e) => {
                return Err(e);
            },
        };
        acc = combine_exec(acc, rs, c.and, negated);
        k = k + 1;
    }
    proof {
        assert(cs.skip(cs.len() as int) =~= Seq::<(bool, Seq<Seq<char>>)>::empty());
    }
    let sorted = sort_exec(acc);
    Ok(dedup_exec(sorted))
}

/// Resolves queries: each is split into clauses, the clauses are applied in
/// order to a running result, which is then sorted and freed of duplicates.
pub fn resolve(queries: &Vec<String>, opts: &Opts, data: &Data) -> (r: Result<Vec<Distrib>, Error>)
    ensures
        resolved(r) == resolve_spec(strs(queries@), data@, opts.mobile_to_desktop, EXPANSION_DEPTH as nat),
{
    resolve_depth(queries, opts.mobile_to_desktop, data, EXPANSION_DEPTH)
}

/// Resolves the queries that a project's configuration gave.
pub fn execute(configured: &Vec<String>, opts: &Opts, data: &Data) -> (r: Result<Vec<Distrib>, Error>)
    ensures
        resolved(r) == resolve_spec(strs(configured@), data@, opts.mobile_to_desktop, EXPANSION_DEPTH as nat),
{
    resolve(configured, opts, data)
}

/// Resolves a single clause, without `not`, `and` or `or`.
pub fn query(query_string: &str, opts: &Opts, data: &Data) -> (r: Result<Vec<Distrib>, Error>)
    ensures
        resolved(r) == clause_result(words(query_string@), data@, opts.mobile_to_desktop, EXPANSION_DEPTH as nat),
{
    let ws = split_words(&chars_of(query_string));
    query_depth(&ws, opts.mobile_to_desktop, data, EXPANSION_DEPTH)
}

} // verus!
