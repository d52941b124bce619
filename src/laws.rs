use vstd::prelude::*;
use crate::data::{lookup, DataView, StatView};
use crate::dates::midnight_utc;
use crate::ranges::{select_since, since_all};
use crate::resolver::{
    clause_result, combine, dedup_all, fold_clauses, insert_sorted, is_negated, lemma_dedup_all, resolve_clauses, sort_distribs,
};
use crate::ranges::since_all as since_everything;
use crate::selectors::{effective_count, last_n_of, last_n_versions, named, newest};
use crate::text::{is_keyword, lower};

verus! {

/// `last n versions`, restricted to one browser that needs no Android
/// adjustment, gives at most `n` entries, each a released version of that
/// browser, newest first.
pub proof fn lemma_last_n_of_browser(d: DataView, b: StatView, n: int, m: bool)
    requires
        n >= 1,
        lookup(d, b.name, m) is Some,
        !(lookup(d, b.name, m).unwrap().0 == "android"@ && !m),
    ensures
        ({
            let (name, st) = lookup(d, b.name, m).unwrap();
            let r = last_n_of(d, b, n, m);
            &&& r.len() <= n
            &&& r.len() <= st.released.len()
            &&& forall|i: int|
                0 <= i < r.len() ==> #[trigger] r[i] == (name, st.released[st.released.len() - 1 - i])
        }),
{
    let (name, st) = lookup(d, b.name, m).unwrap();
    assert(effective_count(d, name, n, m) == n);
}

proof fn lemma_not_is_keyword()
    ensures
        is_keyword(seq!['n', 'o', 't'], "not"@),
{
    reveal_strlit("not");
    assert("not"@ =~= seq!['n', 'o', 't']);
    assert(lower(seq!['n', 'o', 't']) =~= seq!['n', 'o', 't']);
}

/// A clause followed by the same clause under `not` leaves the running
/// result without any entry of the clause's result, whatever it held before.
pub proof fn lemma_not_removes(
    acc: Seq<(Seq<char>, Seq<char>)>,
    ws: Seq<Seq<char>>,
    and1: bool,
    and2: bool,
    d: DataView,
    m: bool,
    depth: nat,
)
    requires
        !is_negated(ws),
        clause_result(ws, d, m, depth) is Ok,
    ensures
        ({
            let rs = clause_result(ws, d, m, depth)->Ok_0;
            let cs = seq![(and1, ws), (and2, seq![seq!['n', 'o', 't']] + ws)];
            &&& fold_clauses(acc, cs, d, m, depth) == Ok::<Seq<(Seq<char>, Seq<char>)>, crate::error::ErrorView>(
                combine(acc, rs, and1, false).filter(|x: (Seq<char>, Seq<char>)| !rs.contains(x)),
            )
            &&& forall|x: (Seq<char>, Seq<char>)|
                #![trigger rs.contains(x)]
                rs.contains(x) ==> !fold_clauses(acc, cs, d, m, depth)->Ok_0.contains(x)
        }),
{
    lemma_not_is_keyword();
    reveal_with_fuel(fold_clauses, 3);
    let rs = clause_result(ws, d, m, depth)->Ok_0;
    let not_ws = seq![seq!['n', 'o', 't']] + ws;
    assert(not_ws.drop_first() =~= ws);
    assert(is_negated(not_ws));
    let cs = seq![(and1, ws), (and2, not_ws)];
    assert(cs.drop_first() =~= seq![(and2, not_ws)]);
    assert(cs.drop_first().drop_first() =~= Seq::<(bool, Seq<Seq<char>>)>::empty());
    let after = combine(acc, rs, and1, false);
    let out = after.filter(|x: (Seq<char>, Seq<char>)| !rs.contains(x));
    assert forall|x: (Seq<char>, Seq<char>)| #![trigger rs.contains(x)] rs.contains(x) implies !out.contains(x) by {
        if out.contains(x) {
            let i = choose|i: int| 0 <= i < out.len() && out[i] == x;
            after.lemma_filter_pred(|x: (Seq<char>, Seq<char>)| !rs.contains(x), i);
        }
    }
}

/// `X` and then `not X`, from an empty start, leave nothing.
pub proof fn lemma_not_cancels(ws: Seq<Seq<char>>, and2: bool, d: DataView, m: bool, depth: nat)
    requires
        !is_negated(ws),
        clause_result(ws, d, m, depth) is Ok,
    ensures
        fold_clauses(Seq::empty(), seq![(false, ws), (and2, seq![seq!['n', 'o', 't']] + ws)], d, m, depth)
            == Ok::<Seq<(Seq<char>, Seq<char>)>, crate::error::ErrorView>(Seq::empty()),
{
    lemma_not_removes(Seq::empty(), ws, false, and2, d, m, depth);
    let rs = clause_result(ws, d, m, depth)->Ok_0;
    let after = combine(Seq::empty(), rs, false, false);
    assert(after =~= rs);
    let out = after.filter(|x: (Seq<char>, Seq<char>)| !rs.contains(x));
    assert(out =~= Seq::empty()) by {
        if out.len() > 0 {
            let x = out[0];
            assert(out.contains(x));
            assert(after.contains(x)) by {
                rs.lemma_filter_contains_rev(|x: (Seq<char>, Seq<char>)| !rs.contains(x), x);
            }
        }
    }
}

/// `A and B` keeps exactly the entries that both `A` and `B` give.
pub proof fn lemma_and_intersects(a: Seq<Seq<char>>, b: Seq<Seq<char>>, d: DataView, m: bool, depth: nat)
    requires
        !is_negated(a),
        !is_negated(b),
        clause_result(a, d, m, depth) is Ok,
        clause_result(b, d, m, depth) is Ok,
    ensures
        ({
            let ra = clause_result(a, d, m, depth)->Ok_0;
            let rb = clause_result(b, d, m, depth)->Ok_0;
            let r = fold_clauses(Seq::empty(), seq![(false, a), (true, b)], d, m, depth);
            &&& r is Ok
            &&& forall|x: (Seq<char>, Seq<char>)|
                #![trigger (r->Ok_0).contains(x)]
                (r->Ok_0).contains(x) <==> ra.contains(x) && rb.contains(x)
        }),
{
    reveal_with_fuel(fold_clauses, 3);
    let ra = clause_result(a, d, m, depth)->Ok_0;
    let rb = clause_result(b, d, m, depth)->Ok_0;
    let cs = seq![(false, a), (true, b)];
    assert(cs.drop_first() =~= seq![(true, b)]);
    assert(cs.drop_first().drop_first() =~= Seq::<(bool, Seq<Seq<char>>)>::empty());
    let after = combine(Seq::empty(), ra, false, false);
    assert(after =~= ra);
    let out = ra.filter(|x: (Seq<char>, Seq<char>)| rb.contains(x));
    assert forall|x: (Seq<char>, Seq<char>)| #![trigger out.contains(x)] out.contains(x) <==> ra.contains(x) && rb.contains(x) by {
        if out.contains(x) {
            ra.lemma_filter_contains_rev(|x: (Seq<char>, Seq<char>)| rb.contains(x), x);
            let i = choose|i: int| 0 <= i < out.len() && out[i] == x;
            ra.lemma_filter_pred(|x: (Seq<char>, Seq<char>)| rb.contains(x), i);
        }
        if ra.contains(x) && rb.contains(x) {
            let i = choose|i: int| 0 <= i < ra.len() && ra[i] == x;
            ra.lemma_filter_contains(|x: (Seq<char>, Seq<char>)| rb.contains(x), i);
        }
    }
}

/// The Unix epoch is second zero, so `since 1970` takes every version whose
/// release date is not negative.
pub proof fn lemma_since_epoch(d: DataView, m: bool)
    ensures
        midnight_utc(1970, 1, 1) == 0,
        select_since(
            seq![seq!['s', 'i', 'n', 'c', 'e'], seq!['1', '9', '7', '0']],
            d,
            m,
        ) == Ok::<Option<Seq<(Seq<char>, Seq<char>)>>, crate::error::ErrorView>(Some(since_all(d, 0, m))),
{
    reveal_strlit("since");
    let kw = seq!['s', 'i', 'n', 'c', 'e'];
    assert(lower(kw) =~= kw);
    assert("since"@ =~= kw);
    assert(is_keyword(kw, "since"@));
    let date = seq!['1', '9', '7', '0'];
    let f = |c: char| c == '-';
    assert(date.drop_last() =~= seq!['1', '9', '7']);
    assert(date.drop_last().drop_last() =~= seq!['1', '9']);
    assert(date.drop_last().drop_last().drop_last() =~= seq!['1']);
    assert(date.drop_last().drop_last().drop_last().drop_last() =~= Seq::<char>::empty());
    assert(seq!['1'].drop_last() =~= Seq::<char>::empty());
    assert(crate::text::split_by(Seq::<char>::empty(), f) == seq![Seq::<char>::empty()]);
    assert(Seq::<char>::empty().push('1') =~= seq!['1']);
    assert(seq![Seq::<char>::empty()].update(0, seq!['1']) =~= seq![seq!['1']]);
    assert(crate::text::split_by(seq!['1'], f) =~= seq![seq!['1']]);
    assert(seq!['1', '9'].drop_last() =~= seq!['1']);
    assert(seq!['1'].push('9') =~= seq!['1', '9']);
    assert(crate::text::split_by(seq!['1', '9'], f) =~= seq![seq!['1', '9']]);
    assert(seq!['1', '9', '7'].drop_last() =~= seq!['1', '9']);
    assert(seq!['1', '9'].push('7') =~= seq!['1', '9', '7']);
    assert(crate::text::split_by(seq!['1', '9', '7'], f) =~= seq![seq!['1', '9', '7']]);
    assert(seq!['1', '9', '7'].push('0') =~= date);
    assert(crate::text::split_by(date, f) =~= seq![date]);
    assert(('0' as int) == 48 && ('1' as int) == 49 && ('9' as int) == 57 && ('7' as int) == 55);
    assert(crate::text::digits_value(Seq::<char>::empty()) == 0);
    assert(crate::text::digits_value(seq!['1']) == 1);
    assert(crate::text::digits_value(seq!['1', '9']) == 19);
    assert(crate::text::digits_value(seq!['1', '9', '7']) == 197);
    assert(crate::text::digits_value(date) == 1970);
    assert(crate::dates::days_from_civil(1970, 1, 1) == 0);
    assert(crate::text::all_digits(date));
    assert(crate::ranges::since_shape(seq![kw, date]) == Some(date));
    assert(crate::ranges::date_part(date, 0) == 1970);
    assert(crate::ranges::date_part(date, 1) == 1);
    assert(crate::ranges::date_part(date, 2) == 1);
}

/// Repeating a clause adds no new entry: before sorting, the running result
/// holds the entries of the clause, each of them twice over.
pub proof fn lemma_or_repeat_same_entries(ws: Seq<Seq<char>>, d: DataView, m: bool, depth: nat)
    requires
        !is_negated(ws),
        clause_result(ws, d, m, depth) is Ok,
    ensures
        ({
            let rs = clause_result(ws, d, m, depth)->Ok_0;
            let once = fold_clauses(Seq::empty(), seq![(false, ws)], d, m, depth);
            let twice = fold_clauses(Seq::empty(), seq![(false, ws), (false, ws)], d, m, depth);
            &&& once == Ok::<Seq<(Seq<char>, Seq<char>)>, crate::error::ErrorView>(rs)
            &&& twice == Ok::<Seq<(Seq<char>, Seq<char>)>, crate::error::ErrorView>(rs + rs)
            &&& forall|x: (Seq<char>, Seq<char>)| #![trigger (rs + rs).contains(x)] (rs + rs).contains(x) <==> rs.contains(x)
        }),
{
    reveal_with_fuel(fold_clauses, 3);
    let rs = clause_result(ws, d, m, depth)->Ok_0;
    let one = seq![(false, ws)];
    let two = seq![(false, ws), (false, ws)];
    assert(one.drop_first() =~= Seq::<(bool, Seq<Seq<char>>)>::empty());
    assert(two.drop_first() =~= one);
    assert(combine(Seq::empty(), rs, false, false) =~= rs);
    assert forall|x: (Seq<char>, Seq<char>)| #![trigger (rs + rs).contains(x)] (rs + rs).contains(x) <==> rs.contains(x) by {
        if (rs + rs).contains(x) {
            let i = choose|i: int| 0 <= i < (rs + rs).len() && (rs + rs)[i] == x;
            if i >= rs.len() {
                assert(rs[i - rs.len()] == x);
            } else {
                assert(rs[i] == x);
            }
        }
        if rs.contains(x) {
            let i = choose|i: int| 0 <= i < rs.len() && rs[i] == x;
            assert((rs + rs)[i] == x);
        }
    }
}

proof fn lemma_insert_sorted_multiset(s: Seq<(Seq<char>, Seq<char>)>, x: (Seq<char>, Seq<char>))
    ensures
        insert_sorted(s, x).to_multiset() == s.to_multiset().insert(x),
    decreases s.len(),
{
    broadcast use vstd::seq_lib::group_to_multiset_ensures;
    broadcast use vstd::seq_lib::lemma_multiset_commutative;

    if s.len() > 0 {
        assert(s =~= seq![s[0]] + s.drop_first());
        assert(seq![x] =~= Seq::<(Seq<char>, Seq<char>)>::empty().push(x));
        assert(seq![s[0]] =~= Seq::<(Seq<char>, Seq<char>)>::empty().push(s[0]));
        if crate::resolver::distrib_order(x, s[0]) != std::cmp::Ordering::Less {
            lemma_insert_sorted_multiset(s.drop_first(), x);
        }
    } else {
        assert(seq![x] =~= Seq::<(Seq<char>, Seq<char>)>::empty().push(x));
    }
}

/// Sorting moves entries and neither adds nor drops any.
pub proof fn lemma_sort_is_permutation(s: Seq<(Seq<char>, Seq<char>)>)
    ensures
        sort_distribs(s).to_multiset() == s.to_multiset(),
        forall|x: (Seq<char>, Seq<char>)| #![trigger sort_distribs(s).contains(x)] sort_distribs(s).contains(x) <==> s.contains(x),
    decreases s.len(),
{
    broadcast use vstd::seq_lib::group_to_multiset_ensures;

    if s.len() > 0 {
        lemma_sort_is_permutation(s.drop_last());
        lemma_insert_sorted_multiset(sort_distribs(s.drop_last()), s.last());
        assert(s.drop_last().push(s.last()) =~= s);
    }
    assert forall|x: (Seq<char>, Seq<char>)| #![trigger sort_distribs(s).contains(x)] sort_distribs(s).contains(x) <==> s.contains(x) by {
        assert(sort_distribs(s).contains(x) <==> sort_distribs(s).to_multiset().count(x) > 0);
        assert(s.contains(x) <==> s.to_multiset().count(x) > 0);
    }
}

/// A resolved list holds each entry once, and exactly the entries of the
/// folded clauses.
pub proof fn lemma_resolved_entries(cs: Seq<(bool, Seq<Seq<char>>)>, d: DataView, m: bool, depth: nat)
    requires
        fold_clauses(Seq::empty(), cs, d, m, depth) is Ok,
    ensures
        ({
            let f = fold_clauses(Seq::empty(), cs, d, m, depth)->Ok_0;
            let r = resolve_clauses(cs, d, m, depth)->Ok_0;
            &&& resolve_clauses(cs, d, m, depth) is Ok
            &&& forall|x: (Seq<char>, Seq<char>)| #![trigger r.contains(x)] r.contains(x) <==> f.contains(x)
            &&& forall|i: int, j: int| 0 <= i < j < r.len() ==> r[i] != r[j]
        }),
{
    let f = fold_clauses(Seq::empty(), cs, d, m, depth)->Ok_0;
    lemma_sort_is_permutation(f);
    lemma_dedup_all(sort_distribs(f));
    let r = resolve_clauses(cs, d, m, depth)->Ok_0;
    assert forall|x: (Seq<char>, Seq<char>)| #![trigger r.contains(x)] r.contains(x) <==> f.contains(x) by {
        assert(dedup_all(sort_distribs(f)).contains(x) <==> sort_distribs(f).contains(x));
        assert(sort_distribs(f).contains(x) <==> f.contains(x));
    }
}

/// `X` and then `not X`, resolved, give an empty list.
pub proof fn lemma_resolve_not_cancels(ws: Seq<Seq<char>>, and2: bool, d: DataView, m: bool, depth: nat)
    requires
        !is_negated(ws),
        clause_result(ws, d, m, depth) is Ok,
    ensures
        resolve_clauses(seq![(false, ws), (and2, seq![seq!['n', 'o', 't']] + ws)], d, m, depth)
            == Ok::<Seq<(Seq<char>, Seq<char>)>, crate::error::ErrorView>(Seq::empty()),
{
    lemma_not_cancels(ws, and2, d, m, depth);
    let e = Seq::<(Seq<char>, Seq<char>)>::empty();
    assert(sort_distribs(e) == e);
    assert(dedup_all(e) == e);
}

/// `A and B`, resolved, holds exactly the entries that `A` and `B` both
/// give, each once; so `A and B` and `B and A` hold the same entries.
pub proof fn lemma_resolve_and_intersects(a: Seq<Seq<char>>, b: Seq<Seq<char>>, d: DataView, m: bool, depth: nat)
    requires
        !is_negated(a),
        !is_negated(b),
        clause_result(a, d, m, depth) is Ok,
        clause_result(b, d, m, depth) is Ok,
    ensures
        ({
            let ra = clause_result(a, d, m, depth)->Ok_0;
            let rb = clause_result(b, d, m, depth)->Ok_0;
            let r1 = resolve_clauses(seq![(false, a), (true, b)], d, m, depth);
            let r2 = resolve_clauses(seq![(false, b), (true, a)], d, m, depth);
            &&& r1 is Ok
            &&& r2 is Ok
            &&& forall|x: (Seq<char>, Seq<char>)|
                #![trigger (r1->Ok_0).contains(x)]
                (r1->Ok_0).contains(x) <==> ra.contains(x) && rb.contains(x)
            &&& forall|x: (Seq<char>, Seq<char>)|
                #![trigger (r2->Ok_0).contains(x)]
                (r2->Ok_0).contains(x) <==> (r1->Ok_0).contains(x)
            &&& forall|i: int, j: int| 0 <= i < j < (r1->Ok_0).len() ==> (r1->Ok_0)[i] != (r1->Ok_0)[j]
        }),
{
    lemma_and_intersects(a, b, d, m, depth);
    lemma_and_intersects(b, a, d, m, depth);
    lemma_resolved_entries(seq![(false, a), (true, b)], d, m, depth);
    lemma_resolved_entries(seq![(false, b), (true, a)], d, m, depth);
}

/// Repeating a clause changes nothing in what the resolved list holds: the
/// same entries, each once.
pub proof fn lemma_resolve_repeat(ws: Seq<Seq<char>>, d: DataView, m: bool, depth: nat)
    requires
        !is_negated(ws),
        clause_result(ws, d, m, depth) is Ok,
    ensures
        ({
            let once = resolve_clauses(seq![(false, ws)], d, m, depth);
            let twice = resolve_clauses(seq![(false, ws), (false, ws)], d, m, depth);
            &&& once is Ok
            &&& twice is Ok
            &&& forall|x: (Seq<char>, Seq<char>)|
                #![trigger (twice->Ok_0).contains(x)]
                (twice->Ok_0).contains(x) <==> (once->Ok_0).contains(x)
            &&& forall|i: int, j: int| 0 <= i < j < (twice->Ok_0).len() ==> (twice->Ok_0)[i] != (twice->Ok_0)[j]
        }),
{
    lemma_or_repeat_same_entries(ws, d, m, depth);
    lemma_resolved_entries(seq![(false, ws)], d, m, depth);
    lemma_resolved_entries(seq![(false, ws), (false, ws)], d, m, depth);
}

/// `since 1970`, resolved, holds every version of every browser whose
/// release date is not negative, each once.
pub proof fn lemma_resolve_since_epoch(d: DataView, m: bool, depth: nat)
    ensures
        ({
            let ws = seq![seq!['s', 'i', 'n', 'c', 'e'], seq!['1', '9', '7', '0']];
            let r = resolve_clauses(seq![(false, ws)], d, m, depth);
            &&& r is Ok
            &&& forall|x: (Seq<char>, Seq<char>)|
                #![trigger (r->Ok_0).contains(x)]
                (r->Ok_0).contains(x) <==> since_everything(d, 0, m).contains(x)
            &&& forall|i: int, j: int| 0 <= i < j < (r->Ok_0).len() ==> (r->Ok_0)[i] != (r->Ok_0)[j]
        }),
{
    let ws = seq![seq!['s', 'i', 'n', 'c', 'e'], seq!['1', '9', '7', '0']];
    lemma_since_epoch(d, m);
    assert(!is_negated(ws)) by {
        reveal_strlit("not");
        assert("not"@ =~= seq!['n', 'o', 't']);
        assert(lower(ws[0])[0] == 's');
    }
    reveal_strlit("unreleased");
    assert(lower(ws[0]).len() == 5);
    assert(!is_keyword(ws[0], "unreleased"@));
    let none = Ok::<Option<Seq<(Seq<char>, Seq<char>)>>, crate::error::ErrorView>(None);
    assert(crate::selectors::select_last_n_versions(ws, d, m) == none);
    assert(crate::selectors::select_last_n_major(ws, d, m) == none);
    assert(crate::ranges::select_last_electron(ws, d) == none);
    assert(crate::selectors::select_last_n_browser(ws, d, m) == none);
    assert(crate::selectors::select_unreleased(ws, d, m) == none);
    assert(crate::resolver::first_selected(ws, d, m) == Ok::<Option<Seq<(Seq<char>, Seq<char>)>>, crate::error::ErrorView>(
        Some(since_everything(d, 0, m)),
    ));
    assert(clause_result(ws, d, m, depth) == Ok::<Seq<(Seq<char>, Seq<char>)>, crate::error::ErrorView>(
        since_everything(d, 0, m),
    ));
    let one = seq![(false, ws)];
    assert(one.drop_first() =~= Seq::<(bool, Seq<Seq<char>>)>::empty());
    assert(combine(Seq::empty(), since_everything(d, 0, m), false, false) =~= since_everything(d, 0, m));
    lemma_resolved_entries(one, d, m, depth);
}

proof fn lemma_flatten_contains<A>(s: Seq<Seq<A>>, x: A)
    requires
        s.flatten().contains(x),
    ensures
        exists|i: int| 0 <= i < s.len() && (#[trigger] s[i]).contains(x),
    decreases s.len(),
{
    if s.len() == 0 {
        assert(s.flatten() =~= Seq::<A>::empty());
    } else {
        let d = s.drop_last();
        assert(d.push(s.last()) =~= s);
        d.lemma_flatten_push(s.last());
        let k = choose|k: int| 0 <= k < s.flatten().len() && s.flatten()[k] == x;
        if k < d.flatten().len() {
            assert(d.flatten()[k] == x);
            lemma_flatten_contains(d, x);
            let i = choose|i: int| 0 <= i < d.len() && (#[trigger] d[i]).contains(x);
            assert(s[i] == d[i]);
        } else {
            assert(s.last()[k - d.flatten().len()] == x);
            assert(s[s.len() - 1].contains(x));
        }
    }
}

/// Every entry of `last N versions` is a released version of a browser of the
/// dataset, under the name that browser resolves to.
pub proof fn lemma_last_n_versions_released(d: DataView, count: int, m: bool, x: (Seq<char>, Seq<char>))
    requires
        count >= 0,
        last_n_versions(d, count, m).contains(x),
    ensures
        exists|i: int|
            0 <= i < d.browsers.len() && ((#[trigger] lookup(d, d.browsers[i].name, m)) matches Some((n, st)) && x.0 == n
                && st.released.contains(x.1)),
{
    let rows = d.browsers.map_values(|b: StatView| last_n_of(d, b, count, m));
    lemma_flatten_contains(rows, x);
    let i = choose|i: int| 0 <= i < rows.len() && (#[trigger] rows[i]).contains(x);
    let b = d.browsers[i];
    assert(rows[i] == last_n_of(d, b, count, m));
    match lookup(d, b.name, m) {
        Some((n, st)) => {
            let row = named(n, newest(st.released, effective_count(d, n, count, m)));
            let j = choose|j: int| 0 <= j < row.len() && row[j] == x;
            let k = st.released.len() - 1 - j;
            assert(effective_count(d, n, count, m) >= 0);
            assert(0 <= k < st.released.len());
            assert(st.released[k] == x.1);
            assert(st.released.contains(x.1));
        },
        None => {
            assert(rows[i] =~= Seq::<(Seq<char>, Seq<char>)>::empty());
        },
    }
}

} // verus!
