use std::cmp::Ordering;
use vstd::prelude::*;
use crate::text::{all_digits, copy_chars, chars_of, digits_value, parse_digits, split_by, split_chars, views};

verus! {

/// A segment without its sign, if it has one.
pub open spec fn unsigned_part(s: Seq<char>) -> Seq<char> {
    if s.len() > 0 && (s[0] == '+' || s[0] == '-') {
        s.drop_first()
    } else {
        s
    }
}

/// The number a dot-separated segment stands for: an integer, with an
/// optional sign, that fits an `i32`, or `0` for anything else.
pub open spec fn seg_num(s: Seq<char>) -> int {
    let u = unsigned_part(s);
    let negative = s.len() > 0 && s[0] == '-';
    if u.len() > 0 && all_digits(u) {
        if negative && digits_value(u) <= 2147483648 {
            -digits_value(u)
        } else if !negative && digits_value(u) <= i32::MAX {
            digits_value(u)
        } else {
            0
        }
    } else {
        0
    }
}

/// A version without its pre-release suffix: what stands before the first `-`.
pub open spec fn release_part(v: Seq<char>) -> Seq<char> {
    split_by(v, |c: char| c == '-')[0]
}

/// The comparator on versions as written: pre-release suffixes are dropped,
/// then the segments are compared, bigger numbers first.
pub open spec fn semver_order(a: Seq<char>, b: Seq<char>) -> Ordering {
    version_order(release_part(a), release_part(b))
}

pub open spec fn segments(s: Seq<char>) -> Seq<Seq<char>> {
    split_by(s, |c: char| c == '.')
}

/// Pairwise comparison of segments, bigger numbers first; it stops where
/// either side runs out.
pub open spec fn compare_segs(a: Seq<Seq<char>>, b: Seq<Seq<char>>) -> Ordering
    decreases a.len(),
{
    if a.len() == 0 || b.len() == 0 {
        Ordering::Equal
    } else if seg_num(b[0]) < seg_num(a[0]) {
        Ordering::Less
    } else if seg_num(b[0]) > seg_num(a[0]) {
        Ordering::Greater
    } else {
        compare_segs(a.drop_first(), b.drop_first())
    }
}

pub open spec fn version_order(a: Seq<char>, b: Seq<char>) -> Ordering {
    compare_segs(segments(a), segments(b))
}

pub open spec fn first_two(s: Seq<Seq<char>>) -> Seq<Seq<char>> {
    if s.len() < 2 {
        s
    } else {
        s.take(2)
    }
}

pub open spec fn loose_version_order(a: Seq<char>, b: Seq<char>) -> Ordering {
    compare_segs(first_two(segments(a)), first_two(segments(b)))
}

pub open spec fn flip(o: Ordering) -> Ordering {
    match o {
        Ordering::Less => Ordering::Greater,
        Ordering::Greater => Ordering::Less,
        Ordering::Equal => Ordering::Equal,
    }
}

pub(crate) fn seg_num_exec(s: &Vec<char>) -> (r: i64)
    ensures
        r == seg_num(s@),
        i32::MIN <= r <= i32::MAX,
{
    let signed = s.len() > 0 && (s[0] == '+' || s[0] == '-');
    let negative = s.len() > 0 && s[0] == '-';
    let u = if signed {
        crate::usage::sub_chars(s, 1, s.len())
    } else {
        copy_chars(s)
    };
    proof {
        if signed {
            assert(u@ =~= s@.drop_first());
        }
    }
    if !(u.len() > 0 && crate::text::all_digits_exec(&u)) {
        return 0;
    }
    proof {
        crate::text::lemma_digits_value_nonneg(u@);
    }
    match parse_digits(&u) {
        Some(v) => {
            if negative && v <= 2147483648 {
                -(v as i64)
            } else if !negative && v <= i32::MAX as u64 {
                v as i64
            } else {
                0
            }
        },
        None => 0,
    }
}

/// The release part of a version, see [`release_part`].
pub(crate) fn release_part_exec(v: &str) -> (r: String)
    ensures
        r@ == release_part(v@),
{
    let cs = chars_of(v);
    let p = split_chars(&cs, '-');
    proof {
        crate::text::lemma_split_by_nonempty(cs@, |c: char| c == '-');
    }
    crate::text::string_of(&p[0])
}

fn compare_segs_exec(a: &Vec<Vec<char>>, b: &Vec<Vec<char>>) -> (r: Ordering)
    ensures
        r == compare_segs(views(a@), views(b@)),
{
    let ghost va = views(a@);
    let ghost vb = views(b@);
    let mut i: usize = 0;
    proof {
        assert(va.skip(0) =~= va);
        assert(vb.skip(0) =~= vb);
    }
    while i < a.len() && i < b.len()
        invariant
            va == views(a@),
            vb == views(b@),
            i <= a@.len(),
            i <= b@.len(),
            compare_segs(va, vb) == compare_segs(va.skip(i as int), vb.skip(i as int)),
        decreases a@.len() - i,
    {
        let x = seg_num_exec(&a[i]);
        let y = seg_num_exec(&b[i]);
        proof {
            let sa = va.skip(i as int);
            let sb = vb.skip(i as int);
            assert(sa[0] == a@[i as int]@);
            assert(sb[0] == b@[i as int]@);
            assert(sa.drop_first() =~= va.skip(i + 1));
            assert(sb.drop_first() =~= vb.skip(i + 1));
        }
        if y < x {
            return Ordering::Less;
        } else if y > x {
            return Ordering::Greater;
        }
        i = i + 1;
    }
    proof {
        let sa = va.skip(i as int);
        let sb = vb.skip(i as int);
        assert(sa.len() == 0 || sb.len() == 0);
    }
    Ordering::Equal
}

fn first_two_exec(v: Vec<Vec<char>>) -> (r: Vec<Vec<char>>)
    ensures
        views(r@) == first_two(views(v@)),
{
    let mut r: Vec<Vec<char>> = Vec::new();
    let mut i: usize = 0;
    while i < v.len() && i < 2
        invariant
            i <= v@.len(),
            i <= 2,
            r@.len() == i,
            views(r@) == views(v@).take(i as int),
        decreases 2 - i,
    {
        let ghost old_r = r@;
        r.push(copy_chars(&v[i]));
        proof {
            assert(r@ == old_r.push(r@[i as int]));
            assert(views(r@) =~= views(old_r).push(v@[i as int]@));
            assert(views(v@).take(i + 1) =~= views(v@).take(i as int).push(v@[i as int]@));
        }
        i = i + 1;
    }
    proof {
        if v@.len() < 2 {
            assert(views(v@).take(i as int) =~= views(v@));
        }
    }
    r
}

/// Compares two versions segment by segment, the bigger one first, after
/// dropping any pre-release suffix.
pub fn semver_compare(a: &str, b: &str) -> (r: Ordering)
    ensures
        r == semver_order(a@, b@),
{
    let ra = release_part_exec(a);
    let rb = release_part_exec(b);
    let ca = chars_of(ra.as_str());
    let cb = chars_of(rb.as_str());
    let sa = split_chars(&ca, '.');
    let sb = split_chars(&cb, '.');
    compare_segs_exec(&sa, &sb)
}

/// Like [`semver_compare`], on the first two segments only.
pub fn semver_loose_compare(a: &str, b: &str) -> (r: Ordering)
    ensures
        r == loose_version_order(release_part(a@), release_part(b@)),
{
    let ra = release_part_exec(a);
    let rb = release_part_exec(b);
    let ca = chars_of(ra.as_str());
    let cb = chars_of(rb.as_str());
    let sa = first_two_exec(split_chars(&ca, '.'));
    let sb = first_two_exec(split_chars(&cb, '.'));
    compare_segs_exec(&sa, &sb)
}

proof fn lemma_compare_segs_flip(a: Seq<Seq<char>>, b: Seq<Seq<char>>)
    ensures
        compare_segs(a, b) == flip(compare_segs(b, a)),
    decreases a.len(),
{
    if a.len() > 0 && b.len() > 0 {
        lemma_compare_segs_flip(a.drop_first(), b.drop_first());
    }
}

proof fn lemma_compare_segs_refl(a: Seq<Seq<char>>)
    ensures
        compare_segs(a, a) == Ordering::Equal,
    decreases a.len(),
{
    if a.len() > 0 {
        lemma_compare_segs_refl(a.drop_first());
    }
}

/// Every version is equal to itself, and swapping the operands reverses the
/// outcome.
pub proof fn lemma_version_order_symmetric(a: Seq<char>, b: Seq<char>)
    ensures
        version_order(a, a) == Ordering::Equal,
        version_order(a, b) == flip(version_order(b, a)),
        loose_version_order(a, a) == Ordering::Equal,
        loose_version_order(a, b) == flip(loose_version_order(b, a)),
        semver_order(a, a) == Ordering::Equal,
        semver_order(a, b) == flip(semver_order(b, a)),
{
    lemma_compare_segs_refl(segments(release_part(a)));
    lemma_compare_segs_flip(segments(release_part(a)), segments(release_part(b)));
    lemma_compare_segs_refl(segments(a));
    lemma_compare_segs_flip(segments(a), segments(b));
    lemma_compare_segs_refl(first_two(segments(a)));
    lemma_compare_segs_flip(first_two(segments(a)), first_two(segments(b)));
}

proof fn lemma_compare_segs_trans(a: Seq<Seq<char>>, b: Seq<Seq<char>>, c: Seq<Seq<char>>)
    requires
        a.len() == b.len(),
        b.len() == c.len(),
        compare_segs(a, b) != Ordering::Greater,
        compare_segs(b, c) != Ordering::Greater,
    ensures
        compare_segs(a, c) != Ordering::Greater,
        compare_segs(a, b) == Ordering::Less || compare_segs(b, c) == Ordering::Less ==> compare_segs(a, c)
            == Ordering::Less,
    decreases a.len(),
{
    if a.len() > 0 && seg_num(a[0]) == seg_num(b[0]) && seg_num(b[0]) == seg_num(c[0]) {
        lemma_compare_segs_trans(a.drop_first(), b.drop_first(), c.drop_first());
    }
}

/// Among versions with the same number of segments the comparator is
/// transitive, so it orders them as a total preorder.
pub proof fn lemma_version_order_transitive(a: Seq<char>, b: Seq<char>, c: Seq<char>)
    requires
        segments(a).len() == segments(b).len(),
        segments(b).len() == segments(c).len(),
        version_order(a, b) != Ordering::Greater,
        version_order(b, c) != Ordering::Greater,
    ensures
        version_order(a, c) != Ordering::Greater,
        version_order(a, b) == Ordering::Less || version_order(b, c) == Ordering::Less ==> version_order(a, c)
            == Ordering::Less,
{
    lemma_compare_segs_trans(segments(a), segments(b), segments(c));
}

} // verus!
