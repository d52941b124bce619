use vstd::prelude::*;

verus! {

/// Whitespace as the query grammar understands it.
pub open spec fn is_space(c: char) -> bool {
    c == ' ' || c == '\t' || c == '\n' || c == '\r'
}

pub open spec fn is_digit(c: char) -> bool {
    '0' <= c && c <= '9'
}

pub open spec fn lower_char(c: char) -> char {
    if 'A' <= c && c <= 'Z' {
        (((c as u8) + 32) as u8) as char
    } else {
        c
    }
}

pub open spec fn lower(s: Seq<char>) -> Seq<char> {
    s.map_values(|c: char| lower_char(c))
}

/// The characters of a string, one by one.
pub fn chars_of(s: &str) -> (r: Vec<char>)
    ensures
        r@ == s@,
{
    let n = s.unicode_len();
    let mut r: Vec<char> = Vec::new();
    let mut i: usize = 0;
    while i < n
        invariant
            n == s@.len(),
            i <= n,
            r@ == s@.subrange(0, i as int),
        decreases n - i,
    {
        r.push(s.get_char(i));
        i = i + 1;
    }
    r
}

fn lower_char_exec(c: char) -> (r: char)
    ensures
        r == lower_char(c),
{
    if 'A' <= c && c <= 'Z' {
        (((c as u8) + 32) as u8) as char
    } else {
        c
    }
}


/// The ASCII-lowercase form of a character sequence.
pub fn lower_chars(s: &Vec<char>) -> (r: Vec<char>)
    ensures
        r@ == lower(s@),
{
    let mut r: Vec<char> = Vec::new();
    let mut i: usize = 0;
    while i < s.len()
        invariant
            i <= s@.len(),
            r@ == lower(s@.subrange(0, i as int)),
        decreases s@.len() - i,
    {
        r.push(lower_char_exec(s[i]));
        proof {
            assert(lower(s@.subrange(0, i + 1)) =~= lower(s@.subrange(0, i as int)).push(lower_char(s@[i as int])));
        }
        i = i + 1;
    }
    proof {
        assert(s@.subrange(0, s@.len() as int) =~= s@);
    }
    r
}

/// Splits a sequence at every element that satisfies `sep`, dropping the separators.
/// There is always at least one piece.
pub open spec fn split_by<A>(s: Seq<A>, sep: spec_fn(A) -> bool) -> Seq<Seq<A>>
    decreases s.len(),
{
    if s.len() == 0 {
        seq![Seq::<A>::empty()]
    } else {
        let r = split_by(s.drop_last(), sep);
        if sep(s.last()) {
            r.push(Seq::<A>::empty())
        } else {
            r.update(r.len() - 1, r.last().push(s.last()))
        }
    }
}

pub proof fn lemma_split_by_nonempty<A>(s: Seq<A>, sep: spec_fn(A) -> bool)
    ensures
        split_by(s, sep).len() >= 1,
    decreases s.len(),
{
    if s.len() > 0 {
        lemma_split_by_nonempty(s.drop_last(), sep);
    }
}

pub open spec fn nonempty(w: Seq<char>) -> bool {
    w.len() > 0
}

/// The whitespace-separated words of a text.
pub open spec fn words(s: Seq<char>) -> Seq<Seq<char>> {
    split_by(s, |c: char| is_space(c)).filter(|w: Seq<char>| nonempty(w))
}

pub open spec fn views(v: Seq<Vec<char>>) -> Seq<Seq<char>> {
    v.map_values(|w: Vec<char>| w@)
}

pub fn is_space_exec(c: char) -> (r: bool)
    ensures
        r == is_space(c),
{
    c == ' ' || c == '\t' || c == '\n' || c == '\r'
}

/// Splits a text at each occurrence of `sep`.
pub fn split_chars(s: &Vec<char>, sep: char) -> (r: Vec<Vec<char>>)
    ensures
        views(r@) == split_by(s@, |c: char| c == sep),
{
    let ghost f = |c: char| c == sep;
    let mut r: Vec<Vec<char>> = Vec::new();
    let mut cur: Vec<char> = Vec::new();
    let mut i: usize = 0;
    while i < s.len()
        invariant
            i <= s@.len(),
            f == (|c: char| c == sep),
            views(r@).push(cur@) == split_by(s@.subrange(0, i as int), f),
        decreases s@.len() - i,
    {
        let c = s[i];
        proof {
            let t = s@.subrange(0, i + 1);
            assert(t.drop_last() =~= s@.subrange(0, i as int));
            assert(t.last() == c);
        }
        if c == sep {
            let done = cur;
            r.push(done);
            cur = Vec::new();
            proof {
                assert(views(r@) =~= views(r@.drop_last()).push(done@));
                assert(views(r@).push(cur@) =~= split_by(s@.subrange(0, i + 1), f));
            }
        } else {
            let ghost before = cur@;
            cur.push(c);
            proof {
                assert(views(r@).push(cur@) =~= views(r@).push(before).update(views(r@).len() as int, before.push(c)));
            }
        }
        i = i + 1;
    }
    proof {
        assert(s@.subrange(0, s@.len() as int) =~= s@);
    }
    r.push(cur);
    proof {
        assert(views(r@) =~= views(r@.drop_last()).push(r@.last()@));
    }
    r
}

/// Splits a text into its whitespace-separated words.
pub fn split_words(s: &Vec<char>) -> (r: Vec<Vec<char>>)
    ensures
        views(r@) == words(s@),
{
    let ghost f = |c: char| is_space(c);
    let ghost p = |w: Seq<char>| nonempty(w);
    let mut pieces: Vec<Vec<char>> = Vec::new();
    let mut cur: Vec<char> = Vec::new();
    let mut i: usize = 0;
    while i < s.len()
        invariant
            i <= s@.len(),
            f == (|c: char| is_space(c)),
            views(pieces@).push(cur@) == split_by(s@.subrange(0, i as int), f),
        decreases s@.len() - i,
    {
        let c = s[i];
        proof {
            let t = s@.subrange(0, i + 1);
            assert(t.drop_last() =~= s@.subrange(0, i as int));
            assert(t.last() == c);
        }
        if is_space_exec(c) {
            let done = cur;
            pieces.push(done);
            cur = Vec::new();
            proof {
                assert(views(pieces@) =~= views(pieces@.drop_last()).push(done@));
                assert(views(pieces@).push(cur@) =~= split_by(s@.subrange(0, i + 1), f));
            }
        } else {
            let ghost before = cur@;
            cur.push(c);
            proof {
                assert(views(pieces@).push(cur@) =~= views(pieces@).push(before).update(views(pieces@).len() as int, before.push(c)));
            }
        }
        i = i + 1;
    }
    proof {
        assert(s@.subrange(0, s@.len() as int) =~= s@);
    }
    pieces.push(cur);
    proof {
        assert(views(pieces@) =~= views(pieces@.drop_last()).push(pieces@.last()@));
    }
    let ghost all = views(pieces@);
    let mut r: Vec<Vec<char>> = Vec::new();
    let mut j: usize = 0;
    while j < pieces.len()
        invariant
            j <= pieces@.len(),
            all == views(pieces@),
            p == (|w: Seq<char>| nonempty(w)),
            views(r@) == all.subrange(0, j as int).filter(p),
        decreases pieces@.len() - j,
    {
        let w = pieces[j].clone();
        proof {
            let t = all.subrange(0, j + 1);
            assert(t.drop_last() =~= all.subrange(0, j as int));
            assert(t.last() == w@);
            reveal(Seq::filter);
        }
        if w.len() > 0 {
            r.push(w);
            proof {
                assert(views(r@) =~= views(r@.drop_last()).push(w@));
            }
        }
        j = j + 1;
    }
    proof {
        assert(all.subrange(0, all.len() as int) =~= all);
        assert(all == split_by(s@, f));
        assert(views(r@) == split_by(s@, f).filter(p));
    }
    r
}


pub fn is_digit_exec(c: char) -> (r: bool)
    ensures
        r == is_digit(c),
{
    '0' <= c && c <= '9'
}

pub open spec fn digit_val(c: char) -> int {
    (c as int) - ('0' as int)
}

pub open spec fn all_digits(s: Seq<char>) -> bool {
    forall|i: int| 0 <= i < s.len() ==> is_digit(#[trigger] s[i])
}

/// The decimal value of a run of digits.
pub open spec fn digits_value(s: Seq<char>) -> int
    decreases s.len(),
{
    if s.len() == 0 {
        0
    } else {
        digits_value(s.drop_last()) * 10 + digit_val(s.last())
    }
}

pub proof fn lemma_digits_value_prefix(s: Seq<char>, i: int)
    requires
        all_digits(s),
        0 <= i <= s.len(),
    ensures
        0 <= digits_value(s.subrange(0, i)) <= digits_value(s),
    decreases s.len() - i,
{
    if i < s.len() {
        lemma_digits_value_prefix(s, i + 1);
        let t = s.subrange(0, i + 1);
        assert(t.drop_last() =~= s.subrange(0, i));
        assert(is_digit(t.last()));
    } else {
        assert(s.subrange(0, i) =~= s);
        lemma_digits_value_nonneg(s);
    }
}

pub proof fn lemma_digits_value_nonneg(s: Seq<char>)
    requires
        all_digits(s),
    ensures
        digits_value(s) >= 0,
    decreases s.len(),
{
    if s.len() > 0 {
        assert(is_digit(s.last()));
        lemma_digits_value_nonneg(s.drop_last());
    }
}

/// Reads a run of digits as an unsigned integer; `None` where it does not fit.
pub fn parse_digits(s: &Vec<char>) -> (r: Option<u64>)
    requires
        all_digits(s@),
    ensures
        r == (if digits_value(s@) <= u64::MAX {
            Some(digits_value(s@) as u64)
        } else {
            None::<u64>
        }),
{
    let mut acc: u64 = 0;
    let mut i: usize = 0;
    while i < s.len()
        invariant
            i <= s@.len(),
            all_digits(s@),
            acc == digits_value(s@.subrange(0, i as int)),
        decreases s@.len() - i,
    {
        let c = s[i];
        proof {
            let t = s@.subrange(0, i + 1);
            assert(t.drop_last() =~= s@.subrange(0, i as int));
            assert(t.last() == c);
            assert(is_digit(c));
        }
        let d = (c as u32 - '0' as u32) as u64;
        if acc > (u64::MAX - d) / 10 {
            proof {
                lemma_digits_value_prefix(s@, i + 1);
            }
            return None;
        }
        acc = acc * 10 + d;
        i = i + 1;
    }
    proof {
        assert(s@.subrange(0, s@.len() as int) =~= s@);
    }
    Some(acc)
}

/// A fresh copy of a character sequence.
pub fn copy_chars(v: &Vec<char>) -> (r: Vec<char>)
    ensures
        r@ == v@,
{
    let mut r: Vec<char> = Vec::new();
    let mut i: usize = 0;
    while i < v.len()
        invariant
            i <= v@.len(),
            r@ == v@.subrange(0, i as int),
        decreases v@.len() - i,
    {
        r.push(v[i]);
        i = i + 1;
    }
    proof {
        assert(v@.subrange(0, v@.len() as int) =~= v@);
    }
    r
}

/// Whether two strings hold the same characters.
pub fn str_eq(a: &str, b: &str) -> (r: bool)
    ensures
        r == (a@ == b@),
{
    let n = a.unicode_len();
    let m = b.unicode_len();
    if n != m {
        return false;
    }
    let mut i: usize = 0;
    while i < n
        invariant
            n == a@.len(),
            m == b@.len(),
            n == m,
            i <= n,
            a@.subrange(0, i as int) == b@.subrange(0, i as int),
        decreases n - i,
    {
        if a.get_char(i) != b.get_char(i) {
            return false;
        }
        proof {
            assert(a@.subrange(0, i + 1) =~= a@.subrange(0, i as int).push(a@[i as int]));
            assert(b@.subrange(0, i + 1) =~= b@.subrange(0, i as int).push(b@[i as int]));
        }
        i = i + 1;
    }
    proof {
        assert(a@.subrange(0, n as int) =~= a@);
        assert(b@.subrange(0, n as int) =~= b@);
    }
    true
}

/// Relies on `FromIterator<char>` for `String`: the string holds the given
/// characters in order.
#[verifier::external_body]
pub fn string_of(cs: &Vec<char>) -> (r: String)
    ensures
        r@ == cs@,
{
    cs.iter().collect()
}

/// Whether two character sequences are equal.
pub fn chars_eq(a: &Vec<char>, b: &Vec<char>) -> (r: bool)
    ensures
        r == (a@ == b@),
{
    if a.len() != b.len() {
        return false;
    }
    let mut i: usize = 0;
    while i < a.len()
        invariant
            a@.len() == b@.len(),
            i <= a@.len(),
            a@.subrange(0, i as int) == b@.subrange(0, i as int),
        decreases a@.len() - i,
    {
        if a[i] != b[i] {
            return false;
        }
        proof {
            assert(a@.subrange(0, i + 1) =~= a@.subrange(0, i as int).push(a@[i as int]));
            assert(b@.subrange(0, i + 1) =~= b@.subrange(0, i as int).push(b@[i as int]));
        }
        i = i + 1;
    }
    proof {
        assert(a@.subrange(0, a@.len() as int) =~= a@);
        assert(b@.subrange(0, b@.len() as int) =~= b@);
    }
    true
}

/// Whether a word is the given keyword, in any case.
pub open spec fn is_keyword(w: Seq<char>, kw: Seq<char>) -> bool {
    lower(w) == kw
}

pub fn is_keyword_exec(w: &Vec<char>, kw: &str) -> (r: bool)
    ensures
        r == is_keyword(w@, kw@),
{
    chars_eq(&lower_chars(w), &chars_of(kw))
}

pub open spec fn views2(v: Seq<Vec<Vec<char>>>) -> Seq<Seq<Seq<char>>> {
    v.map_values(|x: Vec<Vec<char>>| views(x@))
}

/// A fresh copy of a sequence of words.
pub fn copy_words(v: &Vec<Vec<char>>) -> (r: Vec<Vec<char>>)
    ensures
        views(r@) == views(v@),
{
    let mut r: Vec<Vec<char>> = Vec::new();
    let mut i: usize = 0;
    while i < v.len()
        invariant
            i <= v@.len(),
            views(r@) == views(v@).subrange(0, i as int),
        decreases v@.len() - i,
    {
        let ghost before = r@;
        r.push(copy_chars(&v[i]));
        proof {
            assert(views(r@) =~= views(before).push(v@[i as int]@));
            assert(views(v@).subrange(0, i + 1) =~= views(v@).subrange(0, i as int).push(v@[i as int]@));
        }
        i = i + 1;
    }
    proof {
        assert(views(v@).subrange(0, v@.len() as int) =~= views(v@));
    }
    r
}

/// Splits a sequence of words at each occurrence of a keyword.
pub fn split_at_keyword(ws: &Vec<Vec<char>>, kw: &str) -> (r: Vec<Vec<Vec<char>>>)
    ensures
        views2(r@) == split_by(views(ws@), |w: Seq<char>| is_keyword(w, kw@)),
{
    let ghost f = |w: Seq<char>| is_keyword(w, kw@);
    let ghost s = views(ws@);
    let mut r: Vec<Vec<Vec<char>>> = Vec::new();
    let mut cur: Vec<Vec<char>> = Vec::new();
    let mut i: usize = 0;
    proof {
        assert(s.subrange(0, 0) =~= Seq::<Seq<char>>::empty());
        assert(views(cur@) =~= Seq::<Seq<char>>::empty());
        assert(views2(r@).push(views(cur@)) =~= seq![Seq::<Seq<char>>::empty()]);
    }
    while i < ws.len()
        invariant
            i <= ws@.len(),
            s == views(ws@),
            f == (|w: Seq<char>| is_keyword(w, kw@)),
            views2(r@).push(views(cur@)) == split_by(s.subrange(0, i as int), f),
        decreases ws@.len() - i,
    {
        proof {
            let t = s.subrange(0, i + 1);
            assert(t.drop_last() =~= s.subrange(0, i as int));
            assert(t.last() == ws@[i as int]@);
        }
        if is_keyword_exec(&ws[i], kw) {
            let done = cur;
            r.push(done);
            cur = Vec::new();
            proof {
                assert(views2(r@) =~= views2(r@.drop_last()).push(views(done@)));
                assert(views(cur@) =~= Seq::<Seq<char>>::empty());
                assert(views2(r@).push(views(cur@)) =~= split_by(s.subrange(0, i + 1), f));
            }
        } else {
            let ghost before = views(cur@);
            let ghost old_cur = cur@;
            cur.push(copy_chars(&ws[i]));
            proof {
                assert(views(cur@) =~= before.push(ws@[i as int]@));
                assert(views2(r@).push(views(cur@)) =~= views2(r@).push(before).update(
                    views2(r@).len() as int,
                    before.push(ws@[i as int]@),
                ));
            }
        }
        i = i + 1;
    }
    proof {
        assert(s.subrange(0, s.len() as int) =~= s);
    }
    let ghost last = views(cur@);
    r.push(cur);
    proof {
        assert(views2(r@) =~= views2(r@.drop_last()).push(last));
    }
    r
}

pub fn all_digits_exec(s: &Vec<char>) -> (r: bool)
    ensures
        r == all_digits(s@),
{
    let mut i: usize = 0;
    while i < s.len()
        invariant
            i <= s@.len(),
            all_digits(s@.subrange(0, i as int)),
        decreases s@.len() - i,
    {
        if !is_digit_exec(s[i]) {
            proof {
                assert(!is_digit(s@[i as int]));
            }
            return false;
        }
        proof {
            assert forall|k: int| 0 <= k < i + 1 implies is_digit(#[trigger] s@.subrange(0, i + 1)[k]) by {
                if k < i {
                    assert(s@.subrange(0, i + 1)[k] == s@.subrange(0, i as int)[k]);
                }
            }
        }
        i = i + 1;
    }
    proof {
        assert(s@.subrange(0, s@.len() as int) =~= s@);
    }
    true
}

pub open spec fn pad_fraction(f: Seq<char>) -> Seq<char> {
    if f.len() >= 6 {
        f.take(6)
    } else {
        f + Seq::new((6 - f.len()) as nat, |i: int| '0')
    }
}

/// The integer and fractional digits of a decimal number written `12`,
/// `12.5`, `.5` or `12.`.
pub open spec fn decimal_parts(s: Seq<char>) -> Option<(Seq<char>, Seq<char>)> {
    let p = split_by(s, |c: char| c == '.');
    if p.len() == 1 && s.len() > 0 && all_digits(s) {
        Some((s, Seq::<char>::empty()))
    } else if p.len() == 2 && all_digits(p[0]) && all_digits(p[1]) && (p[0].len() > 0 || p[1].len() > 0) {
        Some((p[0], p[1]))
    } else {
        None
    }
}

/// A decimal number in millionths, further digits dropped.
pub open spec fn decimal_value(s: Seq<char>) -> Option<int> {
    match decimal_parts(s) {
        Some((i, f)) => Some(digits_value(i) * 1000000 + digits_value(pad_fraction(f))),
        None => None,
    }
}

proof fn lemma_pad_fraction(f: Seq<char>)
    requires
        all_digits(f),
    ensures
        all_digits(pad_fraction(f)),
        pad_fraction(f).len() == 6,
        0 <= digits_value(pad_fraction(f)) < 1000000,
{
    let p = pad_fraction(f);
    assert forall|k: int| 0 <= k < p.len() implies is_digit(#[trigger] p[k]) by {
        if k < f.len() {
            assert(p[k] == f[k]);
        }
    }
    lemma_digits_value_nonneg(p);
    lemma_digits_value_bound(p);
    reveal_with_fuel(vstd::arithmetic::power::pow, 7);
    assert(vstd::arithmetic::power::pow(10, 6) == 1000000);
}

proof fn lemma_digits_value_bound(s: Seq<char>)
    requires
        all_digits(s),
    ensures
        digits_value(s) < vstd::arithmetic::power::pow(10, s.len()),
    decreases s.len(),
{
    vstd::arithmetic::power::lemma_pow_positive(10, s.len());
    if s.len() > 0 {
        assert(is_digit(s.last()));
        lemma_digits_value_bound(s.drop_last());
        vstd::arithmetic::power::lemma_pow_adds(10, (s.len() - 1) as nat, 1);
        vstd::arithmetic::power::lemma_pow1(10);
    } else {
        vstd::arithmetic::power::lemma_pow0(10);
    }
}

pub proof fn lemma_decimal_value_nonneg(s: Seq<char>)
    ensures
        decimal_value(s) matches Some(v) ==> v >= 0,
{
    match decimal_parts(s) {
        Some((i, f)) => {
            lemma_digits_value_nonneg(i);
            lemma_pad_fraction(f);
        },
        None => {},
    }
}

/// The digits after a decimal point, in millionths.
pub fn fraction_millionths(fp: &Vec<char>) -> (r: u64)
    requires
        all_digits(fp@),
    ensures
        r == digits_value(pad_fraction(fp@)),
        r < 1000000,
{
    let mut padded: Vec<char> = Vec::new();
    let mut k: usize = 0;
    while k < 6
        invariant
            k <= 6,
            padded@ == pad_fraction(fp@).take(k as int),
            all_digits(fp@),
        decreases 6 - k,
    {
        if k < fp.len() {
            padded.push(fp[k]);
        } else {
            padded.push('0');
        }
        proof {
            assert(padded@ =~= pad_fraction(fp@).take(k + 1));
        }
        k = k + 1;
    }
    proof {
        lemma_pad_fraction(fp@);
        assert(padded@ =~= pad_fraction(fp@));
    }
    match parse_digits(&padded) {
        Some(v) => v,
        None => 0,
    }
}

/// Whether a text is a decimal number.
pub fn is_decimal(s: &Vec<char>) -> (r: bool)
    ensures
        r == decimal_parts(s@).is_some(),
{
    let p = split_chars(s, '.');
    proof {
        lemma_split_by_nonempty(s@, |c: char| c == '.');
    }
    if p.len() == 1 {
        s.len() > 0 && all_digits_exec(s)
    } else if p.len() == 2 {
        all_digits_exec(&p[0]) && all_digits_exec(&p[1]) && (p[0].len() > 0 || p[1].len() > 0)
    } else {
        false
    }
}

/// Reads a decimal number in millionths; `None` where it is no number or
/// does not fit.
pub fn parse_decimal(s: &Vec<char>) -> (r: Option<u64>)
    ensures
        r == match decimal_value(s@) {
            Some(v) => if v <= u64::MAX {
                Some(v as u64)
            } else {
                None::<u64>
            },
            None => None::<u64>,
        },
        decimal_value(s@) matches Some(v) ==> v >= 0,
{
    proof {
        lemma_decimal_value_nonneg(s@);
    }
    let p = split_chars(s, '.');
    proof {
        lemma_split_by_nonempty(s@, |c: char| c == '.');
    }
    let (ip, fp): (Vec<char>, Vec<char>) = if p.len() == 1 {
        if !(s.len() > 0 && all_digits_exec(s)) {
            return None;
        }
        (copy_chars(s), Vec::new())
    } else if p.len() == 2 {
        if !(all_digits_exec(&p[0]) && all_digits_exec(&p[1]) && (p[0].len() > 0 || p[1].len() > 0)) {
            return None;
        }
        (copy_chars(&p[0]), copy_chars(&p[1]))
    } else {
        return None;
    };
    assert(decimal_parts(s@) == Some((ip@, fp@)));
    proof {
        lemma_digits_value_nonneg(ip@);
    }
    let frac = fraction_millionths(&fp);
    let whole = match parse_digits(&ip) {
        Some(v) => v,
        None => {
            return None;
        },
    };
    if whole > (u64::MAX - frac) / 1000000 {
        return None;
    }
    Some(whole * 1000000 + frac)
}

pub open spec fn is_word_char(c: char) -> bool {
    is_digit(c) || ('a' <= c && c <= 'z') || ('A' <= c && c <= 'Z') || c == '_'
}

/// A nonempty run of letters, digits and underscores.
pub open spec fn is_name(s: Seq<char>) -> bool {
    s.len() > 0 && forall|i: int| 0 <= i < s.len() ==> is_word_char(#[trigger] s[i])
}

pub fn is_name_exec(s: &Vec<char>) -> (r: bool)
    ensures
        r == is_name(s@),
{
    if s.len() == 0 {
        return false;
    }
    let mut i: usize = 0;
    while i < s.len()
        invariant
            i <= s@.len(),
            forall|k: int| 0 <= k < i ==> is_word_char(#[trigger] s@[k]),
        decreases s@.len() - i,
    {
        let c = s[i];
        if !(('0' <= c && c <= '9') || ('a' <= c && c <= 'z') || ('A' <= c && c <= 'Z') || c == '_') {
            return false;
        }
        i = i + 1;
    }
    true
}

/// Words joined by single spaces.
pub open spec fn join_words(ws: Seq<Seq<char>>) -> Seq<char>
    decreases ws.len(),
{
    if ws.len() == 0 {
        Seq::empty()
    } else if ws.len() == 1 {
        ws[0]
    } else {
        join_words(ws.drop_last()) + seq![' '] + ws.last()
    }
}

pub fn join_words_exec(ws: &Vec<Vec<char>>) -> (r: String)
    ensures
        r@ == join_words(views(ws@)),
{
    let ghost wv = views(ws@);
    let mut out: Vec<char> = Vec::new();
    let mut i: usize = 0;
    proof {
        assert(wv.subrange(0, 0) =~= Seq::<Seq<char>>::empty());
    }
    while i < ws.len()
        invariant
            wv == views(ws@),
            i <= ws@.len(),
            out@ == join_words(wv.subrange(0, i as int)),
        decreases ws@.len() - i,
    {
        let ghost prev = out@;
        if i > 0 {
            out.push(' ');
        }
        let w = &ws[i];
        let ghost base = out@;
        let mut j: usize = 0;
        while j < w.len()
            invariant
                j <= w@.len(),
                out@ == base + w@.subrange(0, j as int),
            decreases w@.len() - j,
        {
            out.push(w[j]);
            proof {
                assert(base + w@.subrange(0, j + 1) =~= (base + w@.subrange(0, j as int)).push(w@[j as int]));
            }
            j = j + 1;
        }
        proof {
            assert(w@.subrange(0, w@.len() as int) =~= w@);
            assert(wv[i as int] == w@);
            let t = wv.subrange(0, i + 1);
            assert(t.drop_last() =~= wv.subrange(0, i as int));
            assert(t.last() == w@);
            if i == 0 {
                assert(out@ =~= w@);
            } else {
                assert(out@ =~= prev + seq![' '] + w@);
            }
        }
        i = i + 1;
    }
    proof {
        assert(wv.subrange(0, wv.len() as int) =~= wv);
    }
    string_of(&out)
}

} // verus!
