use vstd::prelude::*;
use crate::data::{Data, DataView};
use crate::error::{Distrib, Error, ErrorView};
use crate::selectors::{dviews, selected, Selected};
use crate::text::{decimal_parts, decimal_value, is_decimal, is_digit, is_keyword, is_keyword_exec, parse_decimal, string_of, views};

verus! {

/// A comparison sign: `>`, `>=`, `<` or `<=`.
pub open spec fn is_sign(s: Seq<char>) -> bool {
    (s.len() == 1 && (s[0] == '>' || s[0] == '<')) || (s.len() == 2 && (s[0] == '>' || s[0] == '<') && s[1] == '=')
}

/// Length of the comparison sign that a word starts with, `0` for none.
pub open spec fn sign_len(w: Seq<char>) -> int {
    if w.len() >= 2 && (w[0] == '>' || w[0] == '<') && w[1] == '=' {
        2
    } else if w.len() >= 1 && (w[0] == '>' || w[0] == '<') {
        1
    } else {
        0
    }
}

/// A decimal number ending in a digit, followed by `%`.
pub open spec fn is_percent(w: Seq<char>) -> bool {
    w.len() >= 2 && w.last() == '%' && decimal_parts(w.drop_last()).is_some() && is_digit(w[w.len() - 2])
}

/// The sign and the number of a clause `> X%`, `>= X%`, `< X%` or `<= X%`,
/// with or without a space after the sign.
pub open spec fn percentage_shape(ws: Seq<Seq<char>>) -> Option<(Seq<char>, Seq<char>)> {
    if ws.len() == 2 && is_sign(ws[0]) && is_percent(ws[1]) {
        Some((ws[0], ws[1].drop_last()))
    } else if ws.len() == 1 && sign_len(ws[0]) > 0 && is_percent(ws[0].skip(sign_len(ws[0]))) {
        Some((ws[0].take(sign_len(ws[0])), ws[0].skip(sign_len(ws[0])).drop_last()))
    } else {
        None
    }
}

/// Whether a usage share passes the comparison.
pub open spec fn passes(sign: Seq<char>, usage: int, p: int) -> bool {
    if sign == seq!['>'] {
        usage > p
    } else if sign == seq!['<'] {
        usage < p
    } else if sign == seq!['<', '='] {
        usage <= p
    } else {
        usage >= p
    }
}

pub open spec fn usage_entry(u: (Seq<char>, Seq<char>, u64)) -> (Seq<char>, Seq<char>) {
    (u.0, u.1)
}

/// The usage entries whose share passes the comparison, in table order.
pub open spec fn usage_filtered(d: DataView, sign: Seq<char>, p: int) -> Seq<(Seq<char>, Seq<char>)> {
    d.usage.filter(|u: (Seq<char>, Seq<char>, u64)| passes(sign, u.2 as int, p)).map_values(
        |u: (Seq<char>, Seq<char>, u64)| usage_entry(u),
    )
}

pub open spec fn select_percentage(ws: Seq<Seq<char>>, d: DataView) -> Selected {
    match percentage_shape(ws) {
        None => Ok(None),
        Some((sign, num)) => {
            let p = decimal_value(num).unwrap();
            if p > u64::MAX {
                Err(ErrorView::ParsePercentage(num))
            } else {
                Ok(Some(usage_filtered(d, sign, p)))
            }
        },
    }
}

fn is_sign_char(c: char) -> (r: bool)
    ensures
        r == (c == '>' || c == '<'),
{
    c == '>' || c == '<'
}

pub(crate) fn sub_chars(w: &Vec<char>, from: usize, to: usize) -> (r: Vec<char>)
    requires
        from <= to <= w@.len(),
    ensures
        r@ == w@.subrange(from as int, to as int),
{
    let mut r: Vec<char> = Vec::new();
    let mut i: usize = from;
    while i < to
        invariant
            from <= i <= to,
            to <= w@.len(),
            r@ == w@.subrange(from as int, i as int),
        decreases to - i,
    {
        r.push(w[i]);
        proof {
            assert(w@.subrange(from as int, i + 1) =~= w@.subrange(from as int, i as int).push(w@[i as int]));
        }
        i = i + 1;
    }
    r
}

fn is_percent_exec(w: &Vec<char>) -> (r: bool)
    ensures
        r == is_percent(w@),
{
    if w.len() < 2 || w[w.len() - 1] != '%' {
        return false;
    }
    let c = w[w.len() - 2];
    let num = sub_chars(w, 0, w.len() - 1);
    proof {
        assert(num@ =~= w@.drop_last());
    }
    is_decimal(&num) && '0' <= c && c <= '9'
}

/// The sign and number of a percentage clause, as [`percentage_shape`] reads them.
fn percentage_shape_exec(ws: &Vec<Vec<char>>) -> (r: Option<(Vec<char>, Vec<char>)>)
    ensures
        match r {
            Some((s, n)) => percentage_shape(views(ws@)) == Some((s@, n@)),
            None => percentage_shape(views(ws@)).is_none(),
        },
{
    if ws.len() == 2 {
        let w0 = &ws[0];
        let w1 = &ws[1];
        let sign_ok = (w0.len() == 1 && is_sign_char(w0[0])) || (w0.len() == 2 && is_sign_char(w0[0]) && w0[1] == '=');
        if sign_ok && is_percent_exec(w1) {
            let num = sub_chars(w1, 0, w1.len() - 1);
            proof {
                assert(num@ =~= w1@.drop_last());
            }
            return Some((crate::text::copy_chars(w0), num));
        }
        return None;
    }
    if ws.len() != 1 {
        return None;
    }
    let w = &ws[0];
    let k: usize = if w.len() >= 2 && is_sign_char(w[0]) && w[1] == '=' {
        2
    } else if w.len() >= 1 && is_sign_char(w[0]) {
        1
    } else {
        0
    };
    if k == 0 {
        return None;
    }
    let rest = sub_chars(w, k, w.len());
    proof {
        assert(rest@ =~= w@.skip(k as int));
    }
    if !is_percent_exec(&rest) {
        return None;
    }
    let sign = sub_chars(w, 0, k);
    let num = sub_chars(&rest, 0, rest.len() - 1);
    proof {
        assert(sign@ =~= w@.take(k as int));
        assert(num@ =~= rest@.drop_last());
    }
    Some((sign, num))
}

pub(crate) fn passes_exec(sign: &Vec<char>, usage: u64, p: u64) -> (r: bool)
    ensures
        r == passes(sign@, usage as int, p as int),
{
    let gt = sign.len() == 1 && sign[0] == '>';
    let lt = sign.len() == 1 && sign[0] == '<';
    let le = sign.len() == 2 && sign[0] == '<' && sign[1] == '=';
    proof {
        if gt {
            assert(sign@ =~= seq!['>']);
        }
        if sign@ == seq!['>'] {
            assert(sign@.len() == 1 && sign@[0] == '>');
        }
        if lt {
            assert(sign@ =~= seq!['<']);
        }
        if sign@ == seq!['<'] {
            assert(sign@.len() == 1 && sign@[0] == '<');
        }
        if le {
            assert(sign@ =~= seq!['<', '=']);
        }
        if sign@ == seq!['<', '='] {
            assert(sign@.len() == 2 && sign@[0] == '<' && sign@[1] == '=');
        }
    }
    if gt {
        usage > p
    } else if lt {
        usage < p
    } else if le {
        usage <= p
    } else {
        usage >= p
    }
}

/// `> X%` and its kin: the usage entries whose share compares so with `X`.
pub fn percentage_exec(ws: &Vec<Vec<char>>, data: &Data) -> (r: Result<Option<Vec<Distrib>>, Error>)
    ensures
        selected(r) == select_percentage(views(ws@), data@),
{
    let (sign, num) = match percentage_shape_exec(ws) {
        Some(found) => found,
        None => {
            return Ok(None);
        },
    };
    let p = match parse_decimal(&num) {
        Some(v) => v,
        None => {
            return Err(Error::ParsePercentage(string_of(&num)));
        },
    };
    let ghost d = data@;
    let ghost pred = |u: (Seq<char>, Seq<char>, u64)| passes(sign@, u.2 as int, p as int);
    let mut out: Vec<Distrib> = Vec::new();
    let mut i: usize = 0;
    while i < data.usage.len()
        invariant
            d == data@,
            pred == (|u: (Seq<char>, Seq<char>, u64)| passes(sign@, u.2 as int, p as int)),
            i <= data.usage@.len(),
            dviews(out@) == d.usage.subrange(0, i as int).filter(pred).map_values(
                |u: (Seq<char>, Seq<char>, u64)| usage_entry(u),
            ),
        decreases data.usage@.len() - i,
    {
        let u = &data.usage[i];
        proof {
            assert(d.usage[i as int] == u@);
            let t = d.usage.subrange(0, i + 1);
            assert(t.drop_last() =~= d.usage.subrange(0, i as int));
            assert(t.last() == u@);
            reveal(Seq::filter);
        }
        if passes_exec(&sign, u.usage, p) {
            let ghost before = out@;
            let e = Distrib::from_strings(u.name.clone(), u.version.clone());
            out.push(e);
            proof {
                assert(dviews(out@) =~= dviews(before).push(e@));
                assert(dviews(out@) =~= d.usage.subrange(0, i + 1).filter(pred).map_values(
                    |u: (Seq<char>, Seq<char>, u64)| usage_entry(u),
                ));
            }
        }
        i = i + 1;
    }
    proof {
        assert(d.usage.subrange(0, d.usage.len() as int) =~= d.usage);
        assert(dviews(out@) == usage_filtered(d, sign@, p as int));
    }
    Ok(Some(out))
}

/// The entries that `cover X%` takes: walking the table in order, it stops
/// before the first entry met once the running total has reached `cov`, and
/// before the first entry with no usage.
pub open spec fn cover_take(us: Seq<(Seq<char>, Seq<char>, u64)>, total: int, cov: int) -> Seq<(Seq<char>, Seq<char>)>
    decreases us.len(),
{
    if us.len() == 0 || total >= cov || us[0].2 == 0 {
        Seq::empty()
    } else {
        seq![usage_entry(us[0])] + cover_take(us.drop_first(), total + us[0].2, cov)
    }
}

/// The number of a clause `cover X%`.
pub open spec fn cover_shape(ws: Seq<Seq<char>>) -> Option<Seq<char>> {
    if ws.len() == 2 && is_keyword(ws[0], "cover"@) && is_percent(ws[1]) {
        Some(ws[1].drop_last())
    } else {
        None
    }
}

pub open spec fn select_cover(ws: Seq<Seq<char>>, d: DataView) -> Selected {
    match cover_shape(ws) {
        None => Ok(None),
        Some(num) => {
            let p = decimal_value(num).unwrap();
            if p > u64::MAX {
                Err(ErrorView::ParsePercentage(num))
            } else {
                Ok(Some(cover_take(d.usage, 0, p)))
            }
        },
    }
}

/// `cover X%`: the most used versions, until together they reach `X`.
pub fn cover_exec(ws: &Vec<Vec<char>>, data: &Data) -> (r: Result<Option<Vec<Distrib>>, Error>)
    ensures
        selected(r) == select_cover(views(ws@), data@),
{
    if !(ws.len() == 2 && is_keyword_exec(&ws[0], "cover") && is_percent_exec(&ws[1])) {
        return Ok(None);
    }
    let num = sub_chars(&ws[1], 0, ws[1].len() - 1);
    proof {
        assert(num@ =~= ws@[1]@.drop_last());
        assert(views(ws@)[1] == ws@[1]@);
        assert(cover_shape(views(ws@)) == Some(num@));
    }
    let cov = match parse_decimal(&num) {
        Some(v) => v,
        None => {
            return Err(Error::ParsePercentage(string_of(&num)));
        },
    };
    let ghost us = data@.usage;
    let mut total: u128 = 0;
    let mut out: Vec<Distrib> = Vec::new();
    let mut i: usize = 0;
    proof {
        assert(us.skip(0) =~= us);
        assert(dviews(out@) =~= Seq::<(Seq<char>, Seq<char>)>::empty());
    }
    while i < data.usage.len()
        invariant
            us == data@.usage,
            cover_shape(views(ws@)) == Some(num@),
            decimal_value(num@) == Some(cov as int),
            i <= us.len(),
            total <= 2 * (u64::MAX as u128),
            dviews(out@) + cover_take(us.skip(i as int), total as int, cov as int) == cover_take(us, 0, cov as int),
        decreases us.len() - i,
    {
        let u = &data.usage[i];
        proof {
            assert(us[i as int] == u@);
            assert(us.skip(i as int)[0] == u@);
            assert(us.skip(i as int).drop_first() =~= us.skip(i + 1));
        }
        if total >= cov as u128 || u.usage == 0 {
            proof {
                assert(cover_take(us.skip(i as int), total as int, cov as int) == Seq::<(Seq<char>, Seq<char>)>::empty());
                assert(dviews(out@) =~= dviews(out@) + Seq::<(Seq<char>, Seq<char>)>::empty());
            }
            return Ok(Some(out));
        }
        let ghost before = out@;
        let e = Distrib::from_strings(u.name.clone(), u.version.clone());
        out.push(e);
        let ghost old_total = total;
        total = total + u.usage as u128;
        proof {
            assert(dviews(out@) =~= dviews(before).push(e@));
            assert(dviews(out@) + cover_take(us.skip(i + 1), total as int, cov as int) =~= dviews(before) + cover_take(
                us.skip(i as int),
                old_total as int,
                cov as int,
            ));
        }
        i = i + 1;
    }
    proof {
        assert(us.skip(us.len() as int) =~= Seq::<(Seq<char>, Seq<char>, u64)>::empty());
        assert(dviews(out@) =~= dviews(out@) + Seq::<(Seq<char>, Seq<char>)>::empty());
    }
    Ok(Some(out))
}

} // verus!
