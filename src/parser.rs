use vstd::prelude::*;
use crate::text::{
    chars_of, copy_words, is_keyword, split_at_keyword, split_by, split_chars, split_words, views, views2, words,
};

verus! {

broadcast use Seq::lemma_flatten_push;

/// One clause of a query: its words, and whether it narrows the running
/// result (`and`) rather than adding to it.
pub struct Clause {
    pub and: bool,
    pub words: Vec<Vec<char>>,
}

impl View for Clause {
    type V = (bool, Seq<Seq<char>>);

    open spec fn view(&self) -> (bool, Seq<Seq<char>>) {
        (self.and, views(self.words@))
    }
}

pub open spec fn clause_views(v: Seq<Clause>) -> Seq<(bool, Seq<Seq<char>>)> {
    v.map_values(|c: Clause| c@)
}

/// The words of one comma-separated group, split at `or`.
pub open spec fn or_pieces(g: Seq<char>) -> Seq<Seq<Seq<char>>> {
    split_by(words(g), |w: Seq<char>| is_keyword(w, "or"@))
}

/// The alternatives of a query: split at commas, then at `or`.
pub open spec fn or_groups(q: Seq<char>) -> Seq<Seq<Seq<char>>> {
    split_by(q, |c: char| c == ',').map_values(|g: Seq<char>| or_pieces(g)).flatten()
}

/// One alternative split at `and`: its first clause adds, the others narrow.
pub open spec fn tag_ands(o: Seq<Seq<char>>) -> Seq<(bool, Seq<Seq<char>>)> {
    let ands = split_by(o, |w: Seq<char>| is_keyword(w, "and"@));
    Seq::new(ands.len(), |i: int| (i > 0, ands[i]))
}

/// The tagged clauses of a query, in order.
pub open spec fn parse_query(q: Seq<char>) -> Seq<(bool, Seq<Seq<char>>)> {
    or_groups(q).map_values(|o: Seq<Seq<char>>| tag_ands(o)).flatten()
}

/// Splits a query into its tagged clauses.
pub fn parse(q: &str) -> (r: Vec<Clause>)
    ensures
        clause_views(r@) == parse_query(q@),
{
    let cs = chars_of(q);
    let groups = split_chars(&cs, ',');
    let ghost gv = split_by(q@, |c: char| c == ',');
    let ghost gm = gv.map_values(|g: Seq<char>| or_pieces(g));
    let mut pieces: Vec<Vec<Vec<char>>> = Vec::new();
    let mut gi: usize = 0;
    proof {
        assert(gm.subrange(0, 0) =~= Seq::<Seq<Seq<Seq<char>>>>::empty());
        assert(views2(pieces@) =~= gm.subrange(0, 0).flatten());
    }
    while gi < groups.len()
        invariant
            gi <= groups@.len(),
            views(groups@) == gv,
            gm == gv.map_values(|g: Seq<char>| or_pieces(g)),
            views2(pieces@) == gm.subrange(0, gi as int).flatten(),
        decreases groups@.len() - gi,
    {
        let ws = split_words(&groups[gi]);
        let ors = split_at_keyword(&ws, "or");
        proof {
            assert(views2(ors@) == or_pieces(groups@[gi as int]@));
            assert(gm[gi as int] == views2(ors@));
        }
        let ghost base = views2(pieces@);
        let mut k: usize = 0;
        while k < ors.len()
            invariant
                k <= ors@.len(),
                views2(pieces@) == base + views2(ors@).subrange(0, k as int),
            decreases ors@.len() - k,
        {
            let ghost before = pieces@;
            pieces.push(copy_words(&ors[k]));
            proof {
                assert(views2(pieces@) =~= views2(before).push(views(ors@[k as int]@)));
                assert(views2(ors@).subrange(0, k + 1) =~= views2(ors@).subrange(0, k as int).push(
                    views(ors@[k as int]@),
                ));
                assert(views2(pieces@) =~= base + views2(ors@).subrange(0, k + 1));
            }
            k = k + 1;
        }
        proof {
            assert(views2(ors@).subrange(0, ors@.len() as int) =~= views2(ors@));
            assert(gm.subrange(0, gi + 1) =~= gm.subrange(0, gi as int).push(gm[gi as int]));
        }
        gi = gi + 1;
    }
    proof {
        assert(gm.subrange(0, gm.len() as int) =~= gm);
    }
    let ghost pv = views2(pieces@);
    let ghost pm = pv.map_values(|o: Seq<Seq<char>>| tag_ands(o));
    let mut out: Vec<Clause> = Vec::new();
    let mut pi: usize = 0;
    proof {
        assert(pm.subrange(0, 0) =~= Seq::<Seq<(bool, Seq<Seq<char>>)>>::empty());
        assert(clause_views(out@) =~= pm.subrange(0, 0).flatten());
    }
    while pi < pieces.len()
        invariant
            pi <= pieces@.len(),
            pv == views2(pieces@),
            pm == pv.map_values(|o: Seq<Seq<char>>| tag_ands(o)),
            clause_views(out@) == pm.subrange(0, pi as int).flatten(),
        decreases pieces@.len() - pi,
    {
        let ands = split_at_keyword(&pieces[pi], "and");
        let ghost tagged = tag_ands(pv[pi as int]);
        proof {
            assert(tagged == pm[pi as int]);
        }
        let ghost base = clause_views(out@);
        let mut k: usize = 0;
        while k < ands.len()
            invariant
                k <= ands@.len(),
                tagged == tag_ands(pv[pi as int]),
                views2(ands@) == split_by(pv[pi as int], |w: Seq<char>| is_keyword(w, "and"@)),
                clause_views(out@) == base + tagged.subrange(0, k as int),
            decreases ands@.len() - k,
        {
            let ghost before = out@;
            let c = Clause { and: k > 0, words: copy_words(&ands[k]) };
            out.push(c);
            proof {
                assert(clause_views(out@) =~= clause_views(before).push(c@));
                assert(c@ == tagged[k as int]);
                assert(tagged.subrange(0, k + 1) =~= tagged.subrange(0, k as int).push(tagged[k as int]));
                assert(clause_views(out@) =~= base + tagged.subrange(0, k + 1));
            }
            k = k + 1;
        }
        proof {
            assert(tagged.subrange(0, ands@.len() as int) =~= tagged);
            assert(pm.subrange(0, pi + 1) =~= pm.subrange(0, pi as int).push(pm[pi as int]));
        }
        pi = pi + 1;
    }
    proof {
        assert(pm.subrange(0, pm.len() as int) =~= pm);
        assert(pv == or_groups(q@));
    }
    out
}

} // verus!
