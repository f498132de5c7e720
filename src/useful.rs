//! Usefulness: can a new row match a value that no row of a matrix matches?
use vstd::prelude::*;
use crate::pattern::{copy_row, pats, lemma_pats, lemma_pats_drop_last, Ctor, Pat, Pattern};
use crate::matrix::{
    any_fn, anys, anythings, extend_row, arity_wf, complete, ctor_back_fn, fits_ctor, fits_list,
    fits_lit, fmap, head_ctor, is_complete, lemma_fmap_size, lemma_no_growth_any,
    lemma_no_growth_ctor_back, lemma_no_growth_list, lemma_no_growth_lit, lemma_seen,
    lemma_ssize_concat, list_fn, lit_fn, model, msize, psize, seen, shrinks, specialize, ssize,
    Complete, PatternMatrix, Row, Specializer,
};

verus! {

/// Whether the row `v` matches a value that no row of `m` matches, popping the last column
/// of both in tandem; `None` where a row's head cannot stand against the popped pattern in
/// a well-typed match.
pub open spec fn useful(m: Seq<Seq<Pat>>, v: Seq<Pat>) -> Option<bool>
    decreases msize(m), ssize(v, 1), 1nat, 0nat,
    via useful_decreases
{
    if m.len() == 0 {
        Some(true)
    } else if v.len() == 0 {
        Some(false)
    } else {
        let rest = v.drop_last();
        match v.last() {
            Pat::Ctor(_, id, args) => if fits_ctor(m) {
                useful(fmap(m, ctor_back_fn(id, args.len())), rest + args)
            } else {
                None
            },
            Pat::List(a, args) => if arity_wf(a) && fits_list(m) {
                useful(fmap(m, list_fn(a)), rest + args)
            } else {
                None
            },
            Pat::Lit(l) => if fits_lit(m) {
                useful(fmap(m, lit_fn(l)), rest)
            } else {
                None
            },
            Pat::Any => match complete(m) {
                Some(alts) => useful_alts(m, rest, alts, alts.len()),
                None => useful(fmap(m, any_fn()), rest),
            },
        }
    }
}

/// Whether `rest` followed by one of the first `k` alternatives (with wildcard arguments)
/// is useful against `m`, the alternatives tried in order.
pub open spec fn useful_alts(m: Seq<Seq<Pat>>, rest: Seq<Pat>, alts: Seq<Ctor>, k: nat) -> Option<
    bool,
>
    decreases msize(m), ssize(rest, 1), 0nat, k,
    via useful_alts_decreases
{
    if k == 0 || k > alts.len() || seen(m).len() == 0 {
        Some(false)
    } else {
        match useful_alts(m, rest, alts, (k - 1) as nat) {
            Some(false) => {
                let c = alts[k - 1];
                if fits_ctor(m) {
                    useful(
                        fmap(m, ctor_back_fn(c.tag_id, c.arity as nat)),
                        rest + anys(c.arity as nat),
                    )
                } else {
                    None
                }
            },
            other => other,
        }
    }
}

#[via_fn]
proof fn useful_decreases(m: Seq<Seq<Pat>>, v: Seq<Pat>) {
    if m.len() > 0 && v.len() > 0 {
        let rest = v.drop_last();
        assert(ssize(v, 1) == ssize(rest, 1) + psize(v.last(), 1));
        match v.last() {
            Pat::Ctor(_, id, args) => {
                lemma_no_growth_ctor_back(id, args.len());
                lemma_fmap_size(m, ctor_back_fn(id, args.len()));
                lemma_ssize_concat(rest, args, 1);
            },
            Pat::List(a, args) => {
                lemma_no_growth_list(a);
                lemma_fmap_size(m, list_fn(a));
                lemma_ssize_concat(rest, args, 1);
            },
            Pat::Lit(l) => {
                lemma_no_growth_lit(l);
                lemma_fmap_size(m, lit_fn(l));
            },
            Pat::Any => {
                lemma_no_growth_any();
                lemma_fmap_size(m, any_fn());
            },
        }
    }
}

#[via_fn]
proof fn useful_alts_decreases(m: Seq<Seq<Pat>>, rest: Seq<Pat>, alts: Seq<Ctor>, k: nat) {
    if k > 0 && k <= alts.len() && seen(m).len() > 0 {
        let c = alts[k - 1];
        let f = ctor_back_fn(c.tag_id, c.arity as nat);
        lemma_seen(m);
        let i = choose|i: int| 0 <= i < m.len() && #[trigger] head_ctor(m[i]);
        lemma_no_growth_ctor_back(c.tag_id, c.arity as nat);
        assert(shrinks(f, m[i]));
        lemma_fmap_size(m, f);
    }
}


/// Once the alternatives tried give `true` or meet a row that cannot stand, trying more
/// changes nothing.
proof fn lemma_alts_settled(m: Seq<Seq<Pat>>, rest: Seq<Pat>, alts: Seq<Ctor>, k: nat, k2: nat)
    requires
        k <= k2 <= alts.len(),
        seen(m).len() > 0,
        useful_alts(m, rest, alts, k) != Some(false),
    ensures
        useful_alts(m, rest, alts, k2) == useful_alts(m, rest, alts, k),
    decreases k2,
{
    if k2 > k {
        lemma_alts_settled(m, rest, alts, k, (k2 - 1) as nat);
    }
}

/// Check if a new row "vector" is useful given previous rows "matrix"
pub fn is_useful(old_matrix: PatternMatrix, vector: Row) -> (r: bool)
    requires
        useful(model(old_matrix@), pats(vector@)) is Some,
    ensures
        r == useful(model(old_matrix@), pats(vector@))->0,
    decreases msize(model(old_matrix@)), ssize(pats(vector@), 1),
{
    let ghost m0 = model(old_matrix@);
    let ghost v0 = pats(vector@);
    let mut matrix = old_matrix;
    let mut candidate = vector;
    loop
        invariant
            useful(model(matrix@), pats(candidate@)) == useful(m0, v0),
            useful(m0, v0) is Some,
            m0 == model(old_matrix@),
            v0 == pats(vector@),
            msize(model(matrix@)) <= msize(m0),
            msize(model(matrix@)) == msize(m0) ==> ssize(pats(candidate@), 1) <= ssize(v0, 1),
        decreases msize(model(matrix@)), ssize(pats(candidate@), 1),
    {
        if matrix.len() == 0 {
            // No rows are the same as the new candidate! The candidate is useful!
            assert(model(matrix@).len() == 0);
            assert(useful(model(matrix@), pats(candidate@)) == Some(true));
            assert(useful(m0, v0) == Some(true));
            return true;
        }
        if candidate.len() == 0 {
            // There is nothing left in the new candidate, but we still have
            // rows that match the same things. This is not a useful candidate!
            return false;
        }
        let ghost m = model(matrix@);
        let ghost v = pats(candidate@);
        let ghost rest = v.drop_last();
        proof {
            lemma_pats_drop_last(candidate@);
            assert(ssize(v, 1) == ssize(rest, 1) + psize(v.last(), 1));
        }
        let ghost before = candidate@;
        let first_pattern = match candidate.pop() {
            Some(p) => p,
            None => {
                return false;
            },
        };
        assert(candidate@ == before.drop_last());
        match first_pattern {
            // keep checking rows that start with this Ctor or Anything
            Pattern::Ctor(_, id, args) => {
                proof {
                    lemma_pats(args@);
                    lemma_no_growth_ctor_back(id, args@.len() as nat);
                    lemma_fmap_size(m, ctor_back_fn(id, args@.len() as nat));
                    lemma_ssize_concat(rest, pats(args@), 1);
                }
                matrix = specialize(&matrix, &Specializer::CtorBack(id, args.len()));
                extend_row(&mut candidate, args);
            },
            // keep checking rows that are supersets of this list pattern, or Anything
            Pattern::List(arity, args) => {
                proof {
                    lemma_no_growth_list(arity);
                    lemma_fmap_size(m, list_fn(arity));
                    lemma_ssize_concat(rest, pats(args@), 1);
                }
                matrix = specialize(&matrix, &Specializer::List(arity));
                extend_row(&mut candidate, args);
            },
            Pattern::Anything => {
                // check if all alternatives appear in matrix
                match is_complete(&matrix) {
                    Complete::No => {
                        // This Anything is useful because some Ctors are missing.
                        // But what if a previous row has an Anything?
                        // If so, this one is not useful.
                        proof {
                            lemma_no_growth_any();
                            lemma_fmap_size(m, any_fn());
                        }
                        matrix = specialize(&matrix, &Specializer::Anything);
                    },
                    Complete::Yes(alternatives) => {
                        // All Ctors are covered, so this Anything is not needed for any
                        // of those. But what if some of those Ctors have subpatterns
                        // that make them less general? If so, this actually is useful!
                        let ghost alts = alternatives@;
                        proof {
                            lemma_seen(m);
                        }
                        let mut i: usize = 0;
                        while i < alternatives.len()
                            invariant
                                i <= alts.len(),
                                alts == alternatives@,
                                seen(m).len() > 0,
                                m == model(matrix@),
                                rest == pats(candidate@),
                                useful(m, v) == useful_alts(m, rest, alts, alts.len()),
                                useful(m, v) == useful(m0, v0),
                                useful(m0, v0) is Some,
                                m0 == model(old_matrix@),
                                v0 == pats(vector@),
                                useful_alts(m, rest, alts, i as nat) == Some(false),
                                msize(m) <= msize(m0),
                                exists|j: int| 0 <= j < m.len() && #[trigger] head_ctor(m[j]),
                            decreases alts.len() - i,
                        {
                            let alternative = alternatives[i];
                            let arity = alternative.arity;
                            let tag_id = alternative.tag_id;
                            proof {
                                let n = (i + 1) as nat;
                                if useful_alts(m, rest, alts, n) != Some(false) {
                                    lemma_alts_settled(m, rest, alts, n, alts.len());
                                }
                                let f = ctor_back_fn(tag_id, arity as nat);
                                let j = choose|j: int| 0 <= j < m.len() && #[trigger] head_ctor(m[j]);
                                lemma_no_growth_ctor_back(tag_id, arity as nat);
                                assert(shrinks(f, m[j]));
                                lemma_fmap_size(m, f);
                            }
                            let specialized = specialize(&matrix, &Specializer::CtorBack(tag_id, arity));
                            let mut extended = copy_row(&candidate);
                            extend_row(&mut extended, anythings(arity));
                            let ghost sub = model(specialized@);
                            let ghost ext = pats(extended@);
                            proof {
                                assert(ext == rest + anys(arity as nat));
                                assert(msize(sub) < msize(m0));
                                if !fits_ctor(m) {
                                    lemma_alts_settled(m, rest, alts, (i + 1) as nat, alts.len());
                                }
                                assert(useful_alts(m, rest, alts, (i + 1) as nat) == useful(sub, ext));
                                if useful(sub, ext) != Some(false) {
                                    lemma_alts_settled(m, rest, alts, (i + 1) as nat, alts.len());
                                }
                            }
                            if is_useful(specialized, extended) {
                                return true;
                            }
                            i = i + 1;
                        }
                        assert(useful(m0, v0) == Some(false));
                        return false;
                    },
                }
            },
            Pattern::Literal(literal) => {
                // keep checking rows that start with this Literal or Anything
                proof {
                    lemma_no_growth_lit(literal@);
                    lemma_fmap_size(m, lit_fn(literal@));
                }
                matrix = specialize(&matrix, &Specializer::Literal(literal));
            },
        }
    }
}

} // verus!
