//! Laws of exhaustiveness, proved of the recursion that `is_exhaustive` and `check` compute.
use vstd::prelude::*;
use crate::pattern::{union_wf, Pat, TagId, UnionModel};
use crate::useful::useful;
use crate::matrix::{
    arity_wf, fits_list, fits_lit, lemma_no_growth_ctor_back, lemma_no_growth_list,
    lemma_no_growth_lit, lemma_ssize_concat, lit_fn, psize, row_fits_list, row_fits_lit, ssize,
    ctor_back_fn, head_ctor, any_fn, anys, alts_of, ctor_front_fn, fits_ctor, fmap, lemma_fmap_size, lemma_no_growth_any,
    list_fn, msize, row_fits_ctor, seen,
};
use crate::exhaustive::{
    exhaustive, exhaustive_alts, exhaustive_lists, has_list, head_list, list_bound, missing,
    product, push_col, recovered, split_arity,
};

verus! {

/// `r` is a row of `m`.
pub open spec fn has_row(m: Seq<Seq<Pat>>, r: Seq<Pat>) -> bool {
    exists|i: int| 0 <= i < m.len() && m[i] == r
}

proof fn lemma_fmap_keeps(
    m: Seq<Seq<Pat>>,
    f: spec_fn(Seq<Pat>) -> Option<Seq<Pat>>,
    r: Seq<Pat>,
)
    requires
        has_row(m, r),
        f(r) is Some,
    ensures
        has_row(fmap(m, f), f(r)->0),
    decreases m.len(),
{
    let rest = fmap(m.drop_last(), f);
    if m.last() == r {
        assert(fmap(m, f) == rest.push(f(r)->0));
        assert(fmap(m, f)[rest.len() as int] == f(r)->0);
    } else {
        let i = choose|i: int| 0 <= i < m.len() && m[i] == r;
        assert(m.drop_last()[i] == r);
        lemma_fmap_keeps(m.drop_last(), f, r);
        let j = choose|j: int| 0 <= j < rest.len() && rest[j] == f(r)->0;
        match f(m.last()) {
            Some(x) => assert(rest.push(x)[j] == f(r)->0),
            None => {},
        }
    }
}

proof fn lemma_product_of_none(lasts: Seq<Pat>)
    ensures
        product(Seq::empty(), lasts) == Seq::<Seq<Pat>>::empty(),
    decreases lasts.len(),
{
    if lasts.len() > 0 {
        lemma_product_of_none(lasts.drop_last());
        assert(push_col(Seq::empty(), lasts.last()) =~= Seq::<Seq<Pat>>::empty());
        assert(product(Seq::empty(), lasts) =~= Seq::<Seq<Pat>>::empty());
    }
}

proof fn lemma_any_drop(n: nat)
    requires
        n > 0,
    ensures
        anys(n).drop_last() == anys((n - 1) as nat),
        anys(n).last() == Pat::Any,
{
    assert(anys(n).drop_last() =~= anys((n - 1) as nat));
}

/// A matrix with a row of `n` wildcards is exhaustive over `n` columns.
pub proof fn lemma_wildcard_row_exhaustive(m: Seq<Seq<Pat>>, n: nat)
    requires
        has_row(m, anys(n)),
        exhaustive(m, n) is Some,
    ensures
        exhaustive(m, n)->0.len() == 0,
    decreases msize(m), n, 1nat, 0nat,
{
    if n == 0 {
    } else {
        lemma_any_drop(n);
        lemma_no_growth_any();
        lemma_fmap_size(m, any_fn());
        let i = choose|i: int| 0 <= i < m.len() && m[i] == anys(n);
        if seen(m).len() == 0 && has_list(m) {
            let b = list_bound(m);
            lemma_wildcard_lists(m, n, b, b + 1);
        } else {
            let u = alts_of(m)->0;
            if seen(m).len() == 0 || seen(m).len() < u.alternatives.len() {
                lemma_fmap_keeps(m, any_fn(), anys(n));
                lemma_wildcard_row_exhaustive(fmap(m, any_fn()), (n - 1) as nat);
                let rest = exhaustive(fmap(m, any_fn()), (n - 1) as nat)->0;
                assert(rest =~= Seq::<Seq<Pat>>::empty());
                if seen(m).len() > 0 {
                    lemma_product_of_none(missing(u, seen(m), u.alternatives.len()));
                } else {
                    assert(push_col(rest, Pat::Any).len() == 0);
                }
            } else {
                lemma_wildcard_alts(m, n, u, u.alternatives.len());
            }
        }
    }
}

proof fn lemma_wildcard_alts(m: Seq<Seq<Pat>>, n: nat, u: UnionModel, k: nat)
    requires
        has_row(m, anys(n)),
        exhaustive_alts(m, n, u, k) is Some,
    ensures
        exhaustive_alts(m, n, u, k)->0.len() == 0,
    decreases msize(m), n, 0nat, k,
{
    if k == 0 || k > u.alternatives.len() || seen(m).len() == 0 || n == 0 {
    } else {
        lemma_wildcard_alts(m, n, u, (k - 1) as nat);
        let c = u.alternatives[k - 1];
        let f = ctor_front_fn(c.tag_id, c.arity as nat);
        let width = (n - 1 + c.arity) as nat;
        crate::exhaustive::lemma_ctor_step_smaller(m, c);
        lemma_any_drop(n);
        assert(anys(c.arity as nat) + anys(n).drop_last() =~= anys(width));
        lemma_fmap_keeps(m, f, anys(n));
        lemma_wildcard_row_exhaustive(fmap(m, f), width);
    }
}

proof fn lemma_wildcard_lists(m: Seq<Seq<Pat>>, n: nat, bound: nat, k: nat)
    requires
        has_row(m, anys(n)),
        exhaustive_lists(m, n, bound, k) is Some,
    ensures
        exhaustive_lists(m, n, bound, k)->0.len() == 0,
    decreases msize(m), n, 0nat, k,
{
    if k == 0 || !has_list(m) || n == 0 {
    } else {
        lemma_wildcard_lists(m, n, bound, (k - 1) as nat);
        let a = split_arity(bound, (k - 1) as nat);
        let f = list_fn(a);
        let width = (n - 1 + a.min()) as nat;
        crate::exhaustive::lemma_list_step_smaller(m, a);
        lemma_any_drop(n);
        assert(anys(n).drop_last() + anys(a.min()) =~= anys(width));
        lemma_fmap_keeps(m, f, anys(n));
        lemma_wildcard_row_exhaustive(fmap(m, f), width);
    }
}

/// A single-column matrix with a wildcard row is exhaustive, whatever else it holds.
pub proof fn wildcard_dominates(m: Seq<Seq<Pat>>)
    requires
        has_row(m, seq![Pat::Any]),
        exhaustive(m, 1) is Some,
    ensures
        exhaustive(m, 1)->0.len() == 0,
{
    assert(anys(1) =~= seq![Pat::Any]);
    lemma_wildcard_row_exhaustive(m, 1);
}


proof fn lemma_fmap_only(m: Seq<Seq<Pat>>, f: spec_fn(Seq<Pat>) -> Option<Seq<Pat>>, j: int)
    requires
        forall|i: int| 0 <= i < m.len() && i != j ==> (#[trigger] f(m[i])) is None,
        0 <= j < m.len() ==> f(m[j]) is Some,
    ensures
        0 <= j < m.len() ==> fmap(m, f) == seq![f(m[j])->0],
        !(0 <= j < m.len()) ==> fmap(m, f).len() == 0,
    decreases m.len(),
{
    if m.len() > 0 {
        let prev = m.drop_last();
        assert forall|i: int| 0 <= i < prev.len() && i != j implies (#[trigger] f(prev[i])) is None by {
            assert(prev[i] == m[i]);
        }
        if 0 <= j < prev.len() {
            assert(prev[j] == m[j]);
        }
        lemma_fmap_only(prev, f, j);
        if j == m.len() - 1 {
            assert(fmap(m, f) =~= seq![f(m[j])->0]);
        } else {
            assert(f(m[m.len() - 1]) is None);
        }
    }
}

proof fn lemma_only_wildcards(w: nat)
    ensures
        exhaustive(seq![anys(w)], w) == Some(Seq::<Seq<Pat>>::empty()),
    decreases w,
{
    let m = seq![anys(w)];
    if w > 0 {
        lemma_any_drop(w);
        assert(m.drop_last() =~= Seq::<Seq<Pat>>::empty());
        assert(seen(m) == seen(m.drop_last()));
        assert(!has_list(m)) by {
            if has_list(m) {
                let i = choose|i: int| 0 <= i < m.len() && #[trigger] head_list(m[i]);
                assert(m[i] == anys(w));
            }
        }
        lemma_fmap_only(m, any_fn(), 0);
        lemma_only_wildcards((w - 1) as nat);
        assert(push_col(Seq::<Seq<Pat>>::empty(), Pat::Any) =~= Seq::<Seq<Pat>>::empty());
    }
}

/// One row per alternative of `u`: the alternative with wildcard arguments.
pub open spec fn identity_matrix(u: UnionModel) -> Seq<Seq<Pat>> {
    Seq::new(
        u.alternatives.len(),
        |i: int| seq![Pat::Ctor(u, u.alternatives[i].tag_id, anys(u.alternatives[i].arity as nat))],
    )
}

proof fn lemma_identity_seen(u: UnionModel, j: nat)
    requires
        union_wf(u),
        j <= u.alternatives.len(),
    ensures
        seen(identity_matrix(u).subrange(0, j as int)) == Seq::new(j, |i: int| TagId(i as u16)),
    decreases j,
{
    let m = identity_matrix(u).subrange(0, j as int);
    if j > 0 {
        lemma_identity_seen(u, (j - 1) as nat);
        assert(m.drop_last() =~= identity_matrix(u).subrange(0, j - 1));
        let prev = Seq::new((j - 1) as nat, |i: int| TagId(i as u16));
        let id = u.alternatives[j - 1].tag_id;
        assert(id.0 == j - 1);
        assert(!prev.contains(id)) by {
            if prev.contains(id) {
                let i = choose|i: int| 0 <= i < prev.len() && prev[i] == id;
                assert(u.alternatives[i].tag_id.0 == i);
            }
        }
        assert(prev.push(id) =~= Seq::new(j, |i: int| TagId(i as u16))) by {
            assert forall|i: int| 0 <= i < j implies #[trigger] prev.push(id)[i] == TagId(i as u16) by {
                if i == j - 1 {
                    assert(id == TagId((j - 1) as u16));
                }
            }
        }
    } else {
        assert(m =~= Seq::<Seq<Pat>>::empty());
    }
}

proof fn lemma_identity_alts(u: UnionModel, k: nat)
    requires
        union_wf(u),
        0 < u.alternatives.len(),
        k <= u.alternatives.len(),
        seen(identity_matrix(u)).len() > 0,
    ensures
        exhaustive_alts(identity_matrix(u), 1, u, k) == Some(Seq::<Seq<Pat>>::empty()),
    decreases k,
{
    let m = identity_matrix(u);
    if k > 0 {
        lemma_identity_alts(u, (k - 1) as nat);
        let c = u.alternatives[k - 1];
        let f = ctor_front_fn(c.tag_id, c.arity as nat);
        assert forall|i: int| 0 <= i < m.len() && i != k - 1 implies (#[trigger] f(m[i])) is None by {
            assert(u.alternatives[i].tag_id.0 == i);
            assert(c.tag_id.0 == k - 1);
        }
        assert(f(m[k - 1]) == Some(anys(c.arity as nat))) by {
            assert(m[k - 1].drop_last() =~= Seq::<Pat>::empty());
            assert(anys(c.arity as nat) + Seq::<Pat>::empty() =~= anys(c.arity as nat));
        }
        lemma_fmap_only(m, f, k - 1);
        lemma_only_wildcards(c.arity as nat);
        let prev = Seq::<Seq<Pat>>::empty();
        assert(prev + recovered(u, c.tag_id, c.arity as nat, Seq::empty()) =~= prev);
    }
}

/// A matrix with one row per alternative of a union, each with wildcard arguments, is
/// exhaustive (a union without alternatives aside, whose empty matrix misses `_`).
pub proof fn exhaustive_identity(u: UnionModel)
    requires
        union_wf(u),
        u.alternatives.len() > 0,
    ensures
        exhaustive(identity_matrix(u), 1) == Some(Seq::<Seq<Pat>>::empty()),
{
    let m = identity_matrix(u);
    let k = u.alternatives.len();
    lemma_identity_seen(u, k);
    assert(m.subrange(0, k as int) =~= m);
    assert(alts_of(m) == Some(u));
    assert(fits_ctor(m)) by {
        assert forall|i: int| 0 <= i < m.len() implies #[trigger] row_fits_ctor(m[i]) by {
            assert(m[i].last() is Ctor);
        }
    }
    lemma_identity_alts(u, k);
}


proof fn lemma_fmap_none(m: Seq<Seq<Pat>>, f: spec_fn(Seq<Pat>) -> Option<Seq<Pat>>)
    requires
        fmap(m, f).len() == 0,
    ensures
        forall|i: int| 0 <= i < m.len() ==> (#[trigger] f(m[i])) is None,
    decreases m.len(),
{
    if m.len() > 0 {
        lemma_fmap_none(m.drop_last(), f);
        assert forall|i: int| 0 <= i < m.len() implies (#[trigger] f(m[i])) is None by {
            if i < m.len() - 1 {
                assert(m.drop_last()[i] == m[i]);
            }
        }
    }
}

proof fn lemma_seen_contains(m: Seq<Seq<Pat>>, i: int)
    requires
        0 <= i < m.len(),
        head_ctor(m[i]),
    ensures
        seen(m).contains(m[i].last()->Ctor_1),
    decreases m.len(),
{
    let s = seen(m.drop_last());
    if i < m.len() - 1 {
        assert(m.drop_last()[i] == m[i]);
        lemma_seen_contains(m.drop_last(), i);
        let j = choose|j: int| 0 <= j < s.len() && s[j] == m[i].last()->Ctor_1;
        assert(seen(m) == s || seen(m) == s.push(m.last().last()->Ctor_1));
        if seen(m) != s {
            assert(s.push(m.last().last()->Ctor_1)[j] == s[j]);
        }
    } else {
        let id = m[i].last()->Ctor_1;
        if !s.contains(id) {
            assert(seen(m) == s.push(id));
            assert(s.push(id)[s.len() as int] == id);
        }
    }
}

proof fn lemma_product_member(rest: Seq<Seq<Pat>>, lasts: Seq<Pat>, w: Seq<Pat>)
    requires
        product(rest, lasts).contains(w),
    ensures
        exists|i: int, j: int|
            0 <= i < rest.len() && 0 <= j < lasts.len() && w == #[trigger] rest[i].push(
                #[trigger] lasts[j],
            ),
    decreases lasts.len(),
{
    let prev = product(rest, lasts.drop_last());
    let col = push_col(rest, lasts.last());
    let k = choose|k: int| 0 <= k < (prev + col).len() && (prev + col)[k] == w;
    if k < prev.len() {
        assert(prev[k] == w);
        lemma_product_member(rest, lasts.drop_last(), w);
        let (i, j) = choose|i: int, j: int|
            0 <= i < rest.len() && 0 <= j < lasts.drop_last().len() && w == #[trigger] rest[i].push(
                #[trigger] lasts.drop_last()[j],
            );
        assert(lasts.drop_last()[j] == lasts[j]);
    } else {
        let i = k - prev.len();
        assert(col[i] == w);
        assert(w == rest[i].push(lasts[lasts.len() - 1]));
    }
}

proof fn lemma_missing_member(u: UnionModel, tags: Seq<TagId>, k: nat, l: Pat)
    requires
        missing(u, tags, k).contains(l),
    ensures
        exists|j: int|
            0 <= j < u.alternatives.len() && !tags.contains(u.alternatives[j].tag_id) && l
                == Pat::Ctor(
                u,
                #[trigger] u.alternatives[j].tag_id,
                anys(u.alternatives[j].arity as nat),
            ),
    decreases k,
{
    let prev = missing(u, tags, (k - 1) as nat);
    let c = u.alternatives[k - 1];
    let x = Pat::Ctor(u, c.tag_id, anys(c.arity as nat));
    if prev.contains(l) {
        lemma_missing_member(u, tags, (k - 1) as nat, l);
    } else {
        let i = choose|i: int| 0 <= i < prev.push(x).len() && prev.push(x)[i] == l;
        assert(l == x);
        assert(!tags.contains(u.alternatives[k - 1].tag_id));
    }
}

/// A single-column witness that the column itself settles is useful against the matrix:
/// where no list pattern heads a row and the rows' constructors miss some alternative of
/// their union (or there are none), each witness row, a wildcard or a missing alternative,
/// matches a value that no row matches.
pub proof fn column_witnesses_are_useful(m: Seq<Seq<Pat>>, w: Seq<Pat>)
    requires
        !has_list(m),
        seen(m).len() == 0 || seen(m).len() < alts_of(m)->0.alternatives.len(),
        exhaustive(m, 1) matches Some(ws) && ws.contains(w),
        useful(m, w) is Some,
    ensures
        useful(m, w) == Some(true),
{
    let ws = exhaustive(m, 1)->0;
    if m.len() > 0 {
        let k = choose|k: int| 0 <= k < ws.len() && ws[k] == w;
        let e = fmap(m, any_fn());
        if e.len() > 0 {
            assert(exhaustive(e, 0) == Some(Seq::<Seq<Pat>>::empty()));
            if seen(m).len() > 0 {
                lemma_product_of_none(missing(alts_of(m)->0, seen(m), alts_of(m)->0.alternatives.len()));
            }
            assert(false);
        }
        assert(exhaustive(e, 0) == Some(seq![anys(0)]));
        assert(anys(0) =~= Seq::<Pat>::empty());
        lemma_fmap_none(m, any_fn());
        if seen(m).len() == 0 {
            assert(w == seq![Pat::Any]);
            assert(w.drop_last() =~= Seq::<Pat>::empty());
            assert(e =~= Seq::<Seq<Pat>>::empty());
            assert(crate::matrix::complete(m) is None);
            assert(useful(e, w.drop_last()) == Some(true));
        } else {
            let u = alts_of(m)->0;
            let lasts = missing(u, seen(m), u.alternatives.len());
            let rest = seq![Seq::<Pat>::empty()];
            assert(ws == product(rest, lasts));
            lemma_product_member(rest, lasts, w);
            let (i, j) = choose|i: int, j: int|
                0 <= i < rest.len() && 0 <= j < lasts.len() && w == #[trigger] rest[i].push(
                    #[trigger] lasts[j],
                );
            assert(lasts.contains(lasts[j]));
            lemma_missing_member(u, seen(m), u.alternatives.len(), lasts[j]);
            let a = choose|a: int|
                0 <= a < u.alternatives.len() && !seen(m).contains(u.alternatives[a].tag_id)
                    && lasts[j] == Pat::Ctor(
                    u,
                    #[trigger] u.alternatives[a].tag_id,
                    anys(u.alternatives[a].arity as nat),
                );
            let c = u.alternatives[a];
            let f = ctor_back_fn(c.tag_id, c.arity as nat);
            assert(w.last() == Pat::Ctor(u, c.tag_id, anys(c.arity as nat)));
            assert(w.drop_last() =~= Seq::<Pat>::empty());
            assert forall|r: int| 0 <= r < m.len() implies (#[trigger] f(m[r])) is None by {
                assert(any_fn()(m[r]) is None);
                if head_ctor(m[r]) {
                    lemma_seen_contains(m, r);
                }
            }
            lemma_fmap_only(m, f, -1);
            assert(fmap(m, f) =~= Seq::<Seq<Pat>>::empty());
            let args = anys(c.arity as nat);
            assert(args.len() == c.arity as nat);
            assert(useful(fmap(m, ctor_back_fn(c.tag_id, args.len())), w.drop_last() + args) == Some(true));
        }
    }
}


/// No wildcard stands anywhere in the pattern.
pub open spec fn wild_free(p: Pat) -> bool
    decreases p,
{
    match p {
        Pat::Any => false,
        Pat::Lit(_) => true,
        Pat::Ctor(_, _, args) => all_wild_free(args),
        Pat::List(_, args) => all_wild_free(args),
    }
}

pub open spec fn all_wild_free(s: Seq<Pat>) -> bool
    decreases s,
{
    if s.len() == 0 {
        true
    } else {
        all_wild_free(s.drop_last()) && wild_free(s.last())
    }
}

proof fn lemma_wild_free_concat(a: Seq<Pat>, b: Seq<Pat>)
    ensures
        all_wild_free(a + b) == (all_wild_free(a) && all_wild_free(b)),
    decreases b.len(),
{
    if b.len() > 0 {
        lemma_wild_free_concat(a, b.drop_last());
        assert((a + b).drop_last() =~= a + b.drop_last());
    } else {
        assert(a + b =~= a);
    }
}

proof fn lemma_fmap_concat(a: Seq<Seq<Pat>>, b: Seq<Seq<Pat>>, f: spec_fn(Seq<Pat>) -> Option<Seq<Pat>>)
    ensures
        fmap(a + b, f) == fmap(a, f) + fmap(b, f),
    decreases b.len(),
{
    if b.len() > 0 {
        lemma_fmap_concat(a, b.drop_last(), f);
        assert((a + b).drop_last() =~= a + b.drop_last());
        match f(b.last()) {
            Some(x) => assert((fmap(a, f) + fmap(b.drop_last(), f)).push(x) =~= fmap(a, f) + fmap(
                b.drop_last(),
                f,
            ).push(x)),
            None => {},
        }
    } else {
        assert(a + b =~= a);
        assert(fmap(a, f) + fmap(b, f) =~= fmap(a, f));
    }
}

/// Taking rows away keeps a row useful: a row without wildcards that is useful against a
/// matrix is useful against the matrix's first rows.
pub proof fn usefulness_antitone_without_wildcards(m: Seq<Seq<Pat>>, e: Seq<Seq<Pat>>, v: Seq<Pat>)
    requires
        all_wild_free(v),
        useful(m + e, v) == Some(true),
    ensures
        useful(m, v) == Some(true),
    decreases msize(m + e), ssize(v, 1),
{
    let me = m + e;
    if m.len() == 0 {
    } else if v.len() == 0 {
        assert(me.len() > 0);
    } else {
        let rest = v.drop_last();
        assert(ssize(v, 1) == ssize(rest, 1) + psize(v.last(), 1));
        assert(all_wild_free(rest) && wild_free(v.last()));
        assert forall|i: int| 0 <= i < m.len() implies #[trigger] m[i] == me[i] by {}
        match v.last() {
            Pat::Ctor(_, id, args) => {
                let f = ctor_back_fn(id, args.len());
                assert(fits_ctor(m)) by {
                    assert forall|i: int| 0 <= i < m.len() implies #[trigger] row_fits_ctor(m[i]) by {
                        assert(row_fits_ctor(me[i]));
                    }
                }
                lemma_fmap_concat(m, e, f);
                lemma_no_growth_ctor_back(id, args.len());
                lemma_fmap_size(me, f);
                lemma_ssize_concat(rest, args, 1);
                assert(all_wild_free(args));
                lemma_wild_free_concat(rest, args);
                usefulness_antitone_without_wildcards(fmap(m, f), fmap(e, f), rest + args);
            },
            Pat::List(a, args) => {
                let f = list_fn(a);
                assert(fits_list(m)) by {
                    assert forall|i: int| 0 <= i < m.len() implies #[trigger] row_fits_list(m[i]) by {
                        assert(row_fits_list(me[i]));
                    }
                }
                lemma_fmap_concat(m, e, f);
                lemma_no_growth_list(a);
                lemma_fmap_size(me, f);
                lemma_ssize_concat(rest, args, 1);
                assert(all_wild_free(args));
                lemma_wild_free_concat(rest, args);
                usefulness_antitone_without_wildcards(fmap(m, f), fmap(e, f), rest + args);
            },
            Pat::Lit(l) => {
                let f = lit_fn(l);
                assert(fits_lit(m)) by {
                    assert forall|i: int| 0 <= i < m.len() implies #[trigger] row_fits_lit(m[i]) by {
                        assert(row_fits_lit(me[i]));
                    }
                }
                lemma_fmap_concat(m, e, f);
                lemma_no_growth_lit(l);
                lemma_fmap_size(me, f);
                usefulness_antitone_without_wildcards(fmap(m, f), fmap(e, f), rest);
            },
            Pat::Any => {},
        }
    }
}

} // verus!
