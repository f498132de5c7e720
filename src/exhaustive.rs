//! Exhaustiveness: the rows of values that no row of a matrix matches.
use vstd::prelude::*;
use crate::pattern::{
    copy_row, pat, pats, lemma_pats, lemma_pats_push, lemma_pats_subrange, ListArity, Ctor, Pat,
    Pattern, TagId, Union, UnionModel,
};
use crate::matrix::{
    anythings, collect_ctors, contains_tag, specialize, PatternMatrix, Row, Specializer, any_fn,
    anys, arity_wf, alts_of, ctor_front_fn, fits_ctor, fits_list, fmap, head_ctor, lemma_fmap_size,
    lemma_no_growth_any, lemma_no_growth_ctor_front, lemma_no_growth_list, lemma_seen, list_fn,
    model, msize, seen, shrinks,
};

verus! {

/// The row has a last pattern, a list pattern.
pub open spec fn head_list(r: Seq<Pat>) -> bool {
    r.len() > 0 && r.last() is List
}

pub open spec fn has_list(m: Seq<Seq<Pat>>) -> bool {
    exists|i: int| 0 <= i < m.len() && #[trigger] head_list(m[i])
}

/// The least length from which on no exact list pattern heading a row applies and every
/// slice pattern heading a row does: one past the longest exact arity, and at least the
/// least length of each slice.
pub open spec fn list_bound(m: Seq<Seq<Pat>>) -> nat
    decreases m.len(),
{
    if m.len() == 0 {
        0
    } else {
        let b = list_bound(m.drop_last());
        let here: nat = if head_list(m.last()) {
            match m.last().last()->List_0 {
                ListArity::Exact(k) => (k + 1) as nat,
                ListArity::Slice(l, r) => (l + r) as nat,
            }
        } else {
            0
        };
        if here > b {
            here
        } else {
            b
        }
    }
}

/// The list arities that the lengths split into: each length below `bound` exactly, then
/// every length from `bound` on.
pub open spec fn split_arity(bound: nat, j: nat) -> ListArity {
    if j < bound {
        ListArity::Exact(j as usize)
    } else {
        ListArity::Slice(bound as usize, 0)
    }
}

/// Each row with `p` appended as a last column.
pub open spec fn push_col(rows: Seq<Seq<Pat>>, p: Pat) -> Seq<Seq<Pat>> {
    Seq::new(rows.len(), |i: int| rows[i].push(p))
}

/// Each row of `rest` extended by each of `lasts`, grouped by the pattern of `lasts`.
pub open spec fn product(rest: Seq<Seq<Pat>>, lasts: Seq<Pat>) -> Seq<Seq<Pat>>
    decreases lasts.len(),
{
    if lasts.len() == 0 {
        Seq::empty()
    } else {
        product(rest, lasts.drop_last()) + push_col(rest, lasts.last())
    }
}

/// The first `k` alternatives of `u` that are not among `tags`, each with wildcard arguments.
pub open spec fn missing(u: UnionModel, tags: Seq<TagId>, k: nat) -> Seq<Pat>
    decreases k,
{
    if k == 0 || k > u.alternatives.len() {
        Seq::empty()
    } else {
        let prev = missing(u, tags, (k - 1) as nat);
        let c = u.alternatives[k - 1];
        if tags.contains(c.tag_id) {
            prev
        } else {
            prev.push(Pat::Ctor(u, c.tag_id, anys(c.arity as nat)))
        }
    }
}

/// A witness row for a constructor: its first `arity` patterns become the arguments of the
/// constructor, which goes last.
pub open spec fn recover(u: UnionModel, tag: TagId, arity: nat, w: Seq<Pat>) -> Seq<Pat> {
    w.subrange(arity as int, w.len() as int).push(Pat::Ctor(u, tag, w.subrange(0, arity as int)))
}

/// `recover` on each witness row.
pub open spec fn recovered(u: UnionModel, tag: TagId, arity: nat, ws: Seq<Seq<Pat>>) -> Seq<
    Seq<Pat>,
> {
    Seq::new(ws.len(), |i: int| recover(u, tag, arity, ws[i]))
}

/// A witness row for a list arity: the patterns after the first `width` become the elements
/// of the list pattern, which goes last.
pub open spec fn recover_list(a: ListArity, width: nat, w: Seq<Pat>) -> Seq<Pat> {
    w.subrange(0, width as int).push(Pat::List(a, w.subrange(width as int, w.len() as int)))
}

/// `recover_list` on each witness row.
pub open spec fn recovered_lists(a: ListArity, width: nat, ws: Seq<Seq<Pat>>) -> Seq<Seq<Pat>> {
    Seq::new(ws.len(), |i: int| recover_list(a, width, ws[i]))
}

/// The rows of `n` patterns that no row of `m` matches (the last column examined first);
/// empty where `m` is exhaustive. `None` where the recursion meets rows whose heads cannot
/// stand together in a well-typed match, or widths beyond a machine word.
pub open spec fn exhaustive(m: Seq<Seq<Pat>>, n: nat) -> Option<Seq<Seq<Pat>>>
    decreases msize(m), n, 1nat, 0nat,
    via exhaustive_decreases
{
    if m.len() == 0 {
        Some(seq![anys(n)])
    } else if n == 0 {
        Some(Seq::empty())
    } else if seen(m).len() == 0 {
        if has_list(m) {
            let b = list_bound(m);
            if fits_list(m) && b <= usize::MAX {
                exhaustive_lists(m, n, b, b + 1)
            } else {
                None
            }
        } else {
            match exhaustive(fmap(m, any_fn()), (n - 1) as nat) {
                Some(rest) => Some(push_col(rest, Pat::Any)),
                None => None,
            }
        }
    } else {
        let u = alts_of(m)->0;
        if seen(m).len() < u.alternatives.len() {
            match exhaustive(fmap(m, any_fn()), (n - 1) as nat) {
                Some(rest) => Some(product(rest, missing(u, seen(m), u.alternatives.len()))),
                None => None,
            }
        } else if fits_ctor(m) {
            exhaustive_alts(m, n, u, u.alternatives.len())
        } else {
            None
        }
    }
}

/// The witnesses of the first `k` alternatives of `u`, every one of which heads a row.
pub open spec fn exhaustive_alts(m: Seq<Seq<Pat>>, n: nat, u: UnionModel, k: nat) -> Option<
    Seq<Seq<Pat>>,
>
    decreases msize(m), n, 0nat, k,
    via exhaustive_alts_decreases
{
    if k == 0 || k > u.alternatives.len() || seen(m).len() == 0 || n == 0 {
        Some(Seq::empty())
    } else {
        match exhaustive_alts(m, n, u, (k - 1) as nat) {
            Some(prev) => {
                let c = u.alternatives[k - 1];
                let width = (n - 1 + c.arity) as nat;
                if width > usize::MAX {
                    None
                } else {
                    match exhaustive(fmap(m, ctor_front_fn(c.tag_id, c.arity as nat)), width) {
                        Some(ws) => Some(prev + recovered(u, c.tag_id, c.arity as nat, ws)),
                        None => None,
                    }
                }
            },
            None => None,
        }
    }
}

/// The witnesses of the first `k` arities that the lengths of lists split into at `bound`.
pub open spec fn exhaustive_lists(m: Seq<Seq<Pat>>, n: nat, bound: nat, k: nat) -> Option<
    Seq<Seq<Pat>>,
>
    decreases msize(m), n, 0nat, k,
    via exhaustive_lists_decreases
{
    if k == 0 || !has_list(m) || n == 0 {
        Some(Seq::empty())
    } else {
        match exhaustive_lists(m, n, bound, (k - 1) as nat) {
            Some(prev) => {
                let a = split_arity(bound, (k - 1) as nat);
                let width = (n - 1 + a.min()) as nat;
                if width > usize::MAX || !arity_wf(a) {
                    None
                } else {
                    match exhaustive(fmap(m, list_fn(a)), width) {
                        Some(ws) => Some(prev + recovered_lists(a, (n - 1) as nat, ws)),
                        None => None,
                    }
                }
            },
            None => None,
        }
    }
}

#[via_fn]
proof fn exhaustive_decreases(m: Seq<Seq<Pat>>, n: nat) {
    lemma_no_growth_any();
    lemma_fmap_size(m, any_fn());
}

#[via_fn]
proof fn exhaustive_alts_decreases(m: Seq<Seq<Pat>>, n: nat, u: UnionModel, k: nat) {
    if k > 0 && k <= u.alternatives.len() && seen(m).len() > 0 {
        lemma_ctor_step_smaller(m, u.alternatives[k - 1]);
    }
}

/// Specializing by a constructor shrinks a matrix in which a constructor heads some row.
pub proof fn lemma_ctor_step_smaller(m: Seq<Seq<Pat>>, c: Ctor)
    requires
        seen(m).len() > 0,
    ensures
        msize(fmap(m, ctor_front_fn(c.tag_id, c.arity as nat))) < msize(m),
{
    let f = ctor_front_fn(c.tag_id, c.arity as nat);
    lemma_seen(m);
    let i = choose|i: int| 0 <= i < m.len() && #[trigger] head_ctor(m[i]);
    lemma_no_growth_ctor_front(c.tag_id, c.arity as nat);
    assert(shrinks(f, m[i]));
    lemma_fmap_size(m, f);
}

#[via_fn]
proof fn exhaustive_lists_decreases(m: Seq<Seq<Pat>>, n: nat, bound: nat, k: nat) {
    if k > 0 && has_list(m) {
        lemma_list_step_smaller(m, split_arity(bound, (k - 1) as nat));
    }
}

/// Specializing by a list arity shrinks a matrix in which a list pattern heads some row.
pub proof fn lemma_list_step_smaller(m: Seq<Seq<Pat>>, a: ListArity)
    requires
        has_list(m),
    ensures
        msize(fmap(m, list_fn(a))) < msize(m),
{
    let f = list_fn(a);
    let i = choose|i: int| 0 <= i < m.len() && #[trigger] head_list(m[i]);
    lemma_no_growth_list(a);
    assert(shrinks(f, m[i]));
    lemma_fmap_size(m, f);
}

/// Every row has `n` patterns.
pub open spec fn rows_of_width(ws: Seq<Seq<Pat>>, n: nat) -> bool {
    forall|i: int| 0 <= i < ws.len() ==> #[trigger] ws[i].len() == n
}

proof fn lemma_product_width(rest: Seq<Seq<Pat>>, lasts: Seq<Pat>, n: nat)
    requires
        rows_of_width(rest, n),
    ensures
        rows_of_width(product(rest, lasts), n + 1),
    decreases lasts.len(),
{
    if lasts.len() > 0 {
        lemma_product_width(rest, lasts.drop_last(), n);
        let a = product(rest, lasts.drop_last());
        let b = push_col(rest, lasts.last());
        assert forall|i: int| 0 <= i < (a + b).len() implies #[trigger] (a + b)[i].len() == n + 1 by {
            if i >= a.len() {
                assert((a + b)[i] == b[i - a.len()]);
            }
        }
    }
}

/// Each witness row has as many patterns as the matrix has columns left.
pub proof fn lemma_exhaustive_width(m: Seq<Seq<Pat>>, n: nat)
    ensures
        exhaustive(m, n) matches Some(ws) ==> rows_of_width(ws, n),
    decreases msize(m), n, 1nat, 0nat,
{
    if m.len() == 0 {
        assert(rows_of_width(seq![anys(n)], n));
    } else if n == 0 {
    } else if seen(m).len() == 0 {
        if has_list(m) {
            let b = list_bound(m);
            lemma_lists_width(m, n, b, b + 1);
        } else {
            lemma_no_growth_any();
            lemma_fmap_size(m, any_fn());
            lemma_exhaustive_width(fmap(m, any_fn()), (n - 1) as nat);
        }
    } else {
        let u = alts_of(m)->0;
        if seen(m).len() < u.alternatives.len() {
            lemma_no_growth_any();
            lemma_fmap_size(m, any_fn());
            lemma_exhaustive_width(fmap(m, any_fn()), (n - 1) as nat);
            if let Some(rest) = exhaustive(fmap(m, any_fn()), (n - 1) as nat) {
                lemma_product_width(rest, missing(u, seen(m), u.alternatives.len()), (n - 1) as nat);
            }
        } else {
            lemma_alts_width(m, n, u, u.alternatives.len());
        }
    }
}

proof fn lemma_alts_width(m: Seq<Seq<Pat>>, n: nat, u: UnionModel, k: nat)
    ensures
        exhaustive_alts(m, n, u, k) matches Some(ws) ==> rows_of_width(ws, n),
    decreases msize(m), n, 0nat, k,
{
    if k == 0 || k > u.alternatives.len() || seen(m).len() == 0 || n == 0 {
    } else {
        lemma_alts_width(m, n, u, (k - 1) as nat);
        lemma_ctor_step_smaller(m, u.alternatives[k - 1]);
        let c = u.alternatives[k - 1];
        let width = (n - 1 + c.arity) as nat;
        lemma_exhaustive_width(fmap(m, ctor_front_fn(c.tag_id, c.arity as nat)), width);
        if let Some(prev) = exhaustive_alts(m, n, u, (k - 1) as nat) {
            if let Some(ws) = exhaustive(fmap(m, ctor_front_fn(c.tag_id, c.arity as nat)), width) {
                let b = recovered(u, c.tag_id, c.arity as nat, ws);
                assert forall|i: int| 0 <= i < (prev + b).len() implies #[trigger] (prev + b)[i].len() == n by {
                    if i >= prev.len() {
                        assert((prev + b)[i] == b[i - prev.len()]);
                        assert(ws[i - prev.len()].len() == width);
                    }
                }
            }
        }
    }
}

proof fn lemma_lists_width(m: Seq<Seq<Pat>>, n: nat, bound: nat, k: nat)
    ensures
        exhaustive_lists(m, n, bound, k) matches Some(ws) ==> rows_of_width(ws, n),
    decreases msize(m), n, 0nat, k,
{
    if k == 0 || !has_list(m) || n == 0 {
    } else {
        lemma_lists_width(m, n, bound, (k - 1) as nat);
        lemma_list_step_smaller(m, split_arity(bound, (k - 1) as nat));
        let a = split_arity(bound, (k - 1) as nat);
        let width = (n - 1 + a.min()) as nat;
        lemma_exhaustive_width(fmap(m, list_fn(a)), width);
        if let Some(prev) = exhaustive_lists(m, n, bound, (k - 1) as nat) {
            if let Some(ws) = exhaustive(fmap(m, list_fn(a)), width) {
                let b = recovered_lists(a, (n - 1) as nat, ws);
                assert forall|i: int| 0 <= i < (prev + b).len() implies #[trigger] (prev + b)[i].len() == n by {
                    if i >= prev.len() {
                        assert((prev + b)[i] == b[i - prev.len()]);
                        assert(ws[i - prev.len()].len() == width);
                    }
                }
            }
        }
    }
}


proof fn lemma_alts_prefix(m: Seq<Seq<Pat>>, n: nat, u: UnionModel, k: nat, k2: nat)
    requires
        k <= k2 <= u.alternatives.len(),
        exhaustive_alts(m, n, u, k2) is Some,
    ensures
        exhaustive_alts(m, n, u, k) is Some,
    decreases k2,
{
    if k2 > k {
        lemma_alts_prefix(m, n, u, k, (k2 - 1) as nat);
    }
}

proof fn lemma_lists_prefix(m: Seq<Seq<Pat>>, n: nat, bound: nat, k: nat, k2: nat)
    requires
        k <= k2,
        exhaustive_lists(m, n, bound, k2) is Some,
    ensures
        exhaustive_lists(m, n, bound, k) is Some,
    decreases k2,
{
    if k2 > k {
        lemma_lists_prefix(m, n, bound, k, (k2 - 1) as nat);
    }
}

/// Each row of `rest` with `p` appended.
fn push_column(rest: &PatternMatrix, p: &Pattern) -> (r: PatternMatrix)
    ensures
        model(r@) == push_col(model(rest@), pat(*p)),
{
    let mut r: PatternMatrix = Vec::new();
    let mut i: usize = 0;
    while i < rest.len()
        invariant
            i <= rest@.len(),
            model(r@) == push_col(model(rest@), pat(*p)).subrange(0, i as int),
        decreases rest@.len() - i,
    {
        let mut row = copy_row(&rest[i]);
        let q = p.copy();
        proof {
            lemma_pats_push(row@, q);
        }
        row.push(q);
        assert(model(r@.push(row)) =~= model(r@).push(pats(row@)));
        r.push(row);
        i = i + 1;
        assert(model(r@) =~= push_col(model(rest@), pat(*p)).subrange(0, i as int));
    }
    assert(model(r@) =~= push_col(model(rest@), pat(*p)));
    r
}

fn is_missing(union: &Union, ctors: &Vec<TagId>, ctor: &Ctor) -> (r: Option<Pattern>)
    ensures
        r matches Some(p) ==> !ctors@.contains(ctor.tag_id) && pat(p) == Pat::Ctor(
            union@,
            ctor.tag_id,
            anys(ctor.arity as nat),
        ),
        r is None ==> ctors@.contains(ctor.tag_id),
{
    if contains_tag(ctors, ctor.tag_id) {
        None
    } else {
        let anythings = anythings(ctor.arity);
        Some(Pattern::Ctor(union.copy(), ctor.tag_id, anythings))
    }
}

/// The alternatives of `union` that are not among `ctors`, with wildcard arguments.
fn missing_ctors(union: &Union, ctors: &Vec<TagId>) -> (r: Vec<Pattern>)
    ensures
        pats(r@) == missing(union@, ctors@, union@.alternatives.len()),
{
    let mut r: Vec<Pattern> = Vec::new();
    let mut i: usize = 0;
    while i < union.alternatives.len()
        invariant
            i <= union@.alternatives.len(),
            pats(r@) == missing(union@, ctors@, i as nat),
        decreases union@.alternatives.len() - i,
    {
        match is_missing(union, ctors, &union.alternatives[i]) {
            Some(p) => {
                proof {
                    lemma_pats_push(r@, p);
                }
                r.push(p);
            },
            None => {},
        }
        i = i + 1;
    }
    r
}

/// Each row of `rest` extended by each pattern of `last`.
fn cartesian(rest: &PatternMatrix, last: &Vec<Pattern>) -> (r: PatternMatrix)
    ensures
        model(r@) == product(model(rest@), pats(last@)),
{
    let mut r: PatternMatrix = Vec::new();
    let mut i: usize = 0;
    proof {
        lemma_pats(last@);
    }
    while i < last.len()
        invariant
            i <= last@.len(),
            pats(last@).len() == last@.len(),
            forall|j: int| 0 <= j < last@.len() ==> #[trigger] pats(last@)[j] == pat(last@[j]),
            model(r@) == product(model(rest@), pats(last@).subrange(0, i as int)),
        decreases last@.len() - i,
    {
        let mut column = push_column(rest, &last[i]);
        let ghost lasts = pats(last@).subrange(0, i + 1);
        assert(lasts.drop_last() =~= pats(last@).subrange(0, i as int));
        assert(model(r@ + column@) =~= model(r@) + model(column@));
        r.append(&mut column);
        i = i + 1;
    }
    assert(pats(last@).subrange(0, i as int) =~= pats(last@));
    r
}

/// Wraps the first `arity` patterns of a witness row into the constructor, which goes last.
fn recover_ctor(union: Union, tag_id: TagId, arity: usize, patterns: Row) -> (r: Row)
    requires
        patterns@.len() >= arity,
    ensures
        pats(r@) == recover(union@, tag_id, arity as nat, pats(patterns@)),
{
    let mut patterns = patterns;
    let ghost all = patterns@;
    let mut rest = patterns.split_off(arity);
    let args = patterns;
    proof {
        lemma_pats(all);
        lemma_pats_subrange(all, 0, arity as int);
        lemma_pats_subrange(all, arity as int, all.len() as int);
    }
    let p = Pattern::Ctor(union, tag_id, args);
    proof {
        lemma_pats_push(rest@, p);
    }
    rest.push(p);
    rest
}

/// Wraps the patterns after the first `width` of a witness row into a list pattern, which
/// goes last.
fn recover_list_row(arity: ListArity, width: usize, patterns: Row) -> (r: Row)
    requires
        patterns@.len() >= width,
    ensures
        pats(r@) == recover_list(arity, width as nat, pats(patterns@)),
{
    let mut rest = patterns;
    let ghost all = rest@;
    let args = rest.split_off(width);
    proof {
        lemma_pats(all);
        lemma_pats_subrange(all, 0, width as int);
        lemma_pats_subrange(all, width as int, all.len() as int);
    }
    let p = Pattern::List(arity, args);
    proof {
        lemma_pats_push(rest@, p);
    }
    rest.push(p);
    rest
}

/// Whether a list pattern heads some row, and `list_bound`.
fn list_bound_of(matrix: &PatternMatrix) -> (r: (bool, u128))
    ensures
        r.0 == has_list(model(matrix@)),
        r.1 == list_bound(model(matrix@)),
{
    let ghost m = model(matrix@);
    let mut found = false;
    let mut bound: u128 = 0;
    let mut i: usize = 0;
    while i < matrix.len()
        invariant
            i <= m.len(),
            m == model(matrix@),
            found == has_list(m.subrange(0, i as int)),
            bound == list_bound(m.subrange(0, i as int)),
            bound <= 0x2_0000_0000_0000_0000,
        decreases m.len() - i,
    {
        let ghost prefix = m.subrange(0, i as int);
        let ghost next = m.subrange(0, i + 1);
        assert(next.drop_last() =~= prefix);
        let row = &matrix[i];
        proof {
            lemma_pats(row@);
        }
        assert(next.last() == pats(row@));
        if row.len() > 0 {
            match &row[row.len() - 1] {
                Pattern::List(a, _) => {
                    let here: u128 = match a {
                        ListArity::Exact(k) => *k as u128 + 1,
                        ListArity::Slice(l, r) => *l as u128 + *r as u128,
                    };
                    if here > bound {
                        bound = here;
                    }
                    found = true;
                    assert(head_list(next[i as int]));
                },
                _ => {
                    proof {
                        if has_list(next) {
                            let j = choose|j: int| 0 <= j < next.len() && #[trigger] head_list(next[j]);
                            assert(head_list(prefix[j]));
                        }
                    }
                },
            }
        } else {
            proof {
                if has_list(next) {
                    let j = choose|j: int| 0 <= j < next.len() && #[trigger] head_list(next[j]);
                    assert(head_list(prefix[j]));
                }
            }
        }
        proof {
            if found && has_list(prefix) {
                let j = choose|j: int| 0 <= j < prefix.len() && #[trigger] head_list(prefix[j]);
                assert(head_list(next[j]));
            }
        }
        i = i + 1;
    }
    assert(m.subrange(0, i as int) =~= m);
    (found, bound)
}

/// The witnesses that `is_exhaustive` gives for one alternative of a complete column.
fn witnesses_for_ctor(matrix: &PatternMatrix, n: usize, union: &Union, c: Ctor) -> (r: PatternMatrix)
    requires
        n > 0,
        n - 1 + c.arity <= usize::MAX,
        seen(model(matrix@)).len() > 0,
        fits_ctor(model(matrix@)),
        exhaustive(fmap(model(matrix@), ctor_front_fn(c.tag_id, c.arity as nat)), (n - 1 + c.arity) as nat) is Some,
    ensures
        model(r@) == recovered(
            union@,
            c.tag_id,
            c.arity as nat,
            exhaustive(fmap(model(matrix@), ctor_front_fn(c.tag_id, c.arity as nat)), (n - 1 + c.arity) as nat)->0,
        ),
    decreases msize(model(matrix@)), n, 0nat, 0nat,
{
    let ghost m = model(matrix@);
    proof {
        lemma_ctor_step_smaller(m, c);
    }
    let width = n - 1 + c.arity;
    let new_matrix = specialize(matrix, &Specializer::CtorFront(c.tag_id, c.arity));
    let rest = is_exhaustive(&new_matrix, width);
    let ghost ws = model(rest@);
    proof {
        lemma_exhaustive_width(model(new_matrix@), width as nat);
    }
    let mut r: PatternMatrix = Vec::new();
    let mut j: usize = 0;
    while j < rest.len()
        invariant
            j <= rest@.len(),
            ws == model(rest@),
            rows_of_width(ws, width as nat),
            model(r@) == recovered(union@, c.tag_id, c.arity as nat, ws.subrange(0, j as int)),
            width == n - 1 + c.arity,
            n > 0,
        decreases rest@.len() - j,
    {
        assert(ws[j as int].len() == width);
        proof {
            lemma_pats(rest@[j as int]@);
        }
        let copied = copy_row(&rest[j]);
        proof {
            lemma_pats(copied@);
        }
        let row = recover_ctor(union.copy(), c.tag_id, c.arity, copied);
        assert(model(r@.push(row)) =~= model(r@).push(pats(row@)));
        r.push(row);
        j = j + 1;
        assert(model(r@) =~= recovered(union@, c.tag_id, c.arity as nat, ws.subrange(0, j as int)));
    }
    assert(ws.subrange(0, j as int) =~= ws);
    r
}

/// The witnesses that `is_exhaustive` gives for one list arity of a column of lists.
fn witnesses_for_list(matrix: &PatternMatrix, n: usize, a: ListArity) -> (r: PatternMatrix)
    requires
        n > 0,
        arity_wf(a),
        n - 1 + a.min() <= usize::MAX,
        has_list(model(matrix@)),
        fits_list(model(matrix@)),
        exhaustive(fmap(model(matrix@), list_fn(a)), (n - 1 + a.min()) as nat) is Some,
    ensures
        model(r@) == recovered_lists(
            a,
            (n - 1) as nat,
            exhaustive(fmap(model(matrix@), list_fn(a)), (n - 1 + a.min()) as nat)->0,
        ),
    decreases msize(model(matrix@)), n, 0nat, 0nat,
{
    let ghost m = model(matrix@);
    proof {
        lemma_list_step_smaller(m, a);
    }
    let width = n - 1 + a.min_len();
    let new_matrix = specialize(matrix, &Specializer::List(a));
    let rest = is_exhaustive(&new_matrix, width);
    let ghost ws = model(rest@);
    proof {
        lemma_exhaustive_width(model(new_matrix@), width as nat);
    }
    let mut r: PatternMatrix = Vec::new();
    let mut j: usize = 0;
    while j < rest.len()
        invariant
            j <= rest@.len(),
            ws == model(rest@),
            rows_of_width(ws, width as nat),
            model(r@) == recovered_lists(a, (n - 1) as nat, ws.subrange(0, j as int)),
            n > 0,
            width == n - 1 + a.min(),
        decreases rest@.len() - j,
    {
        assert(ws[j as int].len() == width);
        proof {
            lemma_pats(rest@[j as int]@);
        }
        let copied = copy_row(&rest[j]);
        proof {
            lemma_pats(copied@);
        }
        let row = recover_list_row(a, n - 1, copied);
        assert(model(r@.push(row)) =~= model(r@).push(pats(row@)));
        r.push(row);
        j = j + 1;
        assert(model(r@) =~= recovered_lists(a, (n - 1) as nat, ws.subrange(0, j as int)));
    }
    assert(ws.subrange(0, j as int) =~= ws);
    r
}

/// The rows of `n` patterns that no row of the matrix matches: empty exactly where the
/// matrix is exhaustive.
///
/// INVARIANTS:
///
///   The initial rows "matrix" are all of length 1
///   The initial count of items per row "n" is also 1
///   The resulting rows are examples of missing patterns
pub fn is_exhaustive(matrix: &PatternMatrix, n: usize) -> (r: PatternMatrix)
    requires
        exhaustive(model(matrix@), n as nat) is Some,
    ensures
        model(r@) == exhaustive(model(matrix@), n as nat)->0,
    decreases msize(model(matrix@)), n, 1nat, 0nat,
{
    let ghost m = model(matrix@);
    if matrix.len() == 0 {
        let mut r: PatternMatrix = Vec::new();
        r.push(anythings(n));
        assert(model(r@) =~= seq![anys(n as nat)]);
        return r;
    }
    if n == 0 {
        let r: PatternMatrix = Vec::new();
        assert(model(r@) =~= Seq::<Seq<Pat>>::empty());
        return r;
    }
    let (ctors, union) = collect_ctors(matrix);
    proof {
        lemma_seen(m);
        lemma_no_growth_any();
        lemma_fmap_size(m, any_fn());
    }
    if ctors.len() == 0 {
        let (found, bound) = list_bound_of(matrix);
        if found {
            let bound = bound as usize;
            let mut r: PatternMatrix = Vec::new();
            let mut j: usize = 0;
            while j < bound
                invariant
                    j <= bound,
                    bound == list_bound(m),
                    m == model(matrix@),
                    n > 0,
                    has_list(m),
                    fits_list(m),
                    exhaustive_lists(m, n as nat, bound as nat, (bound + 1) as nat) is Some,
                    exhaustive_lists(m, n as nat, bound as nat, j as nat) is Some,
                    model(r@) == exhaustive_lists(m, n as nat, bound as nat, j as nat)->0,
                decreases bound - j,
            {
                proof {
                    lemma_lists_prefix(m, n as nat, bound as nat, (j + 1) as nat, (bound + 1) as nat);
                }
                let mut ws = witnesses_for_list(matrix, n, ListArity::Exact(j));
                assert(model(r@ + ws@) =~= model(r@) + model(ws@));
                r.append(&mut ws);
                j = j + 1;
            }
            let mut ws = witnesses_for_list(matrix, n, ListArity::Slice(bound, 0));
            assert(model(r@ + ws@) =~= model(r@) + model(ws@));
            r.append(&mut ws);
            return r;
        }
        let new_matrix = specialize(matrix, &Specializer::Anything);
        let rest = is_exhaustive(&new_matrix, n - 1);
        return push_column(&rest, &Pattern::Anything);
    }
    let alts = match union {
        Some(u) => u,
        None => {
            proof {
                assert(false);
            }
            return Vec::new();
        },
    };
    if ctors.len() < alts.alternatives.len() {
        let new_matrix = specialize(matrix, &Specializer::Anything);
        let rest = is_exhaustive(&new_matrix, n - 1);
        let last = missing_ctors(&alts, &ctors);
        cartesian(&rest, &last)
    } else {
        let ghost u = alts@;
        let mut r: PatternMatrix = Vec::new();
        let mut i: usize = 0;
        while i < alts.alternatives.len()
            invariant
                i <= u.alternatives.len(),
                u == alts@,
                m == model(matrix@),
                n > 0,
                seen(m).len() > 0,
                fits_ctor(m),
                exhaustive_alts(m, n as nat, u, u.alternatives.len()) is Some,
                exhaustive_alts(m, n as nat, u, i as nat) is Some,
                model(r@) == exhaustive_alts(m, n as nat, u, i as nat)->0,
            decreases u.alternatives.len() - i,
        {
            proof {
                lemma_alts_prefix(m, n as nat, u, (i + 1) as nat, u.alternatives.len());
            }
            let mut ws = witnesses_for_ctor(matrix, n, &alts, alts.alternatives[i]);
            assert(model(r@ + ws@) =~= model(r@) + model(ws@));
            r.append(&mut ws);
            i = i + 1;
        }
        r
    }
}

} // verus!
