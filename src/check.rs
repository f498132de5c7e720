//! The checks that the compiler runs on a match: exhaustiveness and redundant branches.
use vstd::prelude::*;
use crate::pattern::{copy_row, pat, pats, lemma_pats, HumanIndex, Pat, Pattern, Region};
use crate::matrix::{model, PatternMatrix};
use crate::useful::{is_useful, useful};
use crate::exhaustive::{exhaustive, is_exhaustive, lemma_exhaustive_width, rows_of_width};

verus! {

/// Why exhaustiveness is checked.
#[derive(Clone, Copy, Debug, PartialEq, Eq, Structural)]
pub enum Context {
    BadArg,
    BadDestruct,
    BadCase,
}

/// Whether a branch has a pattern guard.
#[derive(Clone, Copy, Debug, PartialEq, Eq, Structural)]
pub enum Guard {
    HasGuard,
    NoGuard,
}

#[derive(Debug, PartialEq)]
pub enum Error {
    Incomplete(Region, Context, Vec<Pattern>),
    Redundant { overall_region: Region, branch_region: Region, index: HumanIndex },
    Unmatchable { overall_region: Region, branch_region: Region, index: HumanIndex },
}

/// The sole pattern of each witness row.
pub open spec fn heads(ws: Seq<Seq<Pat>>) -> Seq<Pat> {
    Seq::new(ws.len(), |i: int| ws[i][0])
}

/// Fails with one `Incomplete` error, listing the witnesses, exactly where the single-column
/// matrix is not exhaustive.
pub fn check(region: Region, context: Context, matrix: Vec<Vec<Pattern>>) -> (r: Result<
    (),
    Vec<Error>,
>)
    requires
        exhaustive(model(matrix@), 1) is Some,
    ensures
        r is Ok <==> exhaustive(model(matrix@), 1)->0.len() == 0,
        r matches Err(errors) ==> errors@.len() == 1 && (errors@[0] matches Error::Incomplete(
            reg,
            ctx,
            witnesses,
        ) && reg == region && ctx == context && pats(witnesses@) == heads(
            exhaustive(model(matrix@), 1)->0,
        )),
{
    let mut errors: Vec<Error> = Vec::new();
    let bad_patterns = is_exhaustive(&matrix, 1);
    let ghost ws = model(bad_patterns@);
    proof {
        lemma_exhaustive_width(model(matrix@), 1);
    }
    if bad_patterns.len() > 0 {
        let mut witnesses: Vec<Pattern> = Vec::new();
        let mut i: usize = 0;
        while i < bad_patterns.len()
            invariant
                i <= ws.len(),
                ws == model(bad_patterns@),
                rows_of_width(ws, 1),
                pats(witnesses@) == heads(ws).subrange(0, i as int),
            decreases ws.len() - i,
        {
            let row = &bad_patterns[i];
            proof {
                lemma_pats(row@);
                lemma_pats(witnesses@);
                assert(ws[i as int].len() == 1);
            }
            let head = row[0].copy();
            proof {
                crate::pattern::lemma_pats_push(witnesses@, head);
                assert(heads(ws).subrange(0, i + 1) =~= heads(ws).subrange(0, i as int).push(
                    pat(head),
                ));
            }
            witnesses.push(head);
            i = i + 1;
        }
        assert(heads(ws).subrange(0, i as int) =~= heads(ws));
        errors.push(Error::Incomplete(region, context, witnesses));
        return Err(errors);
    }
    Ok(())
}

/// The `Redundant` errors among the first `k` branches: branch `i` is redundant where it is
/// not useful against the branches before it.
pub open spec fn redundancy(overall: Region, regions: Seq<Region>, rows: Seq<Seq<Pat>>, k: nat) -> Seq<
    Error,
>
    decreases k,
{
    if k == 0 {
        Seq::empty()
    } else {
        let prev = redundancy(overall, regions, rows, (k - 1) as nat);
        let i = k - 1;
        if useful(rows.subrange(0, i), rows[i]) == Some(false) {
            prev.push(
                Error::Redundant {
                    overall_region: overall,
                    branch_region: regions[i],
                    index: HumanIndex(i as usize),
                },
            )
        } else {
            prev
        }
    }
}

fn copy_matrix(matrix: &PatternMatrix) -> (r: PatternMatrix)
    ensures
        model(r@) == model(matrix@),
{
    let mut r: PatternMatrix = Vec::new();
    let mut i: usize = 0;
    while i < matrix.len()
        invariant
            i <= matrix@.len(),
            model(r@) == model(matrix@).subrange(0, i as int),
        decreases matrix@.len() - i,
    {
        let row = copy_row(&matrix[i]);
        assert(model(r@.push(row)) =~= model(r@).push(pats(row@)));
        r.push(row);
        i = i + 1;
        assert(model(r@) =~= model(matrix@).subrange(0, i as int));
    }
    assert(model(r@) =~= model(matrix@));
    r
}

/// Reports, in order, each branch that no value reaches past the branches before it.
pub fn redundant_branches(overall_region: Region, branch_regions: &Vec<Region>, matrix: &PatternMatrix) -> (r:
    Vec<Error>)
    requires
        branch_regions@.len() == matrix@.len(),
        forall|i: int|
            0 <= i < matrix@.len() ==> #[trigger] useful(
                model(matrix@).subrange(0, i),
                model(matrix@)[i],
            ) is Some,
    ensures
        r@ == redundancy(overall_region, branch_regions@, model(matrix@), matrix@.len() as nat),
{
    let ghost rows = model(matrix@);
    let mut errors: Vec<Error> = Vec::new();
    let mut prefix: PatternMatrix = Vec::new();
    let mut i: usize = 0;
    while i < matrix.len()
        invariant
            i <= matrix@.len(),
            rows == model(matrix@),
            branch_regions@.len() == matrix@.len(),
            forall|j: int| 0 <= j < matrix@.len() ==> #[trigger] useful(rows.subrange(0, j), rows[j]) is Some,
            model(prefix@) == rows.subrange(0, i as int),
            errors@ == redundancy(overall_region, branch_regions@, rows, i as nat),
        decreases matrix@.len() - i,
    {
        let earlier = copy_matrix(&prefix);
        let branch = copy_row(&matrix[i]);
        assert(useful(rows.subrange(0, i as int), rows[i as int]) is Some);
        if !is_useful(earlier, branch) {
            errors.push(
                Error::Redundant {
                    overall_region,
                    branch_region: branch_regions[i],
                    index: HumanIndex(i),
                },
            );
        }
        let row = copy_row(&matrix[i]);
        assert(model(prefix@.push(row)) =~= model(prefix@).push(pats(row@)));
        prefix.push(row);
        i = i + 1;
        assert(model(prefix@) =~= rows.subrange(0, i as int));
    }
    errors
}

} // verus!
