//! Pattern matrices and the specialization of their last column.
use vstd::prelude::*;
use crate::pattern::{
    copy_row, lemma_pats, lemma_pats_concat, lemma_pats_drop_last, lemma_pats_push,
    lemma_pats_subrange, pat, pats, Ctor, ListArity, Literal, LiteralModel, Pat, Pattern, TagId,
    Union, UnionModel,
};

verus! {

/// A row of patterns; its last pattern is the column being examined.
pub type Row = Vec<Pattern>;

/// Rows of equal width, one per branch.
pub type PatternMatrix = Vec<Vec<Pattern>>;

/// `k` wildcards.
pub open spec fn anys(k: nat) -> Seq<Pat> {
    Seq::new(k, |_i: int| Pat::Any)
}

/// The model of a matrix: the model of each row.
pub open spec fn model(m: Seq<Vec<Pattern>>) -> Seq<Seq<Pat>> {
    Seq::new(m.len(), |i: int| pats(m[i]@))
}

/// Keeps, in order, the rows that `f` maps to `Some`, replaced by what it maps them to.
pub open spec fn fmap(m: Seq<Seq<Pat>>, f: spec_fn(Seq<Pat>) -> Option<Seq<Pat>>) -> Seq<Seq<Pat>>
    decreases m.len(),
{
    if m.len() == 0 {
        Seq::empty()
    } else {
        let rest = fmap(m.drop_last(), f);
        match f(m.last()) {
            Some(r) => rest.push(r),
            None => rest,
        }
    }
}

/// A row headed by the constructor `tag` (or a wildcard) keeps what remains to match:
/// the constructor's arguments, in front of the other columns.
pub open spec fn by_ctor_front(r: Seq<Pat>, tag: TagId, arity: nat) -> Option<Seq<Pat>> {
    if r.len() == 0 {
        None
    } else {
        match r.last() {
            Pat::Ctor(_, id, args) => if id == tag {
                Some(args + r.drop_last())
            } else {
                None
            },
            Pat::Any => Some(anys(arity) + r.drop_last()),
            _ => None,
        }
    }
}

/// As `by_ctor_front`, with the arguments after the other columns.
pub open spec fn by_ctor_back(r: Seq<Pat>, tag: TagId, arity: nat) -> Option<Seq<Pat>> {
    if r.len() == 0 {
        None
    } else {
        match r.last() {
            Pat::Ctor(_, id, args) => if id == tag {
                Some(r.drop_last() + args)
            } else {
                None
            },
            Pat::Any => Some(r.drop_last() + anys(arity)),
            _ => None,
        }
    }
}

/// The element patterns that a list pattern of arity `this` with elements `args` gives to a
/// list of arity `spec`: the gap of a slice is filled with wildcards.
pub open spec fn list_fields(this: ListArity, args: Seq<Pat>, spec: ListArity) -> Seq<Pat> {
    if this.min() == spec.min() {
        args
    } else {
        match this {
            ListArity::Slice(before, after) => args.subrange(0, before as int) + anys(
                (spec.min() - this.min()) as nat,
            ) + args.subrange(args.len() - after, args.len() as int),
            ListArity::Exact(_) => args,
        }
    }
}

/// A row headed by a list pattern that covers `spec` (or a wildcard) keeps the list's
/// element patterns after the other columns.
pub open spec fn by_list(r: Seq<Pat>, spec: ListArity) -> Option<Seq<Pat>> {
    if r.len() == 0 {
        None
    } else {
        match r.last() {
            Pat::List(this, args) => if this.covers(spec) && args.len() == this.min() {
                Some(r.drop_last() + list_fields(this, args, spec))
            } else {
                None
            },
            Pat::Any => Some(r.drop_last() + anys(spec.min())),
            _ => None,
        }
    }
}

/// A row headed by a wildcard keeps its other columns.
pub open spec fn by_any(r: Seq<Pat>) -> Option<Seq<Pat>> {
    if r.len() > 0 && r.last() is Any {
        Some(r.drop_last())
    } else {
        None
    }
}

/// A row headed by a wildcard or by the literal `l` keeps its other columns.
pub open spec fn by_lit(r: Seq<Pat>, l: LiteralModel) -> Option<Seq<Pat>> {
    if r.len() > 0 && (r.last() is Any || r.last() == Pat::Lit(l)) {
        Some(r.drop_last())
    } else {
        None
    }
}

pub open spec fn ctor_front_fn(tag: TagId, arity: nat) -> spec_fn(Seq<Pat>) -> Option<Seq<Pat>> {
    |r: Seq<Pat>| by_ctor_front(r, tag, arity)
}

pub open spec fn ctor_back_fn(tag: TagId, arity: nat) -> spec_fn(Seq<Pat>) -> Option<Seq<Pat>> {
    |r: Seq<Pat>| by_ctor_back(r, tag, arity)
}

pub open spec fn list_fn(spec: ListArity) -> spec_fn(Seq<Pat>) -> Option<Seq<Pat>> {
    |r: Seq<Pat>| by_list(r, spec)
}

pub open spec fn any_fn() -> spec_fn(Seq<Pat>) -> Option<Seq<Pat>> {
    |r: Seq<Pat>| by_any(r)
}

pub open spec fn lit_fn(l: LiteralModel) -> spec_fn(Seq<Pat>) -> Option<Seq<Pat>> {
    |r: Seq<Pat>| by_lit(r, l)
}

/// The row has a last pattern, a constructor or a wildcard.
pub open spec fn row_fits_ctor(r: Seq<Pat>) -> bool {
    r.len() > 0 && (r.last() is Any || r.last() is Ctor)
}

/// The row has a last pattern, a wildcard or a list pattern with one element pattern for
/// each position that its arity fixes.
pub open spec fn row_fits_list(r: Seq<Pat>) -> bool {
    r.len() > 0 && match r.last() {
        Pat::Any => true,
        Pat::List(a, args) => arity_wf(a) && args.len() == a.min(),
        _ => false,
    }
}

/// The row has a last pattern, a wildcard or a literal.
pub open spec fn row_fits_lit(r: Seq<Pat>) -> bool {
    r.len() > 0 && (r.last() is Any || r.last() is Lit)
}

/// Every row has a last pattern, a constructor or a wildcard.
pub open spec fn fits_ctor(m: Seq<Seq<Pat>>) -> bool {
    forall|i: int| 0 <= i < m.len() ==> #[trigger] row_fits_ctor(m[i])
}

/// A list arity whose least length is a machine word.
pub open spec fn arity_wf(a: ListArity) -> bool {
    a.min() <= usize::MAX
}

/// Every row has a last pattern, a wildcard or a list pattern with one element pattern for
/// each position that its arity fixes.
pub open spec fn fits_list(m: Seq<Seq<Pat>>) -> bool {
    forall|i: int| 0 <= i < m.len() ==> #[trigger] row_fits_list(m[i])
}

/// Every row has a last pattern, a wildcard or a literal.
pub open spec fn fits_lit(m: Seq<Seq<Pat>>) -> bool {
    forall|i: int| 0 <= i < m.len() ==> #[trigger] row_fits_lit(m[i])
}

// Sizes, which the recursions over matrices decrease.

/// The number of nodes of a pattern, a wildcard counting `w`.
pub open spec fn psize(p: Pat, w: nat) -> nat
    decreases p,
{
    match p {
        Pat::Any => w,
        Pat::Lit(_) => 1,
        Pat::Ctor(_, _, args) => 1 + ssize(args, w),
        Pat::List(_, args) => 1 + ssize(args, w),
    }
}

pub open spec fn ssize(s: Seq<Pat>, w: nat) -> nat
    decreases s,
{
    if s.len() == 0 {
        0
    } else {
        ssize(s.drop_last(), w) + psize(s.last(), w)
    }
}

/// The number of nodes of a matrix that are not wildcards.
pub open spec fn msize(m: Seq<Seq<Pat>>) -> nat
    decreases m.len(),
{
    if m.len() == 0 {
        0
    } else {
        msize(m.drop_last()) + ssize(m.last(), 0)
    }
}

pub proof fn lemma_ssize_concat(a: Seq<Pat>, b: Seq<Pat>, w: nat)
    ensures
        ssize(a + b, w) == ssize(a, w) + ssize(b, w),
    decreases b.len(),
{
    if b.len() > 0 {
        lemma_ssize_concat(a, b.drop_last(), w);
        assert((a + b).drop_last() =~= a + b.drop_last());
    } else {
        assert(a + b =~= a);
    }
}

pub proof fn lemma_ssize_anys(k: nat, w: nat)
    ensures
        ssize(anys(k), w) == k * w,
    decreases k,
{
    if k > 0 {
        lemma_ssize_anys((k - 1) as nat, w);
        assert(anys(k).drop_last() =~= anys((k - 1) as nat));
        assert(anys(k).last() == Pat::Any);
        assert(psize(Pat::Any, w) == w);
        assert(ssize(anys(k), w) == ssize(anys((k - 1) as nat), w) + w);
        assert(k * w == ((k - 1) as nat) * w + w) by (nonlinear_arith)
            requires
                k > 0,
        ;
    } else {
        assert(ssize(anys(k), w) == 0);
        assert(k * w == 0);
    }
}

pub proof fn lemma_ssize_split(s: Seq<Pat>, i: int, j: int, w: nat)
    requires
        0 <= i <= j <= s.len(),
    ensures
        ssize(s.subrange(0, i), w) + ssize(s.subrange(j, s.len() as int), w) <= ssize(s, w),
{
    let a = s.subrange(0, i);
    let b = s.subrange(i, j);
    let c = s.subrange(j, s.len() as int);
    assert(s =~= a + b + c);
    lemma_ssize_concat(a + b, c, w);
    lemma_ssize_concat(a, b, w);
}

/// `f` never makes a row larger, and drops or shrinks `r`.
pub open spec fn shrinks(f: spec_fn(Seq<Pat>) -> Option<Seq<Pat>>, r: Seq<Pat>) -> bool {
    match f(r) {
        Some(x) => ssize(x, 0) < ssize(r, 0),
        None => ssize(r, 0) > 0,
    }
}

pub open spec fn no_growth(f: spec_fn(Seq<Pat>) -> Option<Seq<Pat>>) -> bool {
    forall|r: Seq<Pat>| #[trigger] f(r) is Some ==> ssize(f(r)->0, 0) <= ssize(r, 0)
}

pub proof fn lemma_fmap_size(m: Seq<Seq<Pat>>, f: spec_fn(Seq<Pat>) -> Option<Seq<Pat>>)
    requires
        no_growth(f),
    ensures
        msize(fmap(m, f)) <= msize(m),
        (exists|i: int| 0 <= i < m.len() && #[trigger] shrinks(f, m[i])) ==> msize(fmap(m, f))
            < msize(m),
    decreases m.len(),
{
    if m.len() > 0 {
        let rest = fmap(m.drop_last(), f);
        lemma_fmap_size(m.drop_last(), f);
        if let Some(x) = f(m.last()) {
            assert(rest.push(x).drop_last() =~= rest);
            assert(msize(rest.push(x)) == msize(rest) + ssize(x, 0));
        }
        if exists|i: int| 0 <= i < m.len() && #[trigger] shrinks(f, m[i]) {
            let i = choose|i: int| 0 <= i < m.len() && #[trigger] shrinks(f, m[i]);
            if i < m.len() - 1 {
                assert(m.drop_last()[i] == m[i]);
            }
        }
    }
}

pub proof fn lemma_last_size(r: Seq<Pat>)
    requires
        r.len() > 0,
    ensures
        ssize(r, 0) == ssize(r.drop_last(), 0) + psize(r.last(), 0),
{
}

pub proof fn lemma_no_growth_ctor_front(tag: TagId, arity: nat)
    ensures
        no_growth(ctor_front_fn(tag, arity)),
        forall|r: Seq<Pat>|
            r.len() > 0 && r.last() is Ctor ==> #[trigger] shrinks(ctor_front_fn(tag, arity), r),
{
    assert forall|r: Seq<Pat>| #[trigger] ctor_front_fn(tag, arity)(r) is Some implies ssize(ctor_front_fn(tag, arity)(r)->0, 0) <= ssize(r, 0) by {
        match r.last() {
            Pat::Ctor(_, id, args) => {
                lemma_ssize_concat(args, r.drop_last(), 0);
                assert(psize(r.last(), 0) == 1 + ssize(args, 0));
            },
            _ => {
                lemma_ssize_concat(anys(arity), r.drop_last(), 0);
                lemma_ssize_anys(arity, 0);
            },
        }
    }
    assert forall|r: Seq<Pat>| r.len() > 0 && r.last() is Ctor implies #[trigger] shrinks(ctor_front_fn(tag, arity), r) by {
        if let Pat::Ctor(_, id, args) = r.last() {
            lemma_ssize_concat(args, r.drop_last(), 0);
            assert(psize(r.last(), 0) == 1 + ssize(args, 0));
        }
    }
}

pub proof fn lemma_no_growth_ctor_back(tag: TagId, arity: nat)
    ensures
        no_growth(ctor_back_fn(tag, arity)),
        forall|r: Seq<Pat>|
            r.len() > 0 && r.last() is Ctor ==> #[trigger] shrinks(ctor_back_fn(tag, arity), r),
{
    assert forall|r: Seq<Pat>| #[trigger] ctor_back_fn(tag, arity)(r) is Some implies ssize(ctor_back_fn(tag, arity)(r)->0, 0) <= ssize(r, 0) by {
        match r.last() {
            Pat::Ctor(_, id, args) => {
                lemma_ssize_concat(r.drop_last(), args, 0);
                assert(psize(r.last(), 0) == 1 + ssize(args, 0));
            },
            _ => {
                lemma_ssize_concat(r.drop_last(), anys(arity), 0);
                lemma_ssize_anys(arity, 0);
            },
        }
    }
    assert forall|r: Seq<Pat>| r.len() > 0 && r.last() is Ctor implies #[trigger] shrinks(ctor_back_fn(tag, arity), r) by {
        if let Pat::Ctor(_, id, args) = r.last() {
            lemma_ssize_concat(r.drop_last(), args, 0);
            assert(psize(r.last(), 0) == 1 + ssize(args, 0));
        }
    }
}

pub proof fn lemma_no_growth_list(spec: ListArity)
    ensures
        no_growth(list_fn(spec)),
        forall|r: Seq<Pat>|
            r.len() > 0 && r.last() is List ==> #[trigger] shrinks(list_fn(spec), r),
{
    assert forall|r: Seq<Pat>| r.len() > 0 && !(r.last() is Any) && #[trigger] list_fn(spec)(r) is Some implies ssize(list_fn(spec)(r)->0, 0) < ssize(r, 0) by {
        if let Pat::List(this, args) = r.last() {
            let fields = list_fields(this, args, spec);
            lemma_ssize_concat(r.drop_last(), fields, 0);
            assert(psize(r.last(), 0) == 1 + ssize(args, 0));
            if this.min() != spec.min() {
                if let ListArity::Slice(before, after) = this {
                    let a = args.subrange(0, before as int);
                    let k = (spec.min() - this.min()) as nat;
                    let c = args.subrange(args.len() - after, args.len() as int);
                    lemma_ssize_concat(a + anys(k), c, 0);
                    lemma_ssize_concat(a, anys(k), 0);
                    lemma_ssize_anys(k, 0);
                    lemma_ssize_split(args, before as int, args.len() - after, 0);
                }
            }
        }
    }
    assert forall|r: Seq<Pat>| r.len() > 0 && r.last() is List implies #[trigger] shrinks(list_fn(spec), r) by {
        if list_fn(spec)(r) is None {
            assert(psize(r.last(), 0) >= 1);
        }
    }
    assert forall|r: Seq<Pat>| #[trigger] list_fn(spec)(r) is Some implies ssize(list_fn(spec)(r)->0, 0) <= ssize(r, 0) by {
        if r.last() is Any {
            lemma_ssize_concat(r.drop_last(), anys(spec.min()), 0);
            lemma_ssize_anys(spec.min(), 0);
        }
    }
}

pub proof fn lemma_no_growth_any()
    ensures
        no_growth(any_fn()),
{
}

pub proof fn lemma_no_growth_lit(l: LiteralModel)
    ensures
        no_growth(lit_fn(l)),
{
}


// Executable specialization.

/// What the last column of a matrix is specialized by.
pub enum Specializer {
    /// A constructor's tag id and arity; its arguments go in front of the other columns.
    CtorFront(TagId, usize),
    /// A constructor's tag id and arity; its arguments go after the other columns.
    CtorBack(TagId, usize),
    /// A list arity; the element patterns go after the other columns.
    List(ListArity),
    /// A wildcard.
    Anything,
    /// A literal.
    Literal(Literal),
}

impl Specializer {
    pub open spec fn row_fn(&self) -> spec_fn(Seq<Pat>) -> Option<Seq<Pat>> {
        match self {
            Specializer::CtorFront(tag, arity) => ctor_front_fn(*tag, *arity as nat),
            Specializer::CtorBack(tag, arity) => ctor_back_fn(*tag, *arity as nat),
            Specializer::List(a) => list_fn(*a),
            Specializer::Anything => any_fn(),
            Specializer::Literal(l) => lit_fn(l@),
        }
    }

    /// The row is one that this specializer can meet in a well-typed match.
    pub open spec fn row_fits(&self, r: Seq<Pat>) -> bool {
        match self {
            Specializer::CtorFront(..) => row_fits_ctor(r),
            Specializer::CtorBack(..) => row_fits_ctor(r),
            Specializer::List(a) => arity_wf(*a) && row_fits_list(r),
            Specializer::Anything => true,
            Specializer::Literal(_) => row_fits_lit(r),
        }
    }

    pub open spec fn fits(&self, m: Seq<Seq<Pat>>) -> bool {
        forall|i: int| 0 <= i < m.len() ==> #[trigger] self.row_fits(m[i])
    }
}

pub open spec fn opt_pats(o: Option<Row>) -> Option<Seq<Pat>> {
    match o {
        Some(v) => Some(pats(v@)),
        None => None,
    }
}

/// `k` wildcards.
pub fn anythings(k: usize) -> (r: Row)
    ensures
        pats(r@) == anys(k as nat),
{
    let mut r: Row = Vec::new();
    let mut i: usize = 0;
    while i < k
        invariant
            i <= k,
            pats(r@) == anys(i as nat),
        decreases k - i,
    {
        proof {
            lemma_pats_push(r@, Pattern::Anything);
            assert(anys(i as nat).push(Pat::Any) =~= anys((i + 1) as nat));
        }
        r.push(Pattern::Anything);
        i = i + 1;
    }
    r
}

/// Appends `tail` to `row`.
pub(crate) fn extend_row(row: &mut Row, tail: Row)
    ensures
        pats(final(row)@) == pats(old(row)@) + pats(tail@),
{
    let mut tail = tail;
    proof {
        lemma_pats_concat(row@, tail@);
    }
    row.append(&mut tail);
}

/// Splits a copy of the row into its last pattern and the others.
fn pop_copy(row: &Row) -> (r: (Row, Pattern))
    requires
        row@.len() > 0,
    ensures
        pats(r.0@) == pats(row@).drop_last(),
        pat(r.1) == pats(row@).last(),
{
    let mut rest = copy_row(row);
    proof {
        lemma_pats(row@);
        lemma_pats(rest@);
        lemma_pats_drop_last(rest@);
    }
    let ghost before = rest@;
    let head = rest.pop();
    match head {
        Some(p) => {
            assert(before.drop_last() == rest@);
            (rest, p)
        },
        None => {
            proof {
                assert(false);
            }
            (rest, Pattern::Anything)
        },
    }
}

/// The row specialized by a constructor, its arguments in front (a wildcard gives `arity`
/// wildcards).
fn specialize_row_by_ctor(tag_id: TagId, arity: usize, row: &Row) -> (r: Option<Row>)
    requires
        row_fits_ctor(pats(row@)),
    ensures
        opt_pats(r) == by_ctor_front(pats(row@), tag_id, arity as nat),
{
    proof {
        lemma_pats(row@);
    }
    let (patterns, head) = pop_copy(row);
    match head {
        Pattern::Ctor(_, id, args) => {
            if id.0 == tag_id.0 {
                let mut new_patterns = args;
                extend_row(&mut new_patterns, patterns);
                Some(new_patterns)
            } else {
                None
            }
        },
        Pattern::Anything => {
            let mut new_patterns = anythings(arity);
            extend_row(&mut new_patterns, patterns);
            Some(new_patterns)
        },
        _ => {
            proof {
                assert(false);
            }
            None
        },
    }
}

/// The row specialized by a constructor, its arguments after the other columns.
fn specialize_row_by_ctor2(tag_id: TagId, arity: usize, row: &Row) -> (r: Option<Row>)
    requires
        row_fits_ctor(pats(row@)),
    ensures
        opt_pats(r) == by_ctor_back(pats(row@), tag_id, arity as nat),
{
    proof {
        lemma_pats(row@);
    }
    let (mut patterns, head) = pop_copy(row);
    match head {
        Pattern::Ctor(_, id, args) => {
            if id.0 == tag_id.0 {
                extend_row(&mut patterns, args);
                Some(patterns)
            } else {
                None
            }
        },
        Pattern::Anything => {
            extend_row(&mut patterns, anythings(arity));
            Some(patterns)
        },
        _ => {
            proof {
                assert(false);
            }
            None
        },
    }
}

/// The row specialized by a list arity: a list pattern that covers it gives its element
/// patterns, the gap of a slice filled with wildcards; a wildcard gives wildcards.
fn specialize_row_by_list(spec_arity: ListArity, row: &Row) -> (r: Option<Row>)
    requires
        arity_wf(spec_arity),
        row_fits_list(pats(row@)),
    ensures
        opt_pats(r) == by_list(pats(row@), spec_arity),
{
    proof {
        lemma_pats(row@);
    }
    let (mut row_patterns, head) = pop_copy(row);
    match head {
        Pattern::List(this_arity, args) => {
            proof {
                lemma_pats(args@);
            }
            if this_arity.covers_arity(&spec_arity) {
                let this_len = this_arity.min_len();
                let spec_len = spec_arity.min_len();
                if spec_len != this_len {
                    match this_arity {
                        ListArity::Slice(before, after) => {
                            let mut front = args;
                            let ghost all = front@;
                            let back = front.split_off(this_len - after);
                            front.truncate(before);
                            proof {
                                lemma_pats_subrange(all, 0, before as int);
                                lemma_pats_subrange(all, this_len - after, this_len as int);
                                assert(front@ =~= all.subrange(0, before as int));
                            }
                            extend_row(&mut front, anythings(spec_len - this_len));
                            extend_row(&mut front, back);
                            extend_row(&mut row_patterns, front);
                            Some(row_patterns)
                        },
                        ListArity::Exact(_) => {
                            // an exact arity covers only arities of its own length
                            proof {
                                assert(false);
                            }
                            None
                        },
                    }
                } else {
                    extend_row(&mut row_patterns, args);
                    Some(row_patterns)
                }
            } else {
                None
            }
        },
        Pattern::Anything => {
            extend_row(&mut row_patterns, anythings(spec_arity.min_len()));
            Some(row_patterns)
        },
        _ => {
            proof {
                assert(false);
            }
            None
        },
    }
}

/// The other columns of a row headed by a wildcard.
fn specialize_row_by_anything(row: &Row) -> (r: Option<Row>)
    ensures
        opt_pats(r) == by_any(pats(row@)),
{
    proof {
        lemma_pats(row@);
    }
    if row.len() == 0 {
        return None;
    }
    let (patterns, head) = pop_copy(row);
    match head {
        Pattern::Anything => Some(patterns),
        _ => None,
    }
}

/// The other columns of a row headed by a wildcard or by a literal equal to `literal`.
fn specialize_row_by_literal(literal: &Literal, row: &Row) -> (r: Option<Row>)
    requires
        row_fits_lit(pats(row@)),
    ensures
        opt_pats(r) == by_lit(pats(row@), literal@),
{
    proof {
        lemma_pats(row@);
    }
    let (patterns, head) = pop_copy(row);
    match head {
        Pattern::Literal(lit) => {
            if lit.same(literal) {
                Some(patterns)
            } else {
                None
            }
        },
        Pattern::Anything => Some(patterns),
        _ => {
            proof {
                assert(false);
            }
            None
        },
    }
}

/// Specializes every row of the matrix, keeping in order the rows that survive.
pub fn specialize(matrix: &PatternMatrix, by: &Specializer) -> (r: PatternMatrix)
    requires
        by.fits(model(matrix@)),
    ensures
        model(r@) == fmap(model(matrix@), by.row_fn()),
{
    let mut r: PatternMatrix = Vec::new();
    let mut i: usize = 0;
    while i < matrix.len()
        invariant
            i <= matrix@.len(),
            by.fits(model(matrix@)),
            model(r@) == fmap(model(matrix@).subrange(0, i as int), by.row_fn()),
        decreases matrix@.len() - i,
    {
        let ghost prefix = model(matrix@).subrange(0, i as int);
        let ghost next = model(matrix@).subrange(0, i + 1);
        assert(next.drop_last() =~= prefix);
        assert(next.last() == pats(matrix@[i as int]@));
        assert(by.row_fits(model(matrix@)[i as int]));
        let row = &matrix[i];
        let out = match by {
            Specializer::CtorFront(tag, arity) => specialize_row_by_ctor(*tag, *arity, row),
            Specializer::CtorBack(tag, arity) => specialize_row_by_ctor2(*tag, *arity, row),
            Specializer::List(a) => specialize_row_by_list(*a, row),
            Specializer::Anything => specialize_row_by_anything(row),
            Specializer::Literal(l) => specialize_row_by_literal(l, row),
        };
        match out {
            Some(new_row) => {
                assert(model(r@.push(new_row)) =~= model(r@).push(pats(new_row@)));
                r.push(new_row);
            },
            None => {},
        }
        i = i + 1;
    }
    assert(model(matrix@).subrange(0, i as int) =~= model(matrix@));
    r
}


// Constructors in the last column.

/// The tag ids of the constructors heading the rows, each once, in order of first appearance.
pub open spec fn seen(m: Seq<Seq<Pat>>) -> Seq<TagId>
    decreases m.len(),
{
    if m.len() == 0 {
        Seq::empty()
    } else {
        let s = seen(m.drop_last());
        if m.last().len() > 0 {
            match m.last().last() {
                Pat::Ctor(_, id, _) => if s.contains(id) {
                    s
                } else {
                    s.push(id)
                },
                _ => s,
            }
        } else {
            s
        }
    }
}

/// The union of the last row headed by a constructor.
pub open spec fn alts_of(m: Seq<Seq<Pat>>) -> Option<UnionModel>
    decreases m.len(),
{
    if m.len() == 0 {
        None
    } else if m.last().len() > 0 && m.last().last() is Ctor {
        Some(m.last().last()->Ctor_0)
    } else {
        alts_of(m.drop_last())
    }
}

/// The alternatives of the column's union, where as many distinct constructors head the rows
/// as the union has alternatives.
pub open spec fn complete(m: Seq<Seq<Pat>>) -> Option<Seq<Ctor>> {
    if seen(m).len() == 0 {
        None
    } else {
        let u = alts_of(m)->0;
        if seen(m).len() == u.alternatives.len() {
            Some(u.alternatives)
        } else {
            None
        }
    }
}

pub open spec fn head_ctor(r: Seq<Pat>) -> bool {
    r.len() > 0 && r.last() is Ctor
}

/// Where a constructor heads some row, one row is headed by a constructor and the union is known.
pub proof fn lemma_seen(m: Seq<Seq<Pat>>)
    ensures
        seen(m).len() > 0 ==> alts_of(m) is Some,
        seen(m).len() > 0 ==> exists|i: int| 0 <= i < m.len() && #[trigger] head_ctor(m[i]),
        seen(m).no_duplicates(),
    decreases m.len(),
{
    if m.len() > 0 {
        lemma_seen(m.drop_last());
        if seen(m.drop_last()).len() > 0 {
            let i = choose|i: int| 0 <= i < m.drop_last().len() && #[trigger] head_ctor(m.drop_last()[i]);
            assert(head_ctor(m[i]));
        }
        if head_ctor(m.last()) {
            assert(head_ctor(m[m.len() - 1]));
        }
    }
}

pub(crate) fn contains_tag(tags: &Vec<TagId>, id: TagId) -> (r: bool)
    ensures
        r == tags@.contains(id),
{
    let mut i: usize = 0;
    while i < tags.len()
        invariant
            i <= tags@.len(),
            forall|j: int| 0 <= j < i ==> tags@[j] != id,
        decreases tags@.len() - i,
    {
        if tags[i].0 == id.0 {
            return true;
        }
        i = i + 1;
    }
    false
}

/// The tag ids heading the rows, each once, and the union of the last row headed by a
/// constructor.
pub fn collect_ctors(matrix: &PatternMatrix) -> (r: (Vec<TagId>, Option<Union>))
    ensures
        r.0@ == seen(model(matrix@)),
        r.1 matches Some(u) ==> alts_of(model(matrix@)) == Some(u@),
        r.1 is None ==> alts_of(model(matrix@)) is None,
{
    let mut tags: Vec<TagId> = Vec::new();
    let mut last: Option<usize> = None;
    let mut i: usize = 0;
    while i < matrix.len()
        invariant
            i <= matrix@.len(),
            tags@ == seen(model(matrix@).subrange(0, i as int)),
            last matches Some(k) ==> k < i && alts_of(model(matrix@).subrange(0, i as int))
                == Some(pats(matrix@[k as int]@).last()->Ctor_0) && head_ctor(
                pats(matrix@[k as int]@),
            ),
            last is None ==> alts_of(model(matrix@).subrange(0, i as int)) is None,
        decreases matrix@.len() - i,
    {
        let ghost next = model(matrix@).subrange(0, i + 1);
        assert(next.drop_last() =~= model(matrix@).subrange(0, i as int));
        assert(next.last() == pats(matrix@[i as int]@));
        let row = &matrix[i];
        proof {
            lemma_pats(row@);
        }
        if row.len() > 0 {
            match &row[row.len() - 1] {
                Pattern::Ctor(_, id, _) => {
                    if !contains_tag(&tags, *id) {
                        tags.push(*id);
                    }
                    last = Some(i);
                },
                _ => {},
            }
        }
        i = i + 1;
    }
    assert(model(matrix@).subrange(0, i as int) =~= model(matrix@));
    match last {
        Some(k) => {
            proof {
                lemma_pats(matrix@[k as int]@);
            }
            let row = &matrix[k];
            match &row[row.len() - 1] {
                Pattern::Ctor(u, _, _) => (tags, Some(u.copy())),
                _ => {
                    proof {
                        assert(false);
                    }
                    (tags, None)
                },
            }
        },
        None => (tags, None),
    }
}

/// Whether every alternative of the column's union heads some row.
pub enum Complete {
    Yes(Vec<Ctor>),
    No,
}

pub fn is_complete(matrix: &PatternMatrix) -> (r: Complete)
    ensures
        r matches Complete::Yes(alts) ==> complete(model(matrix@)) == Some(alts@),
        r is No ==> complete(model(matrix@)) is None,
{
    let (ctors, union) = collect_ctors(matrix);
    proof {
        lemma_seen(model(matrix@));
    }
    match union {
        None => Complete::No,
        Some(u) => {
            if ctors.len() == u.alternatives.len() && ctors.len() > 0 {
                Complete::Yes(u.alternatives)
            } else {
                Complete::No
            }
        },
    }
}

} // verus!
