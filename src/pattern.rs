//! Patterns, the descriptors of the constructors they use, and their
//! mathematical models.
use vstd::prelude::*;

verus! {

/// An interned tag name.
#[derive(Clone, Copy, Debug, PartialEq, Eq, Structural, Hash)]
pub struct TagName(pub u64);

/// An interned nominal (opaque type) symbol.
#[derive(Clone, Copy, Debug, PartialEq, Eq, Structural, Hash)]
pub struct Symbol(pub u64);

/// An interned lower-case identifier, such as a record field name.
#[derive(Clone, Copy, Debug, PartialEq, Eq, Structural, Hash)]
pub struct Lowercase(pub u64);

/// A span of source text.
#[derive(Clone, Copy, Debug, PartialEq, Eq, Structural, Hash)]
pub struct Region {
    pub start: u32,
    pub end: u32,
}

/// A zero-based position in a sequence of branches.
#[derive(Clone, Copy, Debug, PartialEq, Eq, Structural, Hash)]
pub struct HumanIndex(pub usize);

/// The index of an alternative within its union.
#[derive(Clone, Copy, Debug, PartialEq, Eq, Structural, Hash)]
pub struct TagId(pub u16);

#[derive(Clone, Copy, Debug, PartialEq, Eq, Structural, Hash)]
pub enum CtorName {
    Tag(TagName),
    Opaque(Symbol),
}

impl CtorName {
    pub fn is_tag(&self, tag_name: &TagName) -> (r: bool)
        ensures
            r == (*self == CtorName::Tag(*tag_name)),
    {
        match self {
            CtorName::Tag(test) => test.0 == tag_name.0,
            _ => false,
        }
    }
}

/// One alternative of a union: its name, its tag id and how many arguments it takes.
#[derive(Clone, Copy, Debug, PartialEq, Eq, Structural, Hash)]
pub struct Ctor {
    pub name: CtorName,
    pub tag_id: TagId,
    pub arity: usize,
}

#[derive(Clone, Debug, PartialEq, Eq, Hash)]
pub enum RenderAs {
    Tag,
    Opaque,
    Record(Vec<Lowercase>),
    Guard,
}

/// The model of a `RenderAs`.
pub enum RenderModel {
    Tag,
    Opaque,
    Record(Seq<Lowercase>),
    Guard,
}

impl View for RenderAs {
    type V = RenderModel;

    open spec fn view(&self) -> RenderModel {
        match self {
            RenderAs::Tag => RenderModel::Tag,
            RenderAs::Opaque => RenderModel::Opaque,
            RenderAs::Record(fields) => RenderModel::Record(fields@),
            RenderAs::Guard => RenderModel::Guard,
        }
    }
}

/// All the constructors of a type, in their canonical order.
#[derive(Clone, Debug, PartialEq, Eq, Hash)]
pub struct Union {
    pub alternatives: Vec<Ctor>,
    pub render_as: RenderAs,
}

/// The model of a `Union`.
pub struct UnionModel {
    pub alternatives: Seq<Ctor>,
    pub render_as: RenderModel,
}

impl View for Union {
    type V = UnionModel;

    open spec fn view(&self) -> UnionModel {
        UnionModel { alternatives: self.alternatives@, render_as: self.render_as@ }
    }
}

/// Each alternative's tag id is its index, so that tag ids are distinct.
pub open spec fn union_wf(u: UnionModel) -> bool {
    forall|i: int| 0 <= i < u.alternatives.len() ==> #[trigger] u.alternatives[i].tag_id.0 == i
}

impl Union {
    /// The union of a newtype or opaque type: one alternative with tag id 0.
    pub fn newtype_wrapper(name: CtorName, arity: usize) -> (r: Self)
        ensures
            r@.alternatives == seq![Ctor { name, tag_id: TagId(0), arity }],
            r@.render_as == RenderModel::Tag,
            union_wf(r@),
    {
        let alternatives = vec![Ctor { name, tag_id: TagId(0), arity }];
        let r = Union { alternatives, render_as: RenderAs::Tag };
        assert(r@.alternatives =~= seq![Ctor { name, tag_id: TagId(0), arity }]);
        r
    }

    pub fn copy(&self) -> (r: Self)
        ensures
            r@ == self@,
    {
        let mut alternatives: Vec<Ctor> = Vec::new();
        let mut i: usize = 0;
        while i < self.alternatives.len()
            invariant
                i <= self.alternatives@.len(),
                alternatives@ == self.alternatives@.subrange(0, i as int),
            decreases self.alternatives@.len() - i,
        {
            alternatives.push(self.alternatives[i]);
            i = i + 1;
            assert(alternatives@ =~= self.alternatives@.subrange(0, i as int));
        }
        assert(alternatives@ =~= self.alternatives@);
        let render_as = match &self.render_as {
            RenderAs::Tag => RenderAs::Tag,
            RenderAs::Opaque => RenderAs::Opaque,
            RenderAs::Guard => RenderAs::Guard,
            RenderAs::Record(fields) => {
                let mut copied: Vec<Lowercase> = Vec::new();
                let mut j: usize = 0;
                while j < fields.len()
                    invariant
                        j <= fields@.len(),
                        copied@ == fields@.subrange(0, j as int),
                    decreases fields@.len() - j,
                {
                    copied.push(fields[j]);
                    j = j + 1;
                    assert(copied@ =~= fields@.subrange(0, j as int));
                }
                assert(copied@ =~= fields@);
                RenderAs::Record(copied)
            },
        };
        Union { alternatives, render_as }
    }
}

/// The arity of a list pattern.
#[derive(Clone, Copy, Debug, PartialEq, Eq, Structural, Hash)]
pub enum ListArity {
    /// A list pattern of an exact size.
    Exact(usize),
    /// A list pattern of variable size: `Slice(before, after)` fixes the `before` first and the
    /// `after` last elements, with a gap of any length between them.
    ///
    /// For example,
    ///   [..] => Slice(0, 0)
    ///   [A, .., B] => Slice(1, 1)
    ///   [A, B, ..] => Slice(2, 0)
    ///   [.., A, B] => Slice(0, 2)
    Slice(usize, usize),
}

impl ListArity {
    /// The least length of a list that this arity matches.
    pub open spec fn min(self) -> nat {
        match self {
            ListArity::Exact(n) => n as nat,
            ListArity::Slice(l, r) => (l + r) as nat,
        }
    }

    /// Every list shape matched by `other` is also matched by `self`.
    pub open spec fn covers(self, other: ListArity) -> bool {
        match (self, other) {
            (ListArity::Exact(n), ListArity::Exact(m)) => n == m,
            (ListArity::Exact(n), ListArity::Slice(_, _)) => n == other.min(),
            (ListArity::Slice(_, _), _) => self.min() <= other.min(),
        }
    }

    pub fn min_len(&self) -> (r: usize)
        requires
            self.min() <= usize::MAX,
        ensures
            r == self.min(),
    {
        match self {
            ListArity::Exact(n) => *n,
            ListArity::Slice(l, r) => l + r,
        }
    }

    /// Could this list pattern include list pattern arity `other`?
    pub fn covers_arity(&self, other: &Self) -> (r: bool)
        ensures
            r == self.covers(*other),
    {
        match (self, other) {
            (ListArity::Exact(l), ListArity::Exact(r)) => *l == *r,
            (ListArity::Exact(this_exact), ListArity::Slice(other_left, other_right)) => {
                // [1, 2, 3] can only cover [1, 2, .., 3]
                *this_exact >= *other_left && *this_exact - *other_left == *other_right
            },
            (ListArity::Slice(this_left, this_right), ListArity::Exact(other_exact)) => {
                // [1, 2, .., 3] can cover [1, 2, 3], [1, 2, _, 3], and so on
                *this_left <= *other_exact && *this_right <= *other_exact - *this_left
            },
            (ListArity::Slice(this_left, this_right), ListArity::Slice(other_left, other_right)) => {
                // [1, 2, .., 3] can cover [1, 2, .., 3], [1, 2, .., _, 3], and so on
                (*this_left as u128) + (*this_right as u128) <= (*other_left as u128) + (
                *other_right as u128)
            },
        }
    }
}

/// Every list arity covers itself.
pub proof fn lemma_covers_reflexive(a: ListArity)
    ensures
        a.covers(a),
{
}

/// Coverage of list arities is transitive, except from an exact arity through a slice to a
/// longer shape: `Exact(0)` covers `Slice(0, 0)`, which covers `Exact(1)`.
pub proof fn lemma_covers_transitive(a: ListArity, b: ListArity, c: ListArity)
    requires
        a.covers(b),
        b.covers(c),
        a is Exact ==> c.min() <= a.min(),
    ensures
        a.covers(c),
{
}


#[derive(Clone, Debug, PartialEq, Eq)]
pub enum Literal {
    Int([u8; 16]),
    U128([u8; 16]),
    Bit(bool),
    Byte(u8),
    /// Stores the float bits
    Float(u64),
    Decimal([u8; 16]),
    Str(String),
}

/// The model of a `Literal`.
pub enum LiteralModel {
    Int(Seq<u8>),
    U128(Seq<u8>),
    Bit(bool),
    Byte(u8),
    Float(u64),
    Decimal(Seq<u8>),
    Str(Seq<char>),
}

impl View for Literal {
    type V = LiteralModel;

    open spec fn view(&self) -> LiteralModel {
        match self {
            Literal::Int(b) => LiteralModel::Int(b@),
            Literal::U128(b) => LiteralModel::U128(b@),
            Literal::Bit(b) => LiteralModel::Bit(*b),
            Literal::Byte(b) => LiteralModel::Byte(*b),
            Literal::Float(b) => LiteralModel::Float(*b),
            Literal::Decimal(b) => LiteralModel::Decimal(b@),
            Literal::Str(s) => LiteralModel::Str(s@),
        }
    }
}

fn same_bytes(a: &[u8; 16], b: &[u8; 16]) -> (r: bool)
    ensures
        r == (a@ == b@),
{
    let mut i: usize = 0;
    while i < 16
        invariant
            i <= 16,
            a@.len() == 16,
            b@.len() == 16,
            forall|j: int| 0 <= j < i ==> a@[j] == b@[j],
        decreases 16 - i,
    {
        if a[i] != b[i] {
            return false;
        }
        i = i + 1;
    }
    assert(a@ =~= b@);
    true
}

impl Literal {
    /// Do two literals stand for the same runtime value? Floats compare by their bits.
    pub fn same(&self, other: &Literal) -> (r: bool)
        ensures
            r == (self@ == other@),
    {
        match (self, other) {
            (Literal::Int(a), Literal::Int(b)) => same_bytes(a, b),
            (Literal::U128(a), Literal::U128(b)) => same_bytes(a, b),
            (Literal::Bit(a), Literal::Bit(b)) => *a == *b,
            (Literal::Byte(a), Literal::Byte(b)) => *a == *b,
            (Literal::Float(a), Literal::Float(b)) => *a == *b,
            (Literal::Decimal(a), Literal::Decimal(b)) => same_bytes(a, b),
            (Literal::Str(a), Literal::Str(b)) => *a == *b,
            _ => false,
        }
    }

    pub fn copy(&self) -> (r: Literal)
        ensures
            r@ == self@,
    {
        match self {
            Literal::Int(b) => Literal::Int(*b),
            Literal::U128(b) => Literal::U128(*b),
            Literal::Bit(b) => Literal::Bit(*b),
            Literal::Byte(b) => Literal::Byte(*b),
            Literal::Float(b) => Literal::Float(*b),
            Literal::Decimal(b) => Literal::Decimal(*b),
            Literal::Str(s) => Literal::Str(s.clone()),
        }
    }
}

#[derive(Debug, PartialEq)]
pub enum Pattern {
    Anything,
    Literal(Literal),
    Ctor(Union, TagId, Vec<Pattern>),
    List(ListArity, Vec<Pattern>),
}

/// The model of a `Pattern`: a finite tree.
pub enum Pat {
    Any,
    Lit(LiteralModel),
    Ctor(UnionModel, TagId, Seq<Pat>),
    List(ListArity, Seq<Pat>),
}

/// The model of a pattern.
pub open spec fn pat(p: Pattern) -> Pat
    decreases p,
{
    match p {
        Pattern::Anything => Pat::Any,
        Pattern::Literal(l) => Pat::Lit(l@),
        Pattern::Ctor(u, id, args) => Pat::Ctor(u@, id, pats(args@)),
        Pattern::List(a, args) => Pat::List(a, pats(args@)),
    }
}

/// The models of a sequence of patterns, one for one.
pub open spec fn pats(s: Seq<Pattern>) -> Seq<Pat>
    decreases s,
{
    if s.len() == 0 {
        Seq::empty()
    } else {
        pats(s.drop_last()).push(pat(s.last()))
    }
}

pub proof fn lemma_pats(s: Seq<Pattern>)
    ensures
        pats(s).len() == s.len(),
        forall|i: int| 0 <= i < s.len() ==> #[trigger] pats(s)[i] == pat(s[i]),
    decreases s.len(),
{
    if s.len() > 0 {
        lemma_pats(s.drop_last());
    }
}

pub proof fn lemma_pats_concat(a: Seq<Pattern>, b: Seq<Pattern>)
    ensures
        pats(a + b) == pats(a) + pats(b),
{
    lemma_pats(a);
    lemma_pats(b);
    lemma_pats(a + b);
    assert(pats(a + b) =~= pats(a) + pats(b));
}

pub proof fn lemma_pats_subrange(s: Seq<Pattern>, lo: int, hi: int)
    requires
        0 <= lo <= hi <= s.len(),
    ensures
        pats(s.subrange(lo, hi)) == pats(s).subrange(lo, hi),
{
    lemma_pats(s);
    lemma_pats(s.subrange(lo, hi));
    assert(pats(s.subrange(lo, hi)) =~= pats(s).subrange(lo, hi));
}

pub proof fn lemma_pats_drop_last(s: Seq<Pattern>)
    requires
        s.len() > 0,
    ensures
        pats(s.drop_last()) == pats(s).drop_last(),
        pats(s).last() == pat(s.last()),
        pats(s).len() == s.len(),
{
    lemma_pats(s);
    lemma_pats(s.drop_last());
    assert(pats(s.drop_last()) =~= pats(s).drop_last());
}

pub proof fn lemma_pats_push(s: Seq<Pattern>, p: Pattern)
    ensures
        pats(s.push(p)) == pats(s).push(pat(p)),
{
    assert(s.push(p).drop_last() =~= s);
}


impl Pattern {
    /// A deep copy of the pattern.
    pub fn copy(&self) -> (r: Pattern)
        ensures
            pat(r) == pat(*self),
        decreases self,
    {
        match self {
            Pattern::Anything => Pattern::Anything,
            Pattern::Literal(l) => Pattern::Literal(l.copy()),
            Pattern::Ctor(u, id, args) => Pattern::Ctor(u.copy(), *id, copy_row(args)),
            Pattern::List(a, args) => Pattern::List(*a, copy_row(args)),
        }
    }
}

/// A deep copy of a row of patterns.
pub fn copy_row(row: &Vec<Pattern>) -> (r: Vec<Pattern>)
    ensures
        pats(r@) == pats(row@),
    decreases row,
{
    let mut r: Vec<Pattern> = Vec::new();
    let mut i: usize = 0;
    while i < row.len()
        invariant
            i <= row@.len(),
            pats(r@) == pats(row@.subrange(0, i as int)),
        decreases row@.len() - i,
    {
        assert(decreases_to!(row => row[i as int]));
        let p = row[i].copy();
        proof {
            lemma_pats_push(r@, p);
            lemma_pats_push(row@.subrange(0, i as int), row@[i as int]);
            assert(row@.subrange(0, i as int).push(row@[i as int]) =~= row@.subrange(0, i + 1));
        }
        r.push(p);
        i = i + 1;
    }
    assert(row@.subrange(0, i as int) =~= row@);
    r
}

} // verus!
