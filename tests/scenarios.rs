use exhaustive::check::{check, redundant_branches, Context, Error};
use exhaustive::exhaustive::is_exhaustive;
use exhaustive::matrix::{collect_ctors, is_complete, Complete};
use exhaustive::pattern::{
    Ctor, CtorName, HumanIndex, ListArity, Literal, Pattern, Region, RenderAs, Symbol, TagId,
    TagName, Union,
};
use exhaustive::useful::is_useful;

fn region() -> Region {
    Region { start: 0, end: 10 }
}

fn bool_union() -> Union {
    Union {
        alternatives: vec![
            Ctor { name: CtorName::Tag(TagName(1)), tag_id: TagId(0), arity: 0 },
            Ctor { name: CtorName::Tag(TagName(2)), tag_id: TagId(1), arity: 0 },
        ],
        render_as: RenderAs::Tag,
    }
}

fn option_union() -> Union {
    Union {
        alternatives: vec![
            Ctor { name: CtorName::Tag(TagName(3)), tag_id: TagId(0), arity: 1 },
            Ctor { name: CtorName::Tag(TagName(4)), tag_id: TagId(1), arity: 0 },
        ],
        render_as: RenderAs::Tag,
    }
}

fn t() -> Pattern {
    Pattern::Ctor(bool_union(), TagId(0), vec![])
}

fn f() -> Pattern {
    Pattern::Ctor(bool_union(), TagId(1), vec![])
}

fn some(p: Pattern) -> Pattern {
    Pattern::Ctor(option_union(), TagId(0), vec![p])
}

fn none() -> Pattern {
    Pattern::Ctor(option_union(), TagId(1), vec![])
}

fn int_lit(n: u8) -> Pattern {
    let mut bytes = [0u8; 16];
    bytes[0] = n;
    Pattern::Literal(Literal::Int(bytes))
}

fn list(arity: ListArity, args: Vec<Pattern>) -> Pattern {
    Pattern::List(arity, args)
}

fn witnesses(result: Result<(), Vec<Error>>) -> Vec<Pattern> {
    match result {
        Err(mut errors) => {
            assert_eq!(errors.len(), 1);
            match errors.remove(0) {
                Error::Incomplete(r, ctx, ws) => {
                    assert_eq!(r, region());
                    assert_eq!(ctx, Context::BadCase);
                    ws
                }
                other => panic!("unexpected error {:?}", other),
            }
        }
        Ok(()) => vec![],
    }
}

#[test]
fn bool_exhaustive() {
    assert_eq!(check(region(), Context::BadCase, vec![vec![t()], vec![f()]]), Ok(()));
    let ws = witnesses(check(region(), Context::BadCase, vec![vec![t()]]));
    assert_eq!(ws, vec![f()]);
}

#[test]
fn option_nested() {
    let full = vec![vec![some(t())], vec![some(f())], vec![none()]];
    assert_eq!(check(region(), Context::BadCase, full), Ok(()));
    let ws = witnesses(check(region(), Context::BadCase, vec![vec![some(t())], vec![none()]]));
    assert_eq!(ws, vec![some(f())]);
}

#[test]
fn literal_int() {
    let ws = witnesses(check(region(), Context::BadCase, vec![vec![int_lit(1)], vec![int_lit(2)]]));
    assert_eq!(ws, vec![Pattern::Anything]);
    assert_eq!(check(region(), Context::BadCase, vec![vec![int_lit(1)], vec![Pattern::Anything]]), Ok(()));
}

#[test]
fn redundant_branch() {
    assert!(!is_useful(vec![vec![Pattern::Anything]], vec![t()]));
    let matrix = vec![vec![Pattern::Anything], vec![t()]];
    let regions = vec![Region { start: 1, end: 2 }, Region { start: 3, end: 4 }];
    let errors = redundant_branches(region(), &regions, &matrix);
    assert_eq!(
        errors,
        vec![Error::Redundant {
            overall_region: region(),
            branch_region: Region { start: 3, end: 4 },
            index: HumanIndex(1),
        }]
    );
}

#[test]
fn first_branch_is_never_redundant() {
    let matrix = vec![vec![t()], vec![f()]];
    let regions = vec![Region { start: 1, end: 2 }, Region { start: 3, end: 4 }];
    assert_eq!(redundant_branches(region(), &regions, &matrix), vec![]);
    assert!(is_useful(vec![], vec![t()]));
    assert!(is_useful(vec![vec![t()]], vec![f()]));
    assert!(!is_useful(vec![vec![t()], vec![f()]], vec![Pattern::Anything]));
}

#[test]
fn list_exact_vs_slice() {
    let exact0 = list(ListArity::Exact(0), vec![]);
    let slice00 = list(ListArity::Slice(0, 0), vec![]);
    assert!(!is_useful(vec![vec![exact0]], vec![slice00]));
    let matrix = vec![
        vec![list(ListArity::Exact(0), vec![])],
        vec![list(ListArity::Slice(0, 0), vec![])],
    ];
    let regions = vec![Region { start: 1, end: 2 }, Region { start: 3, end: 4 }];
    let errors = redundant_branches(region(), &regions, &matrix);
    assert_eq!(errors.len(), 1);
    assert!(matches!(errors[0], Error::Redundant { index: HumanIndex(1), .. }));
    let only_slice = vec![vec![list(ListArity::Slice(0, 0), vec![])]];
    assert_eq!(check(region(), Context::BadCase, only_slice), Ok(()));
}

#[test]
fn list_fixed_heads() {
    let both = vec![
        vec![list(ListArity::Exact(0), vec![])],
        vec![list(ListArity::Slice(1, 0), vec![Pattern::Anything])],
    ];
    assert_eq!(check(region(), Context::BadCase, both), Ok(()));
    let ws = witnesses(check(
        region(),
        Context::BadCase,
        vec![vec![list(ListArity::Exact(0), vec![])]],
    ));
    assert_eq!(ws, vec![list(ListArity::Slice(1, 0), vec![Pattern::Anything])]);
    let ws = witnesses(check(
        region(),
        Context::BadCase,
        vec![vec![list(ListArity::Slice(1, 0), vec![Pattern::Anything])]],
    ));
    assert_eq!(ws, vec![list(ListArity::Exact(0), vec![])]);
}

#[test]
fn exhaustive_identity_of_unions() {
    let matrix = vec![vec![some(Pattern::Anything)], vec![none()]];
    assert_eq!(check(region(), Context::BadArg, matrix), Ok(()));
    let three = Union {
        alternatives: vec![
            Ctor { name: CtorName::Tag(TagName(5)), tag_id: TagId(0), arity: 2 },
            Ctor { name: CtorName::Opaque(Symbol(6)), tag_id: TagId(1), arity: 0 },
            Ctor { name: CtorName::Tag(TagName(7)), tag_id: TagId(2), arity: 1 },
        ],
        render_as: RenderAs::Opaque,
    };
    let matrix = vec![
        vec![Pattern::Ctor(three.clone(), TagId(0), vec![Pattern::Anything, Pattern::Anything])],
        vec![Pattern::Ctor(three.clone(), TagId(1), vec![])],
        vec![Pattern::Ctor(three.clone(), TagId(2), vec![Pattern::Anything])],
    ];
    assert_eq!(check(region(), Context::BadDestruct, matrix), Ok(()));
}

#[test]
fn wildcard_dominates() {
    assert_eq!(check(region(), Context::BadCase, vec![vec![Pattern::Anything]]), Ok(()));
    let matrix = vec![vec![some(t())], vec![Pattern::Anything]];
    assert_eq!(check(region(), Context::BadCase, matrix), Ok(()));
    let matrix = vec![vec![int_lit(3)], vec![Pattern::Anything]];
    assert_eq!(check(region(), Context::BadCase, matrix), Ok(()));
}

#[test]
fn more_rows_stay_exhaustive() {
    let matrix = vec![vec![t()], vec![f()], vec![t()]];
    assert_eq!(check(region(), Context::BadCase, matrix), Ok(()));
    assert!(is_useful(vec![vec![some(t())]], vec![some(f())]));
    assert!(!is_useful(vec![vec![some(t())], vec![some(f())]], vec![some(f())]));
}

#[test]
fn witnesses_are_useful() {
    let matrix = vec![vec![some(t())], vec![none()]];
    let ws = witnesses(check(region(), Context::BadCase, matrix));
    for w in ws {
        let again = vec![vec![some(t())], vec![none()]];
        assert!(is_useful(again, vec![w]));
    }
}

#[test]
fn empty_matrix_has_wildcard_witness() {
    let ws = is_exhaustive(&vec![], 2);
    assert_eq!(ws, vec![vec![Pattern::Anything, Pattern::Anything]]);
    let ws = witnesses(check(region(), Context::BadCase, vec![]));
    assert_eq!(ws, vec![Pattern::Anything]);
}

#[test]
fn list_arity_coverage() {
    let a = ListArity::Slice(1, 1);
    assert!(a.covers_arity(&a));
    assert!(ListArity::Exact(3).covers_arity(&ListArity::Exact(3)));
    assert!(!ListArity::Exact(3).covers_arity(&ListArity::Exact(4)));
    assert!(ListArity::Exact(2).covers_arity(&ListArity::Slice(1, 1)));
    assert!(!ListArity::Exact(2).covers_arity(&ListArity::Slice(2, 1)));
    assert!(ListArity::Slice(1, 1).covers_arity(&ListArity::Exact(5)));
    assert!(!ListArity::Slice(1, 1).covers_arity(&ListArity::Exact(1)));
    assert!(ListArity::Slice(0, 2).covers_arity(&ListArity::Slice(3, 0)));
    assert!(!ListArity::Slice(usize::MAX, 1).covers_arity(&ListArity::Slice(usize::MAX, 0)));
    assert_eq!(ListArity::Slice(2, 3).min_len(), 5);
    assert_eq!(ListArity::Exact(4).min_len(), 4);
    // transitivity through a middle arity
    let (x, y, z) = (ListArity::Slice(1, 0), ListArity::Slice(2, 0), ListArity::Exact(2));
    assert!(x.covers_arity(&y) && y.covers_arity(&z) && x.covers_arity(&z));
}

#[test]
fn completeness_of_columns() {
    let matrix = vec![vec![t()], vec![f()]];
    match is_complete(&matrix) {
        Complete::Yes(alts) => assert_eq!(alts, bool_union().alternatives),
        Complete::No => panic!("both booleans head a row"),
    }
    assert!(matches!(is_complete(&vec![vec![t()], vec![t()]]), Complete::No));
    assert!(matches!(is_complete(&vec![vec![Pattern::Anything]]), Complete::No));
    let (tags, union) = collect_ctors(&vec![vec![f()], vec![Pattern::Anything], vec![f()], vec![t()]]);
    assert_eq!(tags, vec![TagId(1), TagId(0)]);
    assert_eq!(union, Some(bool_union()));
}

#[test]
fn newtype_and_names() {
    let u = Union::newtype_wrapper(CtorName::Tag(TagName(9)), 2);
    assert_eq!(u.alternatives.len(), 1);
    assert_eq!(u.alternatives[0].tag_id, TagId(0));
    assert_eq!(u.alternatives[0].arity, 2);
    assert!(CtorName::Tag(TagName(9)).is_tag(&TagName(9)));
    assert!(!CtorName::Tag(TagName(9)).is_tag(&TagName(8)));
    assert!(!CtorName::Opaque(Symbol(9)).is_tag(&TagName(9)));
    let p = Pattern::Ctor(u, TagId(0), vec![int_lit(1), Pattern::Literal(Literal::Str("a".to_string()))]);
    assert_eq!(p.copy(), p);
    assert!(Literal::Str("a".to_string()).same(&Literal::Str("a".to_string())));
    assert!(!Literal::Float(1).same(&Literal::Byte(1)));
}
