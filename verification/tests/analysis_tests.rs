use stackvm::analysis;
use stackvm::analysis::{AnalysisError, StackParam, StackUsage, TypeInfo, VirtualVal};
use stackvm::parser::parse;
use stackvm::val::SymbolTable;

fn analyze(src: &str) -> Result<StackUsage, AnalysisError> {
    let mut t = SymbolTable::new();
    let p = parse(src, &mut t).expect("Invalid test program");
    analysis::analyze(&t, &p)
}

fn int_param() -> StackParam {
    StackParam::Typed(TypeInfo::integer())
}

#[test]
fn stack_basics() {
    let cases = [
        ("", 0),
        ("1", 1),
        ("1 2 3", 3),
        ("drop 1 2", 1),
        ("swap 1 2 3", 3),
        ("dup 1", 2),
    ];

    for (src, out) in cases {
        matches_usage(src, StackUsage::from_in_out_sizes(0, out));
    }

    assert!(matches!(
        analyze("drop"),
        Err(AnalysisError::StackMismatch(_, x, y)) if x.is_empty() && y.in_len() == 1
    ));
    assert!(matches!(
        analyze("swap 1"),
        Err(AnalysisError::StackMismatch(_, x, y)) if x.len() == 1 && y.in_len() == 2
    ));
}

fn matches_usage(src: &str, exp: StackUsage) {
    let r = analyze(src).unwrap();
    assert!(
        r.matches_exact(&exp),
        "Stacks didn't match for `{}`:\n\tGot: {:?}\n\tExpected: {:?}",
        src,
        r,
        exp
    );
}

#[test]
fn typed() {
    matches_usage("+ 1 2", StackUsage::new(vec![], vec![int_param()]));

    matches_usage("+ swap 1 2", StackUsage::new(vec![], vec![int_param()]));

    assert!(matches!(
        analyze("+ 1 {}"),
        Err(AnalysisError::StackMismatch(_, _x, y)) if y == StackUsage::new(vec![int_param(), int_param()], vec![int_param()])
    ));

    assert!(matches!(
        analyze("unquote 1"),
        Err(AnalysisError::StackMismatch(_, _x, y))
            if y == StackUsage::new(
                vec![StackParam::Typed(TypeInfo::anycode())],
                vec![StackParam::Typed(TypeInfo::eval(0))],
            )
    ));

    matches_usage("unquote {+ 1} 1", StackUsage::new(vec![], vec![int_param()]));
    matches_usage("unquote swap 1 {+ 1}", StackUsage::new(vec![], vec![int_param()]));
    matches_usage(
        "unquote {swap} :wow 2",
        StackUsage::new(vec![], vec![int_param(), StackParam::Typed(TypeInfo::kw())]),
    )
}

#[test]
fn undefined_word_is_reported_by_name() {
    match analyze("frobnicate 1") {
        Err(AnalysisError::LexicallyUndefinedSymbol(name)) => assert_eq!(name, "frobnicate"),
        other => panic!("unexpected result: {:?}", other),
    }
}

#[test]
fn mismatch_reports_word_and_stack() {
    match analyze("- :a 1") {
        Err(AnalysisError::StackMismatch(name, st, su)) => {
            assert_eq!(name, "-");
            assert_eq!(st.len(), 2);
            assert!(matches!(st[0], VirtualVal::Concrete(_)));
            assert_eq!(su, StackUsage::new(vec![int_param(), int_param()], vec![int_param()]));
        },
        other => panic!("unexpected result: {:?}", other),
    }
}

#[test]
fn typed_results_feed_later_words() {
    // `<` leaves an integer, which `+` accepts.
    matches_usage("+ 1 < 2 3", StackUsage::from_in_out_sizes(0, 1));
    // `&&` leaves a value of any type, which `+` accepts too.
    matches_usage("+ 1 && 2 3", StackUsage::from_in_out_sizes(0, 1));
    // A keyword is not an integer.
    assert!(matches!(analyze("+ 1 :k"), Err(AnalysisError::StackMismatch(..))));
}

#[test]
fn unknown_code_leaves_one_result() {
    // `locals` is not followed into; it leaves one value for what its code
    // leaves, above the value it was given.
    let r = analyze("locals {x} {x} 1").unwrap();
    assert_eq!(r.out_len(), 2);
    assert!(r.matches_exact(&StackUsage::new(vec![], vec![int_param(), StackParam::Typed(TypeInfo::eval(0))])));
    // The names of `locals` must be a list of symbols.
    assert!(matches!(analyze("locals {1} {x} 1"), Err(AnalysisError::StackMismatch(..))));
}

#[test]
fn self_applying_code_is_cut_off() {
    // Each `unquote` runs the same code again; the analysis stops following
    // it after a bounded number of steps and ends.
    let r = analyze("unquote dup {unquote dup}").unwrap();
    assert_eq!(r.out_len(), 2);
}

#[test]
fn stack_usage_matching() {
    let a = StackUsage::new(vec![StackParam::Any, int_param()], vec![int_param()]);
    let b = StackUsage::new(vec![int_param()], vec![StackParam::Any]);
    assert!(a.matches(&b));
    assert!(!a.matches_exact(&b));
    assert_eq!(a.in_len(), 2);
    assert_eq!(a.out_len(), 1);
    let c = StackUsage::new(vec![StackParam::Typed(TypeInfo::kw())], vec![]);
    assert!(!a.matches(&c));
    assert!(StackUsage::from_in_out_sizes(2, 1).matches_exact(&a));
}

#[test]
fn not_takes_one_value() {
    matches_usage("not true", StackUsage::new(vec![], vec![int_param()]));
    matches_usage("not 1 2", StackUsage::from_in_out_sizes(0, 2));
    assert!(matches!(
        analyze("not"),
        Err(AnalysisError::StackMismatch(_, x, y)) if x.is_empty() && y.in_len() == 1
    ));
}
