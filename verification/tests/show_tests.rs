use stackvm::eval::{Cont, Continuation};
use stackvm::parser::parse;
use stackvm::show::{ContView, Program, RefProgram, Value, Values};
use stackvm::val::{Ref, Sym, SymbolTable, Val, Vals, LEAVE_SCOPE_ID};

#[test]
fn integers_in_decimal() {
    let t = SymbolTable::new();
    assert_eq!(Value(&t, &Val::Int(0)).show(), "0");
    assert_eq!(Value(&t, &Val::Int(1234)).show(), "1234");
    assert_eq!(Value(&t, &Val::Int(-42)).show(), "-42");
    assert_eq!(Value(&t, &Val::Int(i64::MIN)).show(), "-9223372036854775808");
    assert_eq!(Value(&t, &Val::Int(i64::MAX)).show(), "9223372036854775807");
}

#[test]
fn symbols_and_keywords_by_name() {
    let mut t = SymbolTable::new();
    let p = parse("foo :bar", &mut t).unwrap();
    assert_eq!(Value(&t, &p[0]).show(), "foo");
    assert_eq!(Value(&t, &p[1]).show(), ":bar");
}

#[test]
fn programs_and_lists() {
    let mut t = SymbolTable::new();
    let p = parse("1 {2 3} x", &mut t).unwrap();
    assert_eq!(Program(&t, &p).show(), "1  2  3   x ");
    assert_eq!(Value(&t, &p[1]).show(), "2  3 ");
    let r = Ref::new(parse(":k -5", &mut t).unwrap());
    assert_eq!(RefProgram(&t, &r).show(), ":k  -5 ");
}

#[test]
fn program_shows_current_scope_only() {
    let t = SymbolTable::new();
    let mut p = Vals::new();
    p.push_back(Val::Int(1));
    p.push_back(Val::Sym(Sym(LEAVE_SCOPE_ID)));
    p.push_back(Val::Int(2));
    assert_eq!(Program(&t, &p).show(), "... 2 ");
}

#[test]
fn stack_top_first() {
    let mut t = SymbolTable::new();
    let st: Vec<Val> = parse("1 2 3", &mut t).unwrap().into();
    assert_eq!(Values(&t, &st).show(), "3  2  1 ");
}

#[test]
fn continuation_views() {
    let mut t = SymbolTable::new();
    let c = Continuation::Vals(parse("1 2", &mut t).unwrap());
    assert_eq!(ContView(&t, &c).show(), "1  2 ");
    let c = Continuation::Chunks(vec![
        Cont::Ref(Ref::new(parse("1 2", &mut t).unwrap())),
        Cont::LeaveScope,
        Cont::Ref(Ref::new(parse("3", &mut t).unwrap())),
        Cont::Ref(Ref::new(parse("4 5", &mut t).unwrap())),
    ]);
    assert_eq!(ContView(&t, &c).show(), "...3  4 5 ");
}
