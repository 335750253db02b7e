use stackvm::analysis::{StackParam, StackUsage, TypeInfo};
use stackvm::eval::{eval, Continuation, Eval};
use stackvm::parser::parse;
use stackvm::val::{Ref, SymbolTable, Val};

#[test]
fn failed_step_keeps_program_and_stack() {
    let mut t = SymbolTable::new();
    let p = parse("+ 1 :a", &mut t).unwrap();
    let mut e = Eval::new(p, t);
    assert!(e.step());
    assert!(e.step());
    assert!(!e.step());
    let tail = parse("+", &mut e.sym_table).unwrap();
    let st: Vec<Val> = parse(":a 1", &mut e.sym_table).unwrap().into();
    assert_eq!(e.program.to_vals(), tail);
    assert_eq!(e.stack, st);
    // Failing again changes nothing.
    assert!(!e.step());
    assert_eq!(e.program.to_vals(), tail);
    assert_eq!(e.stack, st);
}

#[test]
fn constants_evaluate_to_themselves() {
    for src in ["", "1 2 3", "{1 {2}} :k -7", "{}"] {
        let mut t = SymbolTable::new();
        let p = parse(src, &mut t).unwrap();
        let exp = parse(src, &mut t).unwrap();
        match eval(p, t) {
            Ok(got) => assert_eq!(got, exp),
            Err(_) => panic!("constants failed: {}", src),
        }
    }
}

#[test]
fn tail_calls_run_in_fixed_scopes() {
    let mut t = SymbolTable::new();
    let p = parse(
        "define { loop { locals {n} { choose { loop - n 1 } { n } > n 0 } } } { loop 1000 }",
        &mut t,
    )
    .unwrap();
    let mut e = Eval::new(p, t);
    let mut deepest = 0;
    let mut steps = 0;
    while e.step() {
        deepest = deepest.max(e.lexicon.len());
        steps += 1;
    }
    assert!(steps > 1000);
    assert!(deepest <= 3, "scopes grew to {}", deepest);
    assert!(e.program.is_empty());
    assert_eq!(e.stack, vec![Val::Int(0)]);
}

#[test]
fn interning_is_idempotent() {
    let mut t = SymbolTable::new();
    let n0 = t.len();
    let a = t.intern("abc".to_string());
    let n1 = t.len();
    assert_eq!(n1, n0 + 1);
    let b = t.intern("abc".to_string());
    assert_eq!(a, b);
    assert_eq!(t.len(), n1);
    assert_eq!(t.str(a), "abc");
    let c = t.intern("int".to_string());
    assert_eq!(t.str(c), "int");
    assert_eq!(t.len(), n1);
}

#[test]
fn step_after_undo_gives_the_value_back() {
    let mut t = SymbolTable::new();
    let before = parse("1 2", &mut t).unwrap();
    let mut c = Continuation::Vals(parse("1 2", &mut t).unwrap());
    c.undo(Val::Int(7));
    assert_eq!(c.step(), Some(Val::Int(7)));
    assert_eq!(c.to_vals(), before);
    let mut c = Continuation::Chunks(vec![]);
    c.extend(Ref::new(parse("1 2", &mut t).unwrap()));
    c.undo(Val::Int(7));
    assert_eq!(c.step(), Some(Val::Int(7)));
    assert_eq!(c.to_vals(), before);
}

#[test]
fn usage_matching_is_symmetric_and_reflexive() {
    let int = StackParam::Typed(TypeInfo::integer());
    let kw = StackParam::Typed(TypeInfo::kw());
    let us = [
        StackUsage::new(vec![StackParam::Any, int], vec![int]),
        StackUsage::new(vec![int], vec![StackParam::Any]),
        StackUsage::new(vec![kw], vec![]),
        StackUsage::from_in_out_sizes(2, 1),
    ];
    for a in us.iter() {
        assert!(a.matches_exact(a));
        for b in us.iter() {
            assert_eq!(a.matches(b), b.matches(a));
        }
    }
    assert!(us[3].matches_exact(&us[0]));
}

#[test]
fn list_views() {
    let mut t = SymbolTable::new();
    let p = parse("{1 2 3}", &mut t).unwrap();
    let items = p[0].iter();
    assert_eq!(items, vec![Val::Int(1), Val::Int(2), Val::Int(3)]);
    let mut r = p[0].copy().into_list_ref();
    r.slice(1, 3);
    assert_eq!(r.iter(), vec![Val::Int(2), Val::Int(3)]);
    let mut v = Val::Ref(r);
    match v.list_or_ref_mut() {
        Err(r) => {
            assert_eq!(r.pop_front(), Some(Val::Int(2)));
        },
        Ok(_) => panic!("a shared list is a Ref"),
    }
    assert_eq!(v.iter(), vec![Val::Int(3)]);
    let mut w = Val::List(parse("4", &mut t).unwrap());
    match w.list_or_ref_mut() {
        Ok(vs) => vs.push_back(Val::Int(5)),
        Err(_) => panic!("an owned list is a List"),
    }
    assert_eq!(w.iter(), vec![Val::Int(4), Val::Int(5)]);
}

#[test]
fn checked_step_refuses_steps_that_would_panic() {
    let mut t = SymbolTable::new();
    let p = parse("+ 9223372036854775807 1", &mut t).unwrap();
    let mut e = Eval::new(p, t);
    assert_eq!(e.checked_step(), Some(true));
    assert_eq!(e.checked_step(), Some(true));
    let before = e.program.to_vals();
    assert_eq!(e.checked_step(), None);
    assert_eq!(e.program.to_vals(), before);
    assert_eq!(e.stack, vec![Val::Int(1), Val::Int(9223372036854775807)]);

    // Twenty names overflow the small scope that `locals` makes for them.
    let names: Vec<String> = (0..20).map(|i| format!("n{}", i)).collect();
    let values: Vec<String> = (0..20).map(|i| format!("{}", i)).collect();
    let src = format!("locals {{{}}} {{}} {}", names.join(" "), values.join(" "));
    let mut t = SymbolTable::new();
    let p = parse(&src, &mut t).unwrap();
    let mut e = Eval::new(p, t);
    let mut steps = 0;
    let outcome = loop {
        match e.checked_step() {
            Some(true) => steps += 1,
            other => break other,
        }
    };
    assert_eq!(outcome, None);
    assert_eq!(steps, 22);

    // Sixteen names fit.
    let names: Vec<String> = (0..16).map(|i| format!("n{}", i)).collect();
    let values: Vec<String> = (0..16).map(|i| format!("{}", i)).collect();
    let src = format!("locals {{{}}} {{ n15 }} {}", names.join(" "), values.join(" "));
    let mut t = SymbolTable::new();
    let p = parse(&src, &mut t).unwrap();
    let mut e = Eval::new(p, t);
    while e.checked_step() == Some(true) {}
    assert!(e.program.is_empty());
    assert_eq!(e.stack, vec![Val::Int(15)]);
}

#[test]
fn analysis_agrees_with_evaluation() {
    for src in ["1 2 3", "+ 1 2", "swap 1 :k", "dup dup {x}", "drop 1 2", "= 1 1", "&& 0 :k", "< 1 2 3", "true false", "not true", "not 1 2"] {
        let mut t = SymbolTable::new();
        let p = parse(src, &mut t).unwrap();
        let usage = stackvm::analysis::analyze(&t, &p).unwrap();
        match eval(p, t) {
            Ok(got) => assert_eq!(got.len(), usage.out_len(), "program: {}", src),
            Err(_) => panic!("program failed: {}", src),
        }
    }
}

#[test]
fn symbols_are_one_to_one() {
    let mut t = SymbolTable::new();
    let a = t.intern("a".to_string());
    assert_eq!(a, stackvm::val::Sym(6));
    let b = t.intern("b".to_string());
    assert_eq!(b, stackvm::val::Sym(7));
    assert_ne!(a, b);
    assert_eq!(t.intern("a".to_string()), a);
    assert_eq!(t.str(a), "a");
    assert_eq!(t.str(b), "b");
}

#[test]
fn length_counts_the_elements() {
    let mut t = SymbolTable::new();
    let p = parse("{1 2 3 4}", &mut t).unwrap();
    let mut r = p[0].copy().into_list_ref();
    r.slice(1, 3);
    let v = Val::Ref(r);
    assert_eq!(v.len(), v.iter().len());
    assert_eq!(v.len(), 2);
    assert_eq!(p[0].len(), p[0].iter().len());
}

#[test]
fn parse_succeeds_exactly_on_well_formed_text() {
    for ok in ["", "{} {{}}", "1 :k x { a { b } }", "-5 -", "  \n\t{1}"] {
        let mut t = SymbolTable::new();
        assert!(parse(ok, &mut t).is_ok(), "should parse: {:?}", ok);
    }
    for bad in ["{1 2", "1 }", ":", "{ : }", "99999999999999999999", "}{"] {
        let mut t = SymbolTable::new();
        assert!(parse(bad, &mut t).is_err(), "should fail: {:?}", bad);
    }
}

#[test]
fn unshared_list_is_handed_over_whole() {
    let mut t = SymbolTable::new();
    let mut r = Ref::new(parse("1 2 3", &mut t).unwrap());
    assert_eq!(r.pop_front(), Some(Val::Int(1)));
    // Nothing else shares the list: it is handed over whole.
    let whole = r.into_vals();
    assert_eq!(whole, parse("1 2 3", &mut t).unwrap());

    let mut r = Ref::new(parse("1 2 3", &mut t).unwrap());
    assert_eq!(r.pop_front(), Some(Val::Int(1)));
    let other = r.share();
    // The list is shared: the window's values are copied.
    assert_eq!(r.into_vals(), parse("2 3", &mut t).unwrap());
    assert_eq!(other.len(), 2);

    let mut r = Ref::new(parse("1 2 3", &mut t).unwrap());
    r.slice(1, 2);
    let mut v = Val::Ref(r);
    v.list_mut().push_back(Val::Int(4));
    assert_eq!(v.iter(), vec![Val::Int(1), Val::Int(2), Val::Int(3), Val::Int(4)]);

    let mut w = Val::List(parse("1 2", &mut t).unwrap());
    w.list_mut().push_back(Val::Int(3));
    assert_eq!(w.iter(), vec![Val::Int(1), Val::Int(2), Val::Int(3)]);
}
