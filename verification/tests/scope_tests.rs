use stackvm::eval::{LexiconScope, Slot};
use stackvm::val::{Sym, Val};

fn int_of(s: Option<&Slot>) -> Option<i64> {
    match s {
        Some(Slot::Val(Val::Int(i))) => Some(*i),
        _ => None,
    }
}

#[test]
fn small_scope_refuses_a_seventeenth_name() {
    let mut sc = LexiconScope::new(4);
    assert!(sc.is_small());
    for k in 1..=16u64 {
        assert!(matches!(sc.try_insert(Sym(k), Slot::Val(Val::Int(k as i64))), Ok(None)));
    }
    assert_eq!(sc.len(), 16);
    assert!(matches!(sc.try_insert(Sym(17), Slot::Val(Val::Int(17))), Err(Slot::Val(Val::Int(17)))));
    assert_eq!(sc.len(), 16);
    assert_eq!(int_of(sc.get(Sym(17))), None);
    // Rebinding a name it holds is fine.
    match sc.try_insert(Sym(3), Slot::Val(Val::Int(30))) {
        Ok(Some(Slot::Val(Val::Int(3)))) => {},
        _ => panic!("expected the old binding back"),
    }
    assert_eq!(int_of(sc.get(Sym(3))), Some(30));
}

#[test]
fn large_scope_takes_any_number_of_names() {
    let mut sc = LexiconScope::new(40);
    assert!(!sc.is_small());
    for k in 1..=40u64 {
        assert!(matches!(sc.try_insert(Sym(k), Slot::Val(Val::Int(0))), Ok(None)));
    }
    assert_eq!(sc.len(), 40);
    assert_eq!(int_of(sc.get(Sym(40))), Some(0));
}
