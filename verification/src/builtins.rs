use vstd::prelude::*;
use std::collections::HashMap;
use std::collections::VecDeque;
use crate::val::{
    AVal, Ref, Sym, SymbolTable, Val, Vals, vals_view, interned, group_vals_view, str_to_string, INT_ID, LIST_ID,
    SYMBOL_ID, KEYWORD_ID,
};
use crate::machine::{
    AEval, AScope, ASlot, Builtin, Build, arg, below, builtin_spec, builtin_panics, index_spec,
    index_overflows, swap_remove, flatten, all_lists, arity, is_arith, arith, is_compare,
    compare, bool_val, type_kw, list, replace_top, with_stack, scoped_spec, scoped_panics,
    scoped_ready, build_scope, base_scope, bind_locals, bind_defs, all_syms, scope_insert,
    new_scope, in_tail_position, leave_scope_val, locals_overflow, defs_overflow,
    lemma_locals_overflow, lemma_defs_overflow, SMALL_SCOPE_SIZE,
};
use crate::eval::{Eval, LexiconScope, Slot};
use crate::parser::{intern_all, lemma_intern_all_add, lemma_intern_all_one};

verus! {

broadcast use group_vals_view, vstd::std_specs::hash::group_hash_axioms;

pub const NUM_BUILTINS: usize = 47;

/// The builtins in the order they are registered, each with its name.
pub open spec fn entry(i: int) -> (Seq<char>, Builtin) {
    entry_at(i as u8)
}

pub open spec fn entry_at(i: u8) -> (Seq<char>, Builtin) {
    match i {
        0 => ("drop"@, Builtin::Drop),
        1 => ("dup"@, Builtin::Dup),
        2 => ("swap"@, Builtin::Swap),
        3 => ("+"@, Builtin::Add),
        4 => ("-"@, Builtin::Sub),
        5 => ("*"@, Builtin::Mul),
        6 => ("/"@, Builtin::Div),
        7 => ("%"@, Builtin::Mod),
        8 => ("="@, Builtin::Eq),
        9 => ("<>"@, Builtin::Neq),
        10 => ("<"@, Builtin::Lt),
        11 => ("<="@, Builtin::Leq),
        12 => (">"@, Builtin::Gt),
        13 => (">="@, Builtin::Geq),
        14 => ("true"@, Builtin::True),
        15 => ("false"@, Builtin::False),
        16 => ("&&"@, Builtin::And),
        17 => ("||"@, Builtin::Or),
        18 => ("not"@, Builtin::Not),
        19 => ("length"@, Builtin::Length),
        20 => ("append"@, Builtin::Append),
        21 => ("push-back"@, Builtin::PushBack),
        22 => ("push-front"@, Builtin::PushFront),
        23 => ("head"@, Builtin::Head),
        24 => ("tail"@, Builtin::Tail),
        25 => ("init"@, Builtin::Init),
        26 => ("last"@, Builtin::Last),
        27 => ("head-tail"@, Builtin::HeadTail),
        28 => ("last-init"@, Builtin::LastInit),
        29 => ("nth"@, Builtin::Nth),
        30 => ("set-nth"@, Builtin::SetNth),
        31 => ("insert-before"@, Builtin::InsertBefore),
        32 => ("remove-nth"@, Builtin::RemoveNth),
        33 => ("swap-remove-nth"@, Builtin::SwapRemoveNth),
        34 => ("concat"@, Builtin::Concat),
        35 => ("slice"@, Builtin::Slice),
        36 => ("type-of"@, Builtin::TypeOf),
        37 => ("int?"@, Builtin::IsInt),
        38 => ("symbol?"@, Builtin::IsSymbol),
        39 => ("keyword?"@, Builtin::IsKeyword),
        40 => ("list?"@, Builtin::IsList),
        41 => ("quote"@, Builtin::Quote),
        42 => ("unquote"@, Builtin::Unquote),
        43 => ("choose"@, Builtin::Choose),
        44 => ("%{leave-scope}"@, Builtin::LeaveScope),
        45 => ("locals"@, Builtin::Locals),
        _ => ("define"@, Builtin::Define),
    }
}

/// The names of the first `i` builtins.
pub open spec fn entry_names(i: int) -> Seq<Seq<char>> {
    Seq::new(i as nat, |k: int| entry(k).0)
}

/// The symbol of an interned name.
pub open spec fn sym_of(t: Seq<Seq<char>>, name: Seq<char>) -> u64 {
    (t.index_of(name) + 1) as u64
}

/// The builtins map after registering the first `i` builtins, with the
/// names looked up in `t`.
pub open spec fn reg_map(t: Seq<Seq<char>>, i: int) -> Map<u64, Builtin>
    decreases i,
{
    if i <= 0 {
        Map::empty()
    } else {
        reg_map(t, i - 1).insert(sym_of(t, entry(i - 1).0), entry(i - 1).1)
    }
}

/// The builtins of a table in which all builtin names are interned.
pub open spec fn builtins_for(t: Seq<Seq<char>>) -> Map<u64, Builtin> {
    reg_map(t, NUM_BUILTINS as int)
}

fn entry_exec(i: usize) -> (r: (&'static str, Builtin))
    requires
        i < NUM_BUILTINS,
    ensures
        r.0@ == entry(i as int).0,
        r.1 == entry(i as int).1,
{
    match i {
        0 => ("drop", Builtin::Drop),
        1 => ("dup", Builtin::Dup),
        2 => ("swap", Builtin::Swap),
        3 => ("+", Builtin::Add),
        4 => ("-", Builtin::Sub),
        5 => ("*", Builtin::Mul),
        6 => ("/", Builtin::Div),
        7 => ("%", Builtin::Mod),
        8 => ("=", Builtin::Eq),
        9 => ("<>", Builtin::Neq),
        10 => ("<", Builtin::Lt),
        11 => ("<=", Builtin::Leq),
        12 => (">", Builtin::Gt),
        13 => (">=", Builtin::Geq),
        14 => ("true", Builtin::True),
        15 => ("false", Builtin::False),
        16 => ("&&", Builtin::And),
        17 => ("||", Builtin::Or),
        18 => ("not", Builtin::Not),
        19 => ("length", Builtin::Length),
        20 => ("append", Builtin::Append),
        21 => ("push-back", Builtin::PushBack),
        22 => ("push-front", Builtin::PushFront),
        23 => ("head", Builtin::Head),
        24 => ("tail", Builtin::Tail),
        25 => ("init", Builtin::Init),
        26 => ("last", Builtin::Last),
        27 => ("head-tail", Builtin::HeadTail),
        28 => ("last-init", Builtin::LastInit),
        29 => ("nth", Builtin::Nth),
        30 => ("set-nth", Builtin::SetNth),
        31 => ("insert-before", Builtin::InsertBefore),
        32 => ("remove-nth", Builtin::RemoveNth),
        33 => ("swap-remove-nth", Builtin::SwapRemoveNth),
        34 => ("concat", Builtin::Concat),
        35 => ("slice", Builtin::Slice),
        36 => ("type-of", Builtin::TypeOf),
        37 => ("int?", Builtin::IsInt),
        38 => ("symbol?", Builtin::IsSymbol),
        39 => ("keyword?", Builtin::IsKeyword),
        40 => ("list?", Builtin::IsList),
        41 => ("quote", Builtin::Quote),
        42 => ("unquote", Builtin::Unquote),
        43 => ("choose", Builtin::Choose),
        44 => ("%{leave-scope}", Builtin::LeaveScope),
        45 => ("locals", Builtin::Locals),
        _ => ("define", Builtin::Define),
    }
}

/// In a table without repeats, the position of a name is where it is.
pub(crate) proof fn lemma_index_of_unique(t: Seq<Seq<char>>, k: int)
    requires
        forall|i: int, j: int| 0 <= i < j < t.len() ==> t[i] != t[j],
        0 <= k < t.len(),
    ensures
        t.index_of(t[k]) == k,
{
    let i = t.index_of(t[k]);
    assert(t.contains(t[k]));
}

/// Growing the table keeps the symbols of names already in it.
proof fn lemma_reg_map_extend(t: Seq<Seq<char>>, t2: Seq<Seq<char>>, i: int)
    requires
        forall|a: int, b: int| 0 <= a < b < t2.len() ==> t2[a] != t2[b],
        t.len() <= t2.len(),
        forall|k: int| 0 <= k < t.len() ==> t2[k] == t[k],
        forall|k: int| 0 <= k < i ==> t.contains(#[trigger] entry(k).0),
    ensures
        reg_map(t2, i) == reg_map(t, i),
    decreases i,
{
    if i > 0 {
        lemma_reg_map_extend(t, t2, i - 1);
        let name = entry(i - 1).0;
        assert(t.contains(name));
        let k = choose|k: int| 0 <= k < t.len() && t[k] == name;
        lemma_index_of_unique(t2, k);
        assert(forall|a: int, b: int| 0 <= a < b < t.len() ==> t[a] != t[b]) by {
            assert forall|a: int, b: int| 0 <= a < b < t.len() implies t[a] != t[b] by {
                assert(t2[a] == t[a] && t2[b] == t[b]);
            }
        }
        lemma_index_of_unique(t, k);
    }
}

/// Interns the names of the builtins into `t` and maps each one's symbol to
/// its builtin.
pub fn builtins(t: &mut SymbolTable) -> (b: HashMap<u64, Builtin>)
    requires
        old(t).wf(),
        old(t)@.len() + NUM_BUILTINS < usize::MAX,
    ensures
        final(t).wf(),
        old(t)@.len() <= final(t)@.len() <= old(t)@.len() + NUM_BUILTINS,
        forall|k: int| 0 <= k < old(t)@.len() ==> #[trigger] final(t)@[k] == old(t)@[k],
        forall|k: int| 0 <= k < NUM_BUILTINS ==> final(t)@.contains(#[trigger] entry(k).0),
        final(t)@ == intern_all(old(t)@, entry_names(NUM_BUILTINS as int)),
        b@ == builtins_for(final(t)@),
{
    let mut b: HashMap<u64, Builtin> = HashMap::new();
    let mut i: usize = 0;
    assert(entry_names(0) =~= Seq::<Seq<char>>::empty());
    while i < NUM_BUILTINS
        invariant
            i <= NUM_BUILTINS,
            t.wf(),
            old(t)@.len() <= t@.len() <= old(t)@.len() + i,
            old(t)@.len() + NUM_BUILTINS < usize::MAX,
            forall|k: int| 0 <= k < old(t)@.len() ==> #[trigger] t@[k] == old(t)@[k],
            forall|k: int| 0 <= k < i ==> t@.contains(#[trigger] entry(k).0),
            t@ == intern_all(old(t)@, entry_names(i as int)),
            b@ == reg_map(t@, i as int),
        decreases NUM_BUILTINS - i,
    {
        let (name, op) = entry_exec(i);
        let ghost t_before = t@;
        let s = t.intern(str_to_string(name));
        proof {
            assert(forall|k: int| 0 <= k < t_before.len() ==> t@[k] == t_before[k]);
            assert forall|k: int| 0 <= k < i implies t@.contains(#[trigger] entry(k).0) by {
                assert(t_before.contains(entry(k).0));
                let j = choose|j: int| 0 <= j < t_before.len() && t_before[j] == entry(k).0;
                assert(t@[j] == entry(k).0);
            }
            assert(t@.contains(entry(i as int).0)) by {
                assert(t@[s.0 - 1] == entry(i as int).0);
            }
            lemma_reg_map_extend(t_before, t@, i as int);
            lemma_index_of_unique(t@, s.0 - 1);
            assert(entry_names(i + 1) =~= entry_names(i as int) + seq![entry(i as int).0]);
            lemma_intern_all_add(old(t)@, entry_names(i as int), seq![entry(i as int).0]);
            lemma_intern_all_one(t_before, entry(i as int).0);
        }
        b.insert(s.0, op);
        i = i + 1;
    }
    b
}

proof fn lemma_below(s: AEval, k: int)
    requires
        0 <= k < s.stack.len(),
    ensures
        below(s, k + 1) == below(s, k).drop_last(),
        below(s, k).last() == arg(s, k),
        below(s, 0) == s.stack,
        below(s, k).len() == s.stack.len() - k,
{
    assert(below(s, k + 1) =~= below(s, k).drop_last());
    assert(below(s, 0) =~= s.stack);
}

/// Pops the top `n` values into the order `[top, second, ...]`: the stack
/// that remains is `below(s, n)`.
proof fn lemma_pops(s: AEval)
    ensures
        forall|k: int| #![trigger below(s, k)] 0 <= k < s.stack.len() ==> below(s, k + 1) == below(s, k).drop_last() && below(s, k).last() == arg(s, k),
        below(s, 0) == s.stack,
{
    assert forall|k: int| #![trigger below(s, k)] 0 <= k < s.stack.len() implies below(s, k + 1) == below(s, k).drop_last() && below(s, k).last() == arg(s, k) by {
        lemma_below(s, k);
    }
    assert(below(s, 0) =~= s.stack);
}

fn b_drop(e: &mut Eval) -> (r: bool)
    requires
        old(e).wf(),
    ensures
        final(e).builtin_done(Builtin::Drop, &*old(e), r),
{
    proof {
        lemma_pops(old(e)@);
    }
    if e.stack.len() < 1 {
        return false;
    }
    let _ = e.pop();
    assert(e@.stack =~= below(old(e)@, 1) + seq![]);
    true
}

fn b_dup(e: &mut Eval) -> (r: bool)
    requires
        old(e).wf(),
    ensures
        final(e).builtin_done(Builtin::Dup, &*old(e), r),
{
    proof {
        lemma_pops(old(e)@);
    }
    if e.stack.len() < 1 {
        return false;
    }
    let x = e.pop();
    let y = x.copy();
    e.push(y);
    e.push(x);
    assert(e@.stack =~= below(old(e)@, 1) + seq![arg(old(e)@, 0), arg(old(e)@, 0)]);
    true
}

fn b_swap(e: &mut Eval) -> (r: bool)
    requires
        old(e).wf(),
    ensures
        final(e).builtin_done(Builtin::Swap, &*old(e), r),
{
    proof {
        lemma_pops(old(e)@);
    }
    if e.stack.len() < 2 {
        return false;
    }
    let x = e.pop();
    let y = e.pop();
    e.push(x);
    e.push(y);
    assert(e@.stack =~= below(old(e)@, 2) + seq![arg(old(e)@, 0), arg(old(e)@, 1)]);
    true
}

/// `+ - * / %` on two integers: the top one is the left operand.
fn b_arith(e: &mut Eval, op: Builtin) -> (r: bool)
    requires
        old(e).wf(),
        is_arith(op),
        !builtin_panics(op, old(e)@),
    ensures
        final(e).builtin_done(op, &*old(e), r),
{
    proof {
        lemma_pops(old(e)@);
    }
    if e.stack.len() < 2 {
        return false;
    }
    let x = e.pop();
    let y = e.pop();
    match (&x, &y) {
        (Val::Int(l), Val::Int(r)) => {
            let v = match op {
                Builtin::Add => l.checked_add(*r),
                Builtin::Sub => l.checked_sub(*r),
                Builtin::Mul => l.checked_mul(*r),
                Builtin::Div => l.checked_div(*r),
                _ => l.checked_rem(*r),
            };
            let v = v.unwrap();
            e.push(Val::Int(v));
            assert(e@.stack =~= below(old(e)@, 2) + seq![AVal::Int(v)]);
            true
        },
        _ => {
            e.push(y);
            e.push(x);
            assert(e@.stack =~= old(e)@.stack);
            assert(e@ == old(e)@);
            false
        },
    }
}

fn b_eq(e: &mut Eval, negate: bool) -> (r: bool)
    requires
        old(e).wf(),
    ensures
        final(e).builtin_done(
            if negate {
                Builtin::Neq
            } else {
                Builtin::Eq
            },
            &*old(e),
            r,
        ),
{
    proof {
        lemma_pops(old(e)@);
    }
    if e.stack.len() < 2 {
        return false;
    }
    let x = e.pop();
    let y = e.pop();
    let same = x.equals(&y);
    let b = if negate {
        !same
    } else {
        same
    };
    e.push(Val::Int(
        if b {
            1
        } else {
            0
        },
    ));
    assert(e@.stack =~= below(old(e)@, 2) + seq![bool_val(b)]);
    true
}

/// `< <= > >=` on two integers: the top one is the left operand.
fn b_cmp(e: &mut Eval, op: Builtin) -> (r: bool)
    requires
        old(e).wf(),
        is_compare(op),
    ensures
        final(e).builtin_done(op, &*old(e), r),
{
    proof {
        lemma_pops(old(e)@);
    }
    if e.stack.len() < 2 {
        return false;
    }
    let x = e.pop();
    let y = e.pop();
    match (&x, &y) {
        (Val::Int(l), Val::Int(r)) => {
            let b = match op {
                Builtin::Lt => *l < *r,
                Builtin::Leq => *l <= *r,
                Builtin::Gt => *l > *r,
                _ => *l >= *r,
            };
            e.push(Val::Int(
                if b {
                    1
                } else {
                    0
                },
            ));
            assert(e@.stack =~= below(old(e)@, 2) + seq![bool_val(b)]);
            true
        },
        _ => {
            e.push(y);
            e.push(x);
            assert(e@.stack =~= old(e)@.stack);
            assert(e@ == old(e)@);
            false
        },
    }
}

fn b_bool(e: &mut Eval, value: bool) -> (r: bool)
    requires
        old(e).wf(),
    ensures
        final(e).builtin_done(
            if value {
                Builtin::True
            } else {
                Builtin::False
            },
            &*old(e),
            r,
        ),
{
    proof {
        lemma_pops(old(e)@);
    }
    e.push(Val::Int(
        if value {
            1
        } else {
            0
        },
    ));
    assert(e@.stack =~= below(old(e)@, 0) + seq![bool_val(value)]);
    true
}

/// `&&` (when `is_and`) and `||`: the top value if it decides the result,
/// else the one under it.
fn b_logic(e: &mut Eval, is_and: bool) -> (r: bool)
    requires
        old(e).wf(),
    ensures
        final(e).builtin_done(
            if is_and {
                Builtin::And
            } else {
                Builtin::Or
            },
            &*old(e),
            r,
        ),
{
    proof {
        lemma_pops(old(e)@);
    }
    if e.stack.len() < 2 {
        return false;
    }
    let x = e.pop();
    let y = e.pop();
    let t = x.is_truthy();
    let ghost (xv, yv) = (x@, y@);
    if (is_and && !t) || (!is_and && t) {
        e.push(x);
        assert(e@.stack =~= below(old(e)@, 2) + seq![xv]);
    } else {
        e.push(y);
        assert(e@.stack =~= below(old(e)@, 2) + seq![yv]);
    }
    true
}

fn b_not(e: &mut Eval) -> (r: bool)
    requires
        old(e).wf(),
    ensures
        final(e).builtin_done(Builtin::Not, &*old(e), r),
{
    proof {
        lemma_pops(old(e)@);
    }
    if e.stack.len() < 1 {
        return false;
    }
    let x = e.pop();
    let b = !x.is_truthy();
    e.push(Val::Int(
        if b {
            1
        } else {
            0
        },
    ));
    assert(e@.stack =~= below(old(e)@, 1) + seq![bool_val(b)]);
    true
}

fn b_type_of(e: &mut Eval) -> (r: bool)
    requires
        old(e).wf(),
    ensures
        final(e).builtin_done(Builtin::TypeOf, &*old(e), r),
{
    proof {
        lemma_pops(old(e)@);
    }
    if e.stack.len() < 1 {
        return false;
    }
    let x = e.pop();
    let k = match x {
        Val::List(_) | Val::Ref(_) => LIST_ID,
        Val::Int(_) => INT_ID,
        Val::Sym(_) => SYMBOL_ID,
        Val::Kw(_) => KEYWORD_ID,
    };
    e.push(Val::Kw(Sym(k)));
    assert(e@.stack =~= below(old(e)@, 1) + seq![type_kw(arg(old(e)@, 0))]);
    true
}

/// `int?`, `symbol?`, `keyword?`, `list?`.
fn b_type_pred(e: &mut Eval, op: Builtin) -> (r: bool)
    requires
        old(e).wf(),
        op is IsInt || op is IsSymbol || op is IsKeyword || op is IsList,
    ensures
        final(e).builtin_done(op, &*old(e), r),
{
    proof {
        lemma_pops(old(e)@);
    }
    if e.stack.len() < 1 {
        return false;
    }
    let x = e.pop();
    let b = match op {
        Builtin::IsInt => x.is_int(),
        Builtin::IsSymbol => x.is_sym(),
        Builtin::IsKeyword => x.is_kw(),
        _ => x.is_list(),
    };
    e.push(Val::Int(
        if b {
            1
        } else {
            0
        },
    ));
    assert(e@.stack =~= below(old(e)@, 1) + seq![bool_val(b)]);
    true
}

fn b_quote(e: &mut Eval) -> (r: bool)
    requires
        old(e).wf(),
    ensures
        final(e).builtin_done(Builtin::Quote, &*old(e), r),
{
    proof {
        lemma_pops(old(e)@);
    }
    if e.stack.len() < 1 {
        return false;
    }
    let x = e.pop();
    let ghost xv = x@;
    let mut vs: Vals = VecDeque::new();
    vs.push_back(x);
    let q = Val::List(vs);
    assert(vals_view(vs@) =~= seq![xv]);
    e.push(q);
    assert(e@.stack =~= below(old(e)@, 1) + seq![list(seq![xv])]);
    true
}

/// Where index `i0` refers to in a list of length `n0`; see `index_spec`.
pub fn index_helper(i0: i64, n0: usize, allow_end: bool) -> (r: Option<usize>)
    requires
        !index_overflows(i0, n0 as nat, allow_end),
    ensures
        r is None <==> index_spec(i0, n0 as nat, allow_end) is None,
        r matches Some(i) ==> index_spec(i0, n0 as nat, allow_end) == Some(i as int) && i <= n0,
{
    let n = n0 as i64;
    let i = if i0 < 0 {
        if i0 == -1 && n == 0 && allow_end {
            0
        } else {
            i0 + n
        }
    } else {
        i0
    };
    if i < 0 || (i >= n && !(allow_end && i == n)) {
        return None;
    }
    Some(i as usize)
}

fn b_length(e: &mut Eval) -> (r: bool)
    requires
        old(e).wf(),
    ensures
        final(e).builtin_done(Builtin::Length, &*old(e), r),
{
    proof {
        lemma_pops(old(e)@);
    }
    if e.stack.len() < 1 {
        return false;
    }
    let vs = e.pop();
    if !vs.is_list() {
        e.push(vs);
        assert(e@.stack =~= old(e)@.stack);
        return false;
    }
    let n = vs.len();
    e.push(Val::Int(n as i64));
    assert(e@.stack =~= below(old(e)@, 1) + seq![AVal::Int(arg(old(e)@, 0).elems().len() as i64)]);
    true
}

fn b_append(e: &mut Eval) -> (r: bool)
    requires
        old(e).wf(),
    ensures
        final(e).builtin_done(Builtin::Append, &*old(e), r),
{
    proof {
        lemma_pops(old(e)@);
    }
    if e.stack.len() < 2 {
        return false;
    }
    let ls = e.pop();
    let rs = e.pop();
    if !(ls.is_list() && rs.is_list()) {
        e.push(rs);
        e.push(ls);
        assert(e@.stack =~= old(e)@.stack);
        return false;
    }
    let mut l = ls.take_elems();
    let mut rl = rs.take_elems();
    l.append(&mut rl);
    let v = Val::List(l);
    e.push(v);
    assert(e@.stack =~= below(old(e)@, 2) + seq![list(arg(old(e)@, 0).elems() + arg(old(e)@, 1).elems())]);
    true
}

/// `push-back` (when `back`) and `push-front`: adds the top value to the
/// list under it.
fn b_push(e: &mut Eval, back: bool) -> (r: bool)
    requires
        old(e).wf(),
    ensures
        final(e).builtin_done(
            if back {
                Builtin::PushBack
            } else {
                Builtin::PushFront
            },
            &*old(e),
            r,
        ),
{
    proof {
        lemma_pops(old(e)@);
    }
    if e.stack.len() < 2 {
        return false;
    }
    let v = e.pop();
    let vs = e.pop();
    if !vs.is_list() {
        e.push(vs);
        e.push(v);
        assert(e@.stack =~= old(e)@.stack);
        return false;
    }
    let ghost vv = v@;
    let mut l = vs.take_elems();
    let ghost before = vals_view(l@);
    if back {
        l.push_back(v);
    } else {
        l.push_front(v);
        assert(vals_view(l@) =~= seq![vv] + before);
    }
    e.push(Val::List(l));
    if back {
        assert(e@.stack =~= below(old(e)@, 2) + seq![list(arg(old(e)@, 1).elems().push(vv))]);
    } else {
        assert(e@.stack =~= below(old(e)@, 2) + seq![list(seq![vv] + arg(old(e)@, 1).elems())]);
    }
    true
}

/// `head`, `tail`, `init`, `last`, `head-tail` and `last-init` on a nonempty
/// list.
fn b_ends(e: &mut Eval, op: Builtin) -> (r: bool)
    requires
        old(e).wf(),
        op is Head || op is Tail || op is Init || op is Last || op is HeadTail || op is LastInit,
    ensures
        final(e).builtin_done(op, &*old(e), r),
{
    proof {
        lemma_pops(old(e)@);
    }
    if e.stack.len() < 1 {
        return false;
    }
    let mut vs = e.pop();
    if !vs.is_list() || vs.len() == 0 {
        e.push(vs);
        assert(e@.stack =~= old(e)@.stack);
        return false;
    }
    let ghost es = vs@.elems();
    let n = vs.len();
    match op {
        Builtin::Head => {
            let h = vs.nth(0).copy();
            e.push(h);
            assert(e@.stack =~= below(old(e)@, 1) + seq![es[0]]);
        },
        Builtin::Last => {
            let h = vs.nth(n - 1).copy();
            e.push(h);
            assert(e@.stack =~= below(old(e)@, 1) + seq![es.last()]);
        },
        Builtin::Tail => {
            let _ = vs.pop_front();
            e.push(vs);
            assert(e@.stack =~= below(old(e)@, 1) + seq![list(es.drop_first())]);
        },
        Builtin::Init => {
            let _ = vs.pop_back();
            e.push(vs);
            assert(e@.stack =~= below(old(e)@, 1) + seq![list(es.drop_last())]);
        },
        Builtin::HeadTail => {
            let h = vs.pop_front().unwrap();
            e.push(vs);
            e.push(h);
            assert(e@.stack =~= below(old(e)@, 1) + seq![list(es.drop_first()), es[0]]);
        },
        _ => {
            let h = vs.pop_back().unwrap();
            e.push(vs);
            e.push(h);
            assert(e@.stack =~= below(old(e)@, 1) + seq![list(es.drop_last()), es.last()]);
        },
    }
    true
}

/// `nth`, `remove-nth` and `swap-remove-nth`: an index on top of a list.
fn b_index(e: &mut Eval, op: Builtin) -> (r: bool)
    requires
        old(e).wf(),
        op is Nth || op is RemoveNth || op is SwapRemoveNth,
        !builtin_panics(op, old(e)@),
    ensures
        final(e).builtin_done(op, &*old(e), r),
{
    proof {
        lemma_pops(old(e)@);
    }
    if e.stack.len() < 2 {
        return false;
    }
    let i0 = e.pop();
    let vs = e.pop();
    if !(i0.is_int() && vs.is_list()) {
        e.push(vs);
        e.push(i0);
        assert(e@.stack =~= old(e)@.stack);
        return false;
    }
    let n = vs.len();
    let i = match index_helper(i0.int_value(), n, false) {
        Some(i) => i,
        None => {
            e.push(vs);
            e.push(i0);
            assert(e@.stack =~= old(e)@.stack);
            return false;
        },
    };
    let ghost es = vs@.elems();
    match op {
        Builtin::Nth => {
            let x = vs.nth(i).copy();
            e.push(x);
            assert(e@.stack =~= below(old(e)@, 2) + seq![es[i as int]]);
        },
        Builtin::RemoveNth => {
            let mut l = vs.take_elems();
            let _ = l.remove(i);
            assert(vals_view(l@) =~= es.remove(i as int));
            e.push(Val::List(l));
            assert(e@.stack =~= below(old(e)@, 2) + seq![list(es.remove(i as int))]);
        },
        _ => {
            let mut l = vs.take_elems();
            let last = l.pop_back().unwrap();
            if i < n - 1 {
                let _ = l.remove(i);
                l.insert(i, last);
            }
            assert(vals_view(l@) =~= swap_remove(es, i as int));
            e.push(Val::List(l));
            assert(e@.stack =~= below(old(e)@, 2) + seq![list(swap_remove(es, i as int))]);
        },
    }
    true
}

/// `set-nth` and `insert-before`: an index on top of a value on top of a
/// list.
fn b_index_put(e: &mut Eval, op: Builtin) -> (r: bool)
    requires
        old(e).wf(),
        op is SetNth || op is InsertBefore,
        !builtin_panics(op, old(e)@),
    ensures
        final(e).builtin_done(op, &*old(e), r),
{
    proof {
        lemma_pops(old(e)@);
    }
    if e.stack.len() < 3 {
        return false;
    }
    let i0 = e.pop();
    let v = e.pop();
    let vs = e.pop();
    if !(i0.is_int() && vs.is_list()) {
        e.push(vs);
        e.push(v);
        e.push(i0);
        assert(e@.stack =~= old(e)@.stack);
        return false;
    }
    let n = vs.len();
    let insert = match op {
        Builtin::InsertBefore => true,
        _ => false,
    };
    let i = match index_helper(i0.int_value(), n, insert) {
        Some(i) => i,
        None => {
            e.push(vs);
            e.push(v);
            e.push(i0);
            assert(e@.stack =~= old(e)@.stack);
            return false;
        },
    };
    let ghost es = vs@.elems();
    let ghost vv = v@;
    let mut l = vs.take_elems();
    if insert {
        l.insert(i, v);
        assert(vals_view(l@) =~= es.insert(i as int, vv));
        e.push(Val::List(l));
        assert(e@.stack =~= below(old(e)@, 3) + seq![list(es.insert(i as int, vv))]);
    } else {
        let _ = l.remove(i);
        l.insert(i, v);
        assert(vals_view(l@) =~= es.update(i as int, vv));
        e.push(Val::List(l));
        assert(e@.stack =~= below(old(e)@, 3) + seq![list(es.update(i as int, vv))]);
    }
    true
}

proof fn lemma_flatten_step(s: Seq<AVal>)
    requires
        s.len() > 0,
    ensures
        flatten(s) == s[0].elems() + flatten(s.drop_first()),
{
}

fn b_concat(e: &mut Eval) -> (r: bool)
    requires
        old(e).wf(),
    ensures
        final(e).builtin_done(Builtin::Concat, &*old(e), r),
{
    proof {
        lemma_pops(old(e)@);
    }
    if e.stack.len() < 1 {
        return false;
    }
    let vs = e.pop();
    if !vs.is_list() {
        e.push(vs);
        assert(e@.stack =~= old(e)@.stack);
        return false;
    }
    let n = vs.len();
    let mut k: usize = 0;
    let mut all = true;
    while k < n
        invariant
            vs@ is List,
            n == vs@.elems().len(),
            k <= n,
            all == (forall|j: int| 0 <= j < k ==> (#[trigger] vs@.elems()[j]).is_list()),
        decreases n - k,
    {
        if !vs.nth(k).is_list() {
            all = false;
        }
        k = k + 1;
    }
    if !all {
        e.push(vs);
        assert(e@.stack =~= old(e)@.stack);
        return false;
    }
    let ghost es = vs@.elems();
    let mut rest = vs.take_elems();
    let mut r: Vals = VecDeque::new();
    while rest.len() > 0
        invariant
            all_lists(vals_view(rest@)),
            vals_view(r@) + flatten(vals_view(rest@)) == flatten(es),
        decreases rest@.len(),
    {
        let ghost before = vals_view(rest@);
        let v = rest.pop_front().unwrap();
        assert(before[0] == v@);
        assert(vals_view(rest@) =~= before.drop_first());
        proof {
            lemma_flatten_step(before);
        }
        let mut inner = v.take_elems();
        let ghost rv = vals_view(r@);
        r.append(&mut inner);
        assert(vals_view(r@) + flatten(vals_view(rest@)) =~= rv + (before[0].elems() + flatten(before.drop_first())));
    }
    assert(vals_view(r@) =~= flatten(es));
    e.push(Val::List(r));
    assert(e@.stack =~= below(old(e)@, 1) + seq![list(flatten(es))]);
    true
}

fn b_slice(e: &mut Eval) -> (r: bool)
    requires
        old(e).wf(),
        !builtin_panics(Builtin::Slice, old(e)@),
    ensures
        final(e).builtin_done(Builtin::Slice, &*old(e), r),
{
    proof {
        lemma_pops(old(e)@);
    }
    if e.stack.len() < 3 {
        return false;
    }
    let from = e.pop();
    let to = e.pop();
    let mut vs = e.pop();
    if !(from.is_int() && to.is_int() && vs.is_list()) {
        e.push(vs);
        e.push(to);
        e.push(from);
        assert(e@.stack =~= old(e)@.stack);
        return false;
    }
    let n = vs.len();
    let a = index_helper(from.int_value(), n, true);
    let b = index_helper(to.int_value(), n, true);
    match (a, b) {
        (Some(i), Some(j)) => {
            if i > j || (i > 0 && n == 0) {
                e.push(vs);
                e.push(to);
                e.push(from);
                assert(e@.stack =~= old(e)@.stack);
                return false;
            }
            let ghost es = vs@.elems();
            vs.slice(i, j);
            e.push(vs);
            assert(e@.stack =~= below(old(e)@, 3) + seq![list(es.subrange(i as int, j as int))]);
            true
        },
        _ => {
            e.push(vs);
            e.push(to);
            e.push(from);
            assert(e@.stack =~= old(e)@.stack);
            false
        },
    }
}

fn b_unquote(e: &mut Eval) -> (r: bool)
    requires
        old(e).wf(),
    ensures
        final(e).builtin_done(Builtin::Unquote, &*old(e), r),
{
    proof {
        lemma_pops(old(e)@);
    }
    if e.stack.len() < 1 {
        return false;
    }
    let x = e.pop();
    if x.is_list() {
        e.program.extend(x.into_list_ref());
        true
    } else {
        e.push(x);
        assert(e@.stack =~= old(e)@.stack);
        false
    }
}

fn b_choose(e: &mut Eval) -> (r: bool)
    requires
        old(e).wf(),
    ensures
        final(e).builtin_done(Builtin::Choose, &*old(e), r),
{
    proof {
        lemma_pops(old(e)@);
    }
    if e.stack.len() < 3 {
        return false;
    }
    let t = e.pop();
    let f = e.pop();
    let c = e.pop();
    if t.is_list() && f.is_list() {
        if c.is_truthy() {
            e.program.extend(t.into_list_ref());
        } else {
            e.program.extend(f.into_list_ref());
        }
        true
    } else {
        e.push(c);
        e.push(f);
        e.push(t);
        assert(e@.stack =~= old(e)@.stack);
        false
    }
}

fn b_leave_scope(e: &mut Eval) -> (r: bool)
    requires
        old(e).wf(),
    ensures
        final(e).builtin_done(Builtin::LeaveScope, &*old(e), r),
{
    let ghost before = e.lexicon@;
    let r = e.lexicon.pop().is_some();
    proof {
        if r {
            assert(crate::eval::scopes_view(e.lexicon@) =~= crate::eval::scopes_view(before).drop_last());
        }
    }
    r
}

/// Binds the names of `locals` to the top values of the stack, the first
/// name to the top value, and takes those values off the stack. Fails,
/// changing nothing, when a name is not a symbol.
fn bind_locals_exec(stack: &mut Vec<Val>, bs: &Val, scope: &mut LexiconScope) -> (r: bool)
    requires
        bs@ is List,
        bs@.elems().len() <= old(stack)@.len(),
        old(scope).wf(),
        ({
            let m = bs@.elems().len();
            let st = vals_view(old(stack)@);
            all_syms(bs@.elems()) ==> !(bind_locals(
                old(scope)@,
                bs@.elems(),
                st.subrange(st.len() - m, st.len() as int),
                0,
            ) is Panic)
        }),
    ensures
        r == all_syms(bs@.elems()),
        !r ==> final(stack)@ == old(stack)@,
        final(scope).wf(),
        r ==> ({
            let m = bs@.elems().len();
            let st = vals_view(old(stack)@);
            &&& bind_locals(old(scope)@, bs@.elems(), st.subrange(st.len() - m, st.len() as int), 0)
                == Build::Done(final(scope)@)
            &&& vals_view(final(stack)@) == st.subrange(0, st.len() - m)
            &&& final(scope).wf()
        }),
{
    let m = bs.len();
    let ghost names = bs@.elems();
    let mut k: usize = 0;
    while k < m
        invariant
            bs@ is List,
            names == bs@.elems(),
            m == names.len(),
            k <= m,
            forall|j: int| 0 <= j < k ==> (#[trigger] names[j]) is Sym,
            scope.wf(),
        decreases m - k,
    {
        if !bs.nth(k).is_sym() {
            return false;
        }
        k = k + 1;
    }
    let ghost st = vals_view(stack@);
    let ghost vals = st.subrange(st.len() - m, st.len() as int);
    let n = stack.len();
    let mut drained = stack.split_off(n - m);
    assert(vals_view(drained@) =~= vals);
    assert(vals_view(stack@) =~= st.subrange(0, st.len() - m));
    let mut rev: Vec<Val> = Vec::new();
    while drained.len() > 0
        invariant
            vals_view(drained@) + vals_view(rev@).reverse() =~= vals,
        decreases drained@.len(),
    {
        let ghost d = vals_view(drained@);
        let ghost rv = vals_view(rev@);
        let v = drained.pop().unwrap();
        rev.push(v);
        assert(vals_view(drained@) =~= d.drop_last());
        assert(vals_view(rev@).reverse() =~= seq![d.last()] + rv.reverse());
        assert(d =~= d.drop_last() + seq![d.last()]);
    }
    assert(vals_view(rev@).reverse() =~= vals);
    let mut k: usize = 0;
    while k < m
        invariant
            bs@ is List,
            names == bs@.elems(),
            m == names.len(),
            all_syms(names),
            k <= m,
            rev@.len() == m - k,
            forall|j: int| 0 <= j < m - k ==> (#[trigger] vals_view(rev@)[j]) == vals[m - 1 - j],
            scope.wf(),
            bind_locals(old(scope)@, names, vals, 0) == bind_locals(scope@, names, vals, k as int),
            !(bind_locals(old(scope)@, names, vals, 0) is Panic),
            vals.len() == m,
        decreases m - k,
    {
        let ghost rv = vals_view(rev@);
        let v = rev.pop().unwrap();
        assert(v@ == rv[rv.len() - 1]);
        assert(v@ == vals[k as int]);
        let name = bs.nth(m - 1 - k).sym();
        assert(scope_insert(scope@, name.0, ASlot::Val(vals[k as int])) is Some);
        let _ = scope.insert(name, Slot::Val(v.into_sharable()));
        k = k + 1;
        assert forall|j: int| 0 <= j < m - k implies (#[trigger] vals_view(rev@)[j]) == vals[m - 1 - j] by {
            assert(vals_view(rev@)[j] == rv[j]);
        }
    }
    true
}

/// Binds each name of `define` to the code after it. Fails when a name is
/// not a symbol or its code is not a list.
fn bind_defs_exec(bs: &Val, scope: &mut LexiconScope) -> (r: bool)
    requires
        bs@ is List,
        bs@.elems().len() % 2 == 0,
        old(scope).wf(),
        !(bind_defs(old(scope)@, bs@.elems(), 0) is Panic),
    ensures
        r == (bind_defs(old(scope)@, bs@.elems(), 0) is Done),
        r ==> bind_defs(old(scope)@, bs@.elems(), 0) == Build::Done(final(scope)@),
        final(scope).wf(),
{
    let m = bs.len();
    let half = m / 2;
    let ghost defs = bs@.elems();
    let mut k: usize = 0;
    while k < half
        invariant
            bs@ is List,
            defs == bs@.elems(),
            m == defs.len(),
            m % 2 == 0,
            half == m / 2,
            k <= half,
            scope.wf(),
            bind_defs(old(scope)@, defs, 0) == bind_defs(scope@, defs, k as int),
            !(bind_defs(old(scope)@, defs, 0) is Panic),
        decreases half - k,
    {
        let key = bs.nth(2 * k);
        let code = bs.nth(2 * k + 1);
        if !(key.is_sym() && code.is_list()) {
            return false;
        }
        let name = key.sym();
        let q = code.copy().into_list_ref();
        let _ = scope.insert(name, Slot::Quote(q));
        k = k + 1;
    }
    true
}

/// Pushes `scope` and runs `code` in it, closing it afterwards unless the
/// program is in tail position.
fn enter_scope(e: &mut Eval, scope: LexiconScope, code: Val, tail: bool)
    requires
        old(e).wf(),
        scope.wf(),
        code@ is List,
        tail == in_tail_position(old(e)@.program),
    ensures
        final(e).wf(),
        final(e).same_env(&*old(e)),
        final(e)@ == (AEval {
            program: (if tail {
                old(e)@.program
            } else {
                old(e)@.program.push(leave_scope_val())
            }) + code@.elems(),
            stack: old(e)@.stack,
            lexicon: old(e)@.lexicon.push(scope@),
        }),
{
    let ghost lex_mid = e.lexicon@;
    let ghost sv = scope@;
    e.lexicon.push(scope);
    assert(crate::eval::scopes_view(e.lexicon@) =~= crate::eval::scopes_view(lex_mid).push(sv));
    if !tail {
        e.program.leave_scope();
    }
    e.program.extend(code.into_list_ref());
}

proof fn lemma_scoped_done(is_locals: bool, s: AEval, sc: AScope)
    requires
        scoped_ready(is_locals, s),
        !(in_tail_position(s.program) && s.lexicon.len() == 0),
        build_scope(is_locals, s) == Build::Done(sc),
    ensures
        scoped_spec(is_locals, s) == ({
            let tail = in_tail_position(s.program);
            let bs = arg(s, 0).elems();
            let rest = below(s, 2);
            (
                AEval {
                    program: (if tail {
                        s.program
                    } else {
                        s.program.push(leave_scope_val())
                    }) + arg(s, 1).elems(),
                    stack: if is_locals {
                        rest.subrange(0, rest.len() - bs.len())
                    } else {
                        rest
                    },
                    lexicon: (if tail {
                        s.lexicon.drop_last()
                    } else {
                        s.lexicon
                    }).push(sc),
                },
                true,
            )
        }),
{
}

proof fn lemma_scoped_fail(is_locals: bool, s: AEval)
    requires
        scoped_ready(is_locals, s),
        !(in_tail_position(s.program) && s.lexicon.len() == 0),
        !(build_scope(is_locals, s) is Done),
    ensures
        scoped_spec(is_locals, s) == (
            AEval {
                lexicon: if in_tail_position(s.program) {
                    s.lexicon.drop_last()
                } else {
                    s.lexicon
                },
                ..s
            },
            false,
        ),
{
}

/// Fills the scope that `locals` (when `is_locals`) or `define` build on
/// `s`, taking the bound values off the stack for `locals`; see
/// `build_scope`. Fails, changing no value of the stack, where the build fails.
fn fill_scope(stack: &mut Vec<Val>, bs: &Val, scope: &mut LexiconScope, is_locals: bool, Ghost(s): Ghost<AEval>) -> (ok: bool)
    requires
        scoped_ready(is_locals, s),
        !scoped_panics(is_locals, s),
        !(in_tail_position(s.program) && s.lexicon.len() == 0),
        bs@ == arg(s, 0),
        vals_view(old(stack)@) == below(s, 2),
        old(scope).wf(),
        old(scope)@ == base_scope(s),
    ensures
        ok == (build_scope(is_locals, s) is Done),
        ok ==> build_scope(is_locals, s) == Build::Done(final(scope)@),
        ok ==> vals_view(final(stack)@) == if is_locals {
            below(s, 2).subrange(0, below(s, 2).len() - bs@.elems().len())
        } else {
            below(s, 2)
        },
        !ok ==> final(stack)@ == old(stack)@,
        final(scope).wf(),
{
    proof {
        reveal(build_scope);
    }
    if is_locals {
        bind_locals_exec(stack, bs, scope)
    } else {
        bind_defs_exec(bs, scope)
    }
}

/// `locals` (when `is_locals`) and `define`: see `scoped_spec`.
#[verifier::spinoff_prover]
fn b_scoped(e: &mut Eval, is_locals: bool) -> (r: bool)
    requires
        old(e).wf(),
        old(e)@.stack.len() >= 2,
        !scoped_panics(is_locals, old(e)@),
    ensures
        final(e).wf(),
        final(e).same_env(&*old(e)),
        (final(e)@, r) == scoped_spec(is_locals, old(e)@),
{
    let ghost s = old(e)@;
    proof {
        lemma_pops(s);
    }
    let bs = e.pop();
    let v = e.pop();
    let ready = bs.is_list() && v.is_list() && (if is_locals {
        bs.len() <= e.stack.len()
    } else {
        bs.len() % 2 == 0
    });
    if !ready {
        e.push(v);
        e.push(bs);
        assert(e@.stack =~= s.stack);
        return false;
    }
    assert(scoped_ready(is_locals, s));
    let tail = e.program.in_tail_position();
    let ghost lex_before = e.lexicon@;
    let mut scope = if tail {
        match e.lexicon.pop() {
            Some(sc) => sc,
            None => {
                e.push(v);
                e.push(bs);
                assert(e@.stack =~= s.stack);
                return false;
            },
        }
    } else {
        LexiconScope::new(bs.len() / 2)
    };
    proof {
        if tail {
            assert(crate::eval::scopes_view(e.lexicon@) =~= crate::eval::scopes_view(lex_before).drop_last());
        }
        assert(scope@ == base_scope(s));
        assert(vals_view(e.stack@) == below(s, 2));
    }
    let ok = fill_scope(&mut e.stack, &bs, &mut scope, is_locals, Ghost(s));
    if !ok {
        e.push(v);
        e.push(bs);
        assert(e@.stack =~= s.stack);
        proof {
            lemma_scoped_fail(is_locals, s);
        }
        return false;
    }
    proof {
        lemma_scoped_done(is_locals, s, scope@);
    }
    enter_scope(e, scope, v, tail);
    true
}

/// The names a scope starts with: those of `base`, or none.
spec fn base_names(base: Option<&LexiconScope>) -> Set<u64> {
    match base {
        Some(b) => b@.map.dom(),
        None => Set::empty(),
    }
}

/// Whether the names of `base` or the names `added` include `key`.
fn scope_has(base: Option<&LexiconScope>, added: &Vec<u64>, key: u64) -> (r: bool)
    ensures
        r == (base_names(base).contains(key) || added@.contains(key)),
{
    if let Some(b) = base {
        if b.get(Sym(key)).is_some() {
            return true;
        }
    }
    let mut i: usize = 0;
    while i < added.len()
        invariant
            i <= added@.len(),
            forall|j: int| 0 <= j < i ==> added@[j] != key,
        decreases added@.len() - i,
    {
        if added[i] == key {
            assert(added@[i as int] == key);
            return true;
        }
        i = i + 1;
    }
    false
}

/// The number of names in `base`.
fn base_len(base: Option<&LexiconScope>) -> (r: usize)
    requires
        base matches Some(b) ==> b.wf(),
    ensures
        r == base_names(base).len(),
        base_names(base).finite(),
        base matches Some(b) ==> b@.small ==> r <= SMALL_SCOPE_SIZE,
{
    match base {
        Some(b) => {
            assert(b@.map.dom() =~= b.contents().dom());
            b.len()
        },
        None => 0,
    }
}

/// Whether `locals` binding `names` overflows a scope that starts with the
/// names of `base` (see `locals_overflow`).
fn locals_would_overflow(base: Option<&LexiconScope>, small: bool, names: &Val) -> (r: bool)
    requires
        names@ is List,
        all_syms(names@.elems()),
        base matches Some(b) ==> b.wf() && b@.small == small,
    ensures
        r == locals_overflow(base_names(base), small, names@.elems(), 0),
{
    let ghost ns = names@.elems();
    let m = names.len();
    let n0 = base_len(base);
    let mut added: Vec<u64> = Vec::new();
    let ghost mut dom = base_names(base);
    let mut k: usize = 0;
    while k < m
        invariant
            names@ is List,
            ns == names@.elems(),
            m == ns.len(),
            all_syms(ns),
            k <= m,
            dom.finite(),
            base_names(base).finite(),
            n0 == base_names(base).len(),
            forall|x: u64| #[trigger] dom.contains(x) <==> (base_names(base).contains(x) || added@.contains(x)),
            dom.len() == n0 + added@.len(),
            small ==> n0 + added@.len() <= SMALL_SCOPE_SIZE,
            locals_overflow(base_names(base), small, ns, 0) == locals_overflow(dom, small, ns, k as int),
        decreases m - k,
    {
        assert(ns[m - 1 - k] is Sym);
        let key = names.nth(m - 1 - k).sym().0;
        let present = scope_has(base, &added, key);
        assert(present == dom.contains(key));
        if small && !present && n0 + added.len() >= SMALL_SCOPE_SIZE {
            return true;
        }
        if !present {
            let ghost before = added@;
            added.push(key);
            proof {
                assert forall|x: u64| #[trigger] dom.insert(key).contains(x) <==> (base_names(base).contains(x) || added@.contains(x)) by {
                    if added@.contains(x) && x != key {
                        let j = choose|j: int| 0 <= j < added@.len() && added@[j] == x;
                        assert(before[j] == x);
                    }
                    if before.contains(x) {
                        let j = choose|j: int| 0 <= j < before.len() && before[j] == x;
                        assert(added@[j] == x);
                    }
                    assert(added@[before.len() as int] == key);
                }
            }
        } else {
            assert(dom.insert(key) =~= dom);
        }
        proof {
            dom = dom.insert(key);
        }
        k = k + 1;
    }
    false
}

/// Whether `define` binding the pairs `defs` overflows a scope that starts
/// with the names of `base` (see `defs_overflow`).
fn defs_would_overflow(base: Option<&LexiconScope>, small: bool, defs: &Val) -> (r: bool)
    requires
        defs@ is List,
        defs@.elems().len() % 2 == 0,
        base matches Some(b) ==> b.wf() && b@.small == small,
    ensures
        r == defs_overflow(base_names(base), small, defs@.elems(), 0),
{
    let ghost ds = defs@.elems();
    let m = defs.len();
    let half = m / 2;
    let n0 = base_len(base);
    let mut added: Vec<u64> = Vec::new();
    let ghost mut dom = base_names(base);
    let mut k: usize = 0;
    while k < half
        invariant
            defs@ is List,
            ds == defs@.elems(),
            m == ds.len(),
            m % 2 == 0,
            half == m / 2,
            k <= half,
            dom.finite(),
            base_names(base).finite(),
            n0 == base_names(base).len(),
            forall|x: u64| #[trigger] dom.contains(x) <==> (base_names(base).contains(x) || added@.contains(x)),
            dom.len() == n0 + added@.len(),
            small ==> n0 + added@.len() <= SMALL_SCOPE_SIZE,
            defs_overflow(base_names(base), small, ds, 0) == defs_overflow(dom, small, ds, k as int),
        decreases half - k,
    {
        let key_v = defs.nth(2 * k);
        let code = defs.nth(2 * k + 1);
        if !(key_v.is_sym() && code.is_list()) {
            return false;
        }
        let key = key_v.sym().0;
        let present = scope_has(base, &added, key);
        assert(present == dom.contains(key));
        if small && !present && n0 + added.len() >= SMALL_SCOPE_SIZE {
            return true;
        }
        if !present {
            let ghost before = added@;
            added.push(key);
            proof {
                assert forall|x: u64| #[trigger] dom.insert(key).contains(x) <==> (base_names(base).contains(x) || added@.contains(x)) by {
                    if added@.contains(x) && x != key {
                        let j = choose|j: int| 0 <= j < added@.len() && added@[j] == x;
                        assert(before[j] == x);
                    }
                    if before.contains(x) {
                        let j = choose|j: int| 0 <= j < before.len() && before[j] == x;
                        assert(added@[j] == x);
                    }
                    assert(added@[before.len() as int] == key);
                }
            }
        } else {
            assert(dom.insert(key) =~= dom);
        }
        proof {
            dom = dom.insert(key);
        }
        k = k + 1;
    }
    false
}

/// Whether `locals` (when `is_locals`) or `define` would overflow a small
/// scope on this state.
fn scoped_would_panic(e: &Eval, is_locals: bool) -> (r: bool)
    requires
        e.wf(),
        e@.stack.len() >= 2,
    ensures
        r == scoped_panics(is_locals, e@),
{
    let ghost s = e@;
    let n = e.stack.len();
    let bs = &e.stack[n - 1];
    let v = &e.stack[n - 2];
    assert(bs@ == arg(s, 0) && v@ == arg(s, 1));
    let ready = bs.is_list() && v.is_list() && (if is_locals {
        bs.len() <= n - 2
    } else {
        bs.len() % 2 == 0
    });
    if !ready {
        return false;
    }
    assert(scoped_ready(is_locals, s));
    let tail = e.program.in_tail_position();
    let nl = e.lexicon.len();
    if tail && nl == 0 {
        return false;
    }
    let base: Option<&LexiconScope> = if tail {
        Some(&e.lexicon[nl - 1])
    } else {
        None
    };
    let small = if tail {
        e.lexicon[nl - 1].is_small()
    } else {
        bs.len() / 2 <= SMALL_SCOPE_SIZE
    };
    proof {
        reveal(build_scope);
        let sc = base_scope(s);
        assert(base_names(base) =~= sc.map.dom());
        assert(small == sc.small);
        if tail {
            assert(e.lexicon@[nl - 1].wf());
        }
    }
    if is_locals {
        let mut k: usize = 0;
        let m = bs.len();
        while k < m
            invariant
                is_locals,
                bs@ == arg(e@, 0),
                bs@ is List,
                m == bs@.elems().len(),
                k <= m,
                forall|j: int| 0 <= j < k ==> (#[trigger] bs@.elems()[j]) is Sym,
            decreases m - k,
        {
            if !bs.nth(k).is_sym() {
                proof {
                    reveal(build_scope);
                    assert(!all_syms(bs@.elems()));
                }
                return false;
            }
            k = k + 1;
        }
        proof {
            let rest = below(s, 2);
            lemma_locals_overflow(base_scope(s), bs@.elems(), rest.subrange(rest.len() - bs@.elems().len(), rest.len() as int), 0);
        }
        locals_would_overflow(base, small, bs)
    } else {
        proof {
            lemma_defs_overflow(base_scope(s), bs@.elems(), 0);
        }
        defs_would_overflow(base, small, bs)
    }
}

/// Whether computing the position of index `i0` in a list of length `n0`
/// overflows; see `index_overflows`.
fn index_would_overflow(i0: i64, n0: usize, allow_end: bool) -> (r: bool)
    ensures
        r == index_overflows(i0, n0 as nat, allow_end),
{
    let n = n0 as i64;
    if i0 < 0 && !(i0 == -1 && n == 0 && allow_end) {
        let sum = i0 as i128 + n as i128;
        sum < i64::MIN as i128 || sum > i64::MAX as i128
    } else {
        false
    }
}

/// The number of stack values that `op` takes.
fn arity_exec(op: Builtin) -> (r: usize)
    ensures
        r == arity(op),
{
    match op {
        Builtin::True | Builtin::False | Builtin::LeaveScope => 0,
        Builtin::Drop | Builtin::Dup | Builtin::Not | Builtin::Length | Builtin::Head
        | Builtin::Tail | Builtin::Init | Builtin::Last | Builtin::HeadTail
        | Builtin::LastInit | Builtin::Concat | Builtin::TypeOf | Builtin::IsInt
        | Builtin::IsSymbol | Builtin::IsKeyword | Builtin::IsList | Builtin::Quote
        | Builtin::Unquote => 1,
        Builtin::SetNth | Builtin::InsertBefore | Builtin::Slice | Builtin::Choose => 3,
        _ => 2,
    }
}

/// Whether running the builtin `op` on this state would panic: an integer
/// operation that overflows or divides by zero, an index whose position
/// overflows, or a small scope that overflows.
pub fn builtin_would_panic(e: &Eval, op: Builtin) -> (r: bool)
    requires
        e.wf(),
    ensures
        r == builtin_panics(op, e@),
{
    let ghost s = e@;
    let n = e.stack.len();
    if n < arity_exec(op) {
        return false;
    }
    match op {
        Builtin::Add | Builtin::Sub | Builtin::Mul | Builtin::Div | Builtin::Mod => {
            assert(e.stack@[n - 1]@ == arg(s, 0) && e.stack@[n - 2]@ == arg(s, 1));
            match (&e.stack[n - 1], &e.stack[n - 2]) {
                (Val::Int(l), Val::Int(r)) => {
                    let v = match op {
                        Builtin::Add => l.checked_add(*r),
                        Builtin::Sub => l.checked_sub(*r),
                        Builtin::Mul => l.checked_mul(*r),
                        Builtin::Div => l.checked_div(*r),
                        _ => l.checked_rem(*r),
                    };
                    v.is_none()
                },
                _ => false,
            }
        },
        Builtin::Nth | Builtin::RemoveNth | Builtin::SwapRemoveNth => {
            assert(e.stack@[n - 1]@ == arg(s, 0) && e.stack@[n - 2]@ == arg(s, 1));
            let x1 = &e.stack[n - 2];
            match &e.stack[n - 1] {
                Val::Int(i0) => x1.is_list() && index_would_overflow(*i0, x1.len(), false),
                _ => false,
            }
        },
        Builtin::SetNth | Builtin::InsertBefore => {
            assert(e.stack@[n - 1]@ == arg(s, 0) && e.stack@[n - 3]@ == arg(s, 2));
            let x2 = &e.stack[n - 3];
            match &e.stack[n - 1] {
                Val::Int(i0) => x2.is_list() && index_would_overflow(
                    *i0,
                    x2.len(),
                    match op {
                        Builtin::InsertBefore => true,
                        _ => false,
                    },
                ),
                _ => false,
            }
        },
        Builtin::Slice => {
            assert(e.stack@[n - 1]@ == arg(s, 0) && e.stack@[n - 2]@ == arg(s, 1) && e.stack@[n - 3]@ == arg(s, 2));
            let x2 = &e.stack[n - 3];
            match (&e.stack[n - 1], &e.stack[n - 2]) {
                (Val::Int(f), Val::Int(t)) => x2.is_list() && (index_would_overflow(*f, x2.len(), true)
                    || index_would_overflow(*t, x2.len(), true)),
                _ => false,
            }
        },
        Builtin::Locals => scoped_would_panic(e, true),
        Builtin::Define => scoped_would_panic(e, false),
        _ => false,
    }
}

/// Runs the builtin `op`.
pub fn call(e: &mut Eval, op: Builtin) -> (r: bool)
    requires
        old(e).wf(),
        !builtin_panics(op, old(e)@),
    ensures
        final(e).builtin_done(op, &*old(e), r),
{
    match op {
        Builtin::Drop => b_drop(e),
        Builtin::Dup => b_dup(e),
        Builtin::Swap => b_swap(e),
        Builtin::Add | Builtin::Sub | Builtin::Mul | Builtin::Div | Builtin::Mod => b_arith(e, op),
        Builtin::Eq => b_eq(e, false),
        Builtin::Neq => b_eq(e, true),
        Builtin::Lt | Builtin::Leq | Builtin::Gt | Builtin::Geq => b_cmp(e, op),
        Builtin::True => b_bool(e, true),
        Builtin::False => b_bool(e, false),
        Builtin::And => b_logic(e, true),
        Builtin::Or => b_logic(e, false),
        Builtin::Not => b_not(e),
        Builtin::Length => b_length(e),
        Builtin::Append => b_append(e),
        Builtin::PushBack => b_push(e, true),
        Builtin::PushFront => b_push(e, false),
        Builtin::Head | Builtin::Tail | Builtin::Init | Builtin::Last | Builtin::HeadTail
        | Builtin::LastInit => b_ends(e, op),
        Builtin::Nth | Builtin::RemoveNth | Builtin::SwapRemoveNth => b_index(e, op),
        Builtin::SetNth | Builtin::InsertBefore => b_index_put(e, op),
        Builtin::Concat => b_concat(e),
        Builtin::Slice => b_slice(e),
        Builtin::TypeOf => b_type_of(e),
        Builtin::IsInt | Builtin::IsSymbol | Builtin::IsKeyword | Builtin::IsList => b_type_pred(
            e,
            op,
        ),
        Builtin::Quote => b_quote(e),
        Builtin::Unquote => b_unquote(e),
        Builtin::Choose => b_choose(e),
        Builtin::LeaveScope => b_leave_scope(e),
        Builtin::Locals => {
            if e.stack.len() < 2 {
                return false;
            }
            b_scoped(e, true)
        },
        Builtin::Define => {
            if e.stack.len() < 2 {
                return false;
            }
            b_scoped(e, false)
        },
    }
}

} // verus!
