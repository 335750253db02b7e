//! The abstract machine that `Eval` implements: its state, one step, and a
//! bounded run, over the meanings of values.
use vstd::prelude::*;
use crate::val::{AVal, LEAVE_SCOPE_ID, INT_ID, LIST_ID, SYMBOL_ID, KEYWORD_ID};

verus! {

/// The operations that the evaluator provides under a name.
#[derive(Clone, Copy, Debug, PartialEq, Eq, Structural)]
pub enum Builtin {
    Drop,
    Dup,
    Swap,
    Add,
    Sub,
    Mul,
    Div,
    Mod,
    Eq,
    Neq,
    Lt,
    Leq,
    Gt,
    Geq,
    True,
    False,
    And,
    Or,
    Not,
    Length,
    Append,
    PushBack,
    PushFront,
    Head,
    Tail,
    Init,
    Last,
    HeadTail,
    LastInit,
    Nth,
    SetNth,
    InsertBefore,
    RemoveNth,
    SwapRemoveNth,
    Concat,
    Slice,
    TypeOf,
    IsInt,
    IsSymbol,
    IsKeyword,
    IsList,
    Quote,
    Unquote,
    Choose,
    LeaveScope,
    Locals,
    Define,
}

/// What a name is bound to in a scope: code to run, or a value to push.
pub enum ASlot {
    Quote(Seq<AVal>),
    Val(AVal),
}

/// A scope: its bindings, and whether it is a small scope, which holds at
/// most `SMALL_SCOPE_SIZE` names.
pub struct AScope {
    pub map: Map<u64, ASlot>,
    pub small: bool,
}

pub const SMALL_SCOPE_SIZE: usize = 16;

/// The state of the machine: the program still to run (its last value runs
/// next), the stack (its last value is the top), and the scopes (innermost
/// last).
pub struct AEval {
    pub program: Seq<AVal>,
    pub stack: Seq<AVal>,
    pub lexicon: Seq<AScope>,
}

pub open spec fn leave_scope_val() -> AVal {
    AVal::Sym(LEAVE_SCOPE_ID)
}

pub open spec fn bool_val(b: bool) -> AVal {
    AVal::Int(
        if b {
            1
        } else {
            0
        },
    )
}

/// The binding of `x` in the innermost scope that binds it.
pub open spec fn lookup(lex: Seq<AScope>, x: u64) -> Option<ASlot>
    decreases lex.len(),
{
    if lex.len() == 0 {
        None
    } else if lex.last().map.contains_key(x) {
        Some(lex.last().map[x])
    } else {
        lookup(lex.drop_last(), x)
    }
}

/// The `k`-th value from the top of the stack.
pub open spec fn arg(s: AEval, k: int) -> AVal {
    s.stack[s.stack.len() - 1 - k]
}

/// The stack without its top `n` values.
pub open spec fn below(s: AEval, n: int) -> Seq<AVal> {
    s.stack.subrange(0, s.stack.len() - n)
}

pub open spec fn with_stack(s: AEval, st: Seq<AVal>) -> AEval {
    AEval { stack: st, ..s }
}

/// Replaces the top `n` values with the values `out` (the last one on top).
pub open spec fn replace_top(s: AEval, n: int, out: Seq<AVal>) -> (AEval, bool) {
    (with_stack(s, below(s, n) + out), true)
}

pub open spec fn list(s: Seq<AVal>) -> AVal {
    AVal::List(s)
}

pub open spec fn all_lists(s: Seq<AVal>) -> bool {
    forall|k: int| 0 <= k < s.len() ==> (#[trigger] s[k]).is_list()
}

/// The elements of a list of lists, one list after the other.
pub open spec fn flatten(s: Seq<AVal>) -> Seq<AVal>
    decreases s.len(),
{
    if s.len() == 0 {
        Seq::empty()
    } else {
        s[0].elems() + flatten(s.drop_first())
    }
}

/// Where an index refers to in a list of length `n0`: counted from the front
/// when it is not negative, from the back when it is (`-1` is the last
/// element). With `allow_end`, the position just past the end is allowed,
/// and `-1` means 0 in an empty list.
pub open spec fn index_spec(i0: i64, n0: nat, allow_end: bool) -> Option<int> {
    let n = (n0 as i64) as int;
    let i = if i0 < 0 {
        if i0 == -1 && n == 0 && allow_end {
            0
        } else {
            i0 + n
        }
    } else {
        i0 as int
    };
    if i < 0 || (i >= n && !(allow_end && i == n)) {
        None
    } else {
        Some(i)
    }
}

/// Computing the position overflows `i64` (only for lists longer than
/// `i64::MAX`).
pub open spec fn index_overflows(i0: i64, n0: nat, allow_end: bool) -> bool {
    let n = (n0 as i64) as int;
    i0 < 0 && !(i0 == -1 && n == 0 && allow_end) && (i0 + n < i64::MIN || i0 + n > i64::MAX)
}

/// The list without its element at `i`, whose place the last element takes.
pub open spec fn swap_remove(s: Seq<AVal>, i: int) -> Seq<AVal> {
    if i == s.len() - 1 {
        s.drop_last()
    } else {
        s.update(i, s.last()).drop_last()
    }
}

pub open spec fn is_arith(op: Builtin) -> bool {
    op is Add || op is Sub || op is Mul || op is Div || op is Mod
}

/// The result of an arithmetic builtin, `None` where Rust's operator panics.
pub open spec fn arith(op: Builtin, l: i64, r: i64) -> Option<i64> {
    match op {
        Builtin::Add => l.checked_add(r),
        Builtin::Sub => l.checked_sub(r),
        Builtin::Mul => l.checked_mul(r),
        Builtin::Div => l.checked_div(r),
        _ => l.checked_rem(r),
    }
}

pub open spec fn compare(op: Builtin, l: i64, r: i64) -> bool {
    match op {
        Builtin::Lt => l < r,
        Builtin::Leq => l <= r,
        Builtin::Gt => l > r,
        _ => l >= r,
    }
}

pub open spec fn is_compare(op: Builtin) -> bool {
    op is Lt || op is Leq || op is Gt || op is Geq
}

/// The number of stack values that a builtin takes.
pub open spec fn arity(op: Builtin) -> int {
    match op {
        Builtin::True | Builtin::False | Builtin::LeaveScope => 0,
        Builtin::Drop | Builtin::Dup | Builtin::Not | Builtin::Length | Builtin::Head
        | Builtin::Tail | Builtin::Init | Builtin::Last | Builtin::HeadTail
        | Builtin::LastInit | Builtin::Concat | Builtin::TypeOf | Builtin::IsInt
        | Builtin::IsSymbol | Builtin::IsKeyword | Builtin::IsList | Builtin::Quote
        | Builtin::Unquote => 1,
        Builtin::SetNth | Builtin::InsertBefore | Builtin::Slice | Builtin::Choose => 3,
        _ => 2,
    }
}

/// The keyword that `type-of` gives for a value.
pub open spec fn type_kw(v: AVal) -> AVal {
    match v {
        AVal::Int(_) => AVal::Kw(INT_ID),
        AVal::Sym(_) => AVal::Kw(SYMBOL_ID),
        AVal::Kw(_) => AVal::Kw(KEYWORD_ID),
        AVal::List(_) => AVal::Kw(LIST_ID),
    }
}

/// The effect of a builtin whose arguments are on the stack, and whether it
/// succeeded. A builtin that fails leaves the state as it was. A list is
/// taken by its elements: a shared list that was narrowed gives the values
/// in its window, never the rest of the list it was cut from.
pub open spec fn builtin_spec(op: Builtin, s: AEval) -> (AEval, bool) {
    let fail = (s, false);
    if s.stack.len() < arity(op) {
        fail
    } else {
        let x0 = arg(s, 0);
        let x1 = arg(s, 1);
        let x2 = arg(s, 2);
        match op {
            Builtin::Drop => replace_top(s, 1, seq![]),
            Builtin::Dup => replace_top(s, 1, seq![x0, x0]),
            Builtin::Swap => replace_top(s, 2, seq![x0, x1]),
            Builtin::Add | Builtin::Sub | Builtin::Mul | Builtin::Div | Builtin::Mod => {
                match (x0, x1) {
                    (AVal::Int(l), AVal::Int(r)) => replace_top(
                        s,
                        2,
                        seq![AVal::Int(arith(op, l, r)->0)],
                    ),
                    _ => fail,
                }
            },
            Builtin::Eq => replace_top(s, 2, seq![bool_val(x0 == x1)]),
            Builtin::Neq => replace_top(s, 2, seq![bool_val(x0 != x1)]),
            Builtin::Lt | Builtin::Leq | Builtin::Gt | Builtin::Geq => {
                match (x0, x1) {
                    (AVal::Int(l), AVal::Int(r)) => replace_top(
                        s,
                        2,
                        seq![bool_val(compare(op, l, r))],
                    ),
                    _ => fail,
                }
            },
            Builtin::True => replace_top(s, 0, seq![bool_val(true)]),
            Builtin::False => replace_top(s, 0, seq![bool_val(false)]),
            Builtin::And => replace_top(
                s,
                2,
                seq![
                    if !x0.truthy() {
                        x0
                    } else {
                        x1
                    },
                ],
            ),
            Builtin::Or => replace_top(
                s,
                2,
                seq![
                    if x0.truthy() {
                        x0
                    } else {
                        x1
                    },
                ],
            ),
            Builtin::Not => replace_top(s, 1, seq![bool_val(!x0.truthy())]),
            Builtin::Length => if x0.is_list() {
                replace_top(s, 1, seq![AVal::Int(x0.elems().len() as i64)])
            } else {
                fail
            },
            Builtin::Append => if x0.is_list() && x1.is_list() {
                replace_top(s, 2, seq![list(x0.elems() + x1.elems())])
            } else {
                fail
            },
            Builtin::PushBack => if x1.is_list() {
                replace_top(s, 2, seq![list(x1.elems().push(x0))])
            } else {
                fail
            },
            Builtin::PushFront => if x1.is_list() {
                replace_top(s, 2, seq![list(seq![x0] + x1.elems())])
            } else {
                fail
            },
            Builtin::Head | Builtin::Tail | Builtin::Init | Builtin::Last | Builtin::HeadTail
            | Builtin::LastInit => if x0.is_list() && x0.elems().len() > 0 {
                let es = x0.elems();
                match op {
                    Builtin::Head => replace_top(s, 1, seq![es[0]]),
                    Builtin::Tail => replace_top(s, 1, seq![list(es.drop_first())]),
                    Builtin::Last => replace_top(s, 1, seq![es.last()]),
                    Builtin::Init => replace_top(s, 1, seq![list(es.drop_last())]),
                    Builtin::HeadTail => replace_top(s, 1, seq![list(es.drop_first()), es[0]]),
                    _ => replace_top(s, 1, seq![list(es.drop_last()), es.last()]),
                }
            } else {
                fail
            },
            Builtin::Nth | Builtin::RemoveNth | Builtin::SwapRemoveNth => {
                match (x0, x1) {
                    (AVal::Int(i0), AVal::List(es)) => match index_spec(i0, es.len(), false) {
                        Some(i) => match op {
                            Builtin::Nth => replace_top(s, 2, seq![es[i]]),
                            Builtin::RemoveNth => replace_top(s, 2, seq![list(es.remove(i))]),
                            _ => replace_top(s, 2, seq![list(swap_remove(es, i))]),
                        },
                        None => fail,
                    },
                    _ => fail,
                }
            },
            Builtin::SetNth | Builtin::InsertBefore => {
                match (x0, x2) {
                    (AVal::Int(i0), AVal::List(es)) => match index_spec(
                        i0,
                        es.len(),
                        op is InsertBefore,
                    ) {
                        Some(i) => if op is SetNth {
                            replace_top(s, 3, seq![list(es.update(i, x1))])
                        } else {
                            replace_top(s, 3, seq![list(es.insert(i, x1))])
                        },
                        None => fail,
                    },
                    _ => fail,
                }
            },
            Builtin::Concat => if x0.is_list() && all_lists(x0.elems()) {
                replace_top(s, 1, seq![list(flatten(x0.elems()))])
            } else {
                fail
            },
            Builtin::Slice => {
                match (x0, x1, x2) {
                    (AVal::Int(f), AVal::Int(t), AVal::List(es)) => {
                        match (index_spec(f, es.len(), true), index_spec(t, es.len(), true)) {
                            (Some(i), Some(j)) => if i > j || (i > 0 && es.len() == 0) {
                                fail
                            } else {
                                replace_top(s, 3, seq![list(es.subrange(i, j))])
                            },
                            _ => fail,
                        }
                    },
                    _ => fail,
                }
            },
            Builtin::TypeOf => replace_top(s, 1, seq![type_kw(x0)]),
            Builtin::IsInt => replace_top(s, 1, seq![bool_val(x0 is Int)]),
            Builtin::IsSymbol => replace_top(s, 1, seq![bool_val(x0 is Sym)]),
            Builtin::IsKeyword => replace_top(s, 1, seq![bool_val(x0 is Kw)]),
            Builtin::IsList => replace_top(s, 1, seq![bool_val(x0 is List)]),
            Builtin::Quote => replace_top(s, 1, seq![list(seq![x0])]),
            Builtin::Unquote => if x0.is_list() {
                (AEval { program: s.program + x0.elems(), stack: below(s, 1), ..s }, true)
            } else {
                fail
            },
            Builtin::Choose => if x0.is_list() && x1.is_list() {
                let code = if x2.truthy() {
                    x0.elems()
                } else {
                    x1.elems()
                };
                (AEval { program: s.program + code, stack: below(s, 3), ..s }, true)
            } else {
                fail
            },
            Builtin::LeaveScope => if s.lexicon.len() > 0 {
                (AEval { lexicon: s.lexicon.drop_last(), ..s }, true)
            } else {
                fail
            },
            Builtin::Locals | Builtin::Define => scoped_spec(op is Locals, s),
        }
    }
}

/// The builtin would panic: integer overflow or division by zero in
/// arithmetic, an index computation that overflows, or a small scope that
/// overflows.
pub open spec fn builtin_panics(op: Builtin, s: AEval) -> bool {
    s.stack.len() >= arity(op) && {
        let x0 = arg(s, 0);
        let x1 = arg(s, 1);
        let x2 = arg(s, 2);
        if is_arith(op) {
            x0 is Int && x1 is Int && arith(op, x0->Int_0, x1->Int_0) is None
        } else if op is Nth || op is RemoveNth || op is SwapRemoveNth {
            x0 is Int && x1 is List && index_overflows(x0->Int_0, x1.elems().len(), false)
        } else if op is SetNth || op is InsertBefore {
            x0 is Int && x2 is List && index_overflows(
                x0->Int_0,
                x2.elems().len(),
                op is InsertBefore,
            )
        } else if op is Slice {
            x0 is Int && x1 is Int && x2 is List && (index_overflows(
                x0->Int_0,
                x2.elems().len(),
                true,
            ) || index_overflows(x1->Int_0, x2.elems().len(), true))
        } else if op is Locals || op is Define {
            scoped_panics(op is Locals, s)
        } else {
            false
        }
    }
}

/// The outcome of filling a scope.
pub enum Build {
    Done(AScope),
    Fail,
    Panic,
}

/// A new scope for `max` names: small if `max` is at most `SMALL_SCOPE_SIZE`.
pub open spec fn new_scope(max: nat) -> AScope {
    AScope { map: Map::empty(), small: max <= SMALL_SCOPE_SIZE }
}

/// Binding `k` in a scope; `None` where a small scope is full.
pub open spec fn scope_insert(sc: AScope, k: u64, v: ASlot) -> Option<AScope> {
    if sc.small && !sc.map.contains_key(k) && sc.map.dom().len() >= SMALL_SCOPE_SIZE {
        None
    } else {
        Some(AScope { map: sc.map.insert(k, v), ..sc })
    }
}

/// Binds, for `i` from `k` on, the name `names[m - 1 - i]` to `vals[i]`.
pub open spec fn bind_locals(sc: AScope, names: Seq<AVal>, vals: Seq<AVal>, k: int) -> Build
    decreases names.len() - k,
{
    if k >= names.len() || k < 0 {
        Build::Done(sc)
    } else {
        match scope_insert(sc, names[names.len() - 1 - k]->Sym_0, ASlot::Val(vals[k])) {
            Some(sc2) => bind_locals(sc2, names, vals, k + 1),
            None => Build::Panic,
        }
    }
}

/// Binds the pairs `defs[2i] defs[2i+1]` for `i` from `k` on: a symbol and
/// the code that it stands for.
pub open spec fn bind_defs(sc: AScope, defs: Seq<AVal>, k: int) -> Build
    decreases defs.len() - 2 * k,
{
    if k < 0 || 2 * k + 1 >= defs.len() {
        Build::Done(sc)
    } else {
        let key = defs[2 * k];
        let code = defs[2 * k + 1];
        if !(key is Sym && code is List) {
            Build::Fail
        } else {
            match scope_insert(sc, key->Sym_0, ASlot::Quote(code.elems())) {
                Some(sc2) => bind_defs(sc2, defs, k + 1),
                None => Build::Panic,
            }
        }
    }
}

/// Whether `bind_locals` from `k` on overflows a scope whose names are `dom`:
/// the names that it adds, in order, against a small scope's limit.
pub open spec fn locals_overflow(dom: Set<u64>, small: bool, names: Seq<AVal>, k: int) -> bool
    decreases names.len() - k,
{
    if k >= names.len() || k < 0 {
        false
    } else {
        let key = names[names.len() - 1 - k]->Sym_0;
        if small && !dom.contains(key) && dom.len() >= SMALL_SCOPE_SIZE {
            true
        } else {
            locals_overflow(dom.insert(key), small, names, k + 1)
        }
    }
}

/// Whether `bind_defs` from pair `k` on overflows a scope whose names are
/// `dom`, before a pair that is not a symbol and a list stops it.
pub open spec fn defs_overflow(dom: Set<u64>, small: bool, defs: Seq<AVal>, k: int) -> bool
    decreases defs.len() - 2 * k,
{
    if k < 0 || 2 * k + 1 >= defs.len() {
        false
    } else {
        let key = defs[2 * k];
        let code = defs[2 * k + 1];
        if !(key is Sym && code is List) {
            false
        } else if small && !dom.contains(key->Sym_0) && dom.len() >= SMALL_SCOPE_SIZE {
            true
        } else {
            defs_overflow(dom.insert(key->Sym_0), small, defs, k + 1)
        }
    }
}

/// `bind_locals` overflows exactly where `locals_overflow` says: whether a
/// scope overflows depends on its names only, not on what they are bound to.
pub proof fn lemma_locals_overflow(sc: AScope, names: Seq<AVal>, vals: Seq<AVal>, k: int)
    ensures
        (bind_locals(sc, names, vals, k) is Panic) == locals_overflow(sc.map.dom(), sc.small, names, k),
    decreases names.len() - k,
{
    if !(k >= names.len() || k < 0) {
        let key = names[names.len() - 1 - k]->Sym_0;
        match scope_insert(sc, key, ASlot::Val(vals[k])) {
            Some(sc2) => {
                assert(sc2.map.dom() =~= sc.map.dom().insert(key));
                lemma_locals_overflow(sc2, names, vals, k + 1);
            },
            None => {},
        }
    }
}

/// `bind_defs` overflows exactly where `defs_overflow` says.
pub proof fn lemma_defs_overflow(sc: AScope, defs: Seq<AVal>, k: int)
    ensures
        (bind_defs(sc, defs, k) is Panic) == defs_overflow(sc.map.dom(), sc.small, defs, k),
    decreases defs.len() - 2 * k,
{
    if !(k < 0 || 2 * k + 1 >= defs.len()) {
        let key = defs[2 * k];
        let code = defs[2 * k + 1];
        if key is Sym && code is List {
            match scope_insert(sc, key->Sym_0, ASlot::Quote(code.elems())) {
                Some(sc2) => {
                    assert(sc2.map.dom() =~= sc.map.dom().insert(key->Sym_0));
                    lemma_defs_overflow(sc2, defs, k + 1);
                },
                None => {},
            }
        }
    }
}

/// The names of `locals` are all symbols.
pub open spec fn all_syms(s: Seq<AVal>) -> bool {
    forall|k: int| 0 <= k < s.len() ==> (#[trigger] s[k]) is Sym
}

pub open spec fn in_tail_position(program: Seq<AVal>) -> bool {
    program.len() > 0 && program.last() == leave_scope_val()
}

/// What `locals` (when `is_locals`) or `define` need before they build a
/// scope: two lists on the stack, and enough values for `locals` or an even
/// number of values for `define`.
pub open spec fn scoped_ready(is_locals: bool, s: AEval) -> bool {
    let bs = arg(s, 0);
    let v = arg(s, 1);
    &&& s.stack.len() >= 2
    &&& bs.is_list()
    &&& v.is_list()
    &&& if is_locals {
        bs.elems().len() <= s.stack.len() - 2
    } else {
        bs.elems().len() % 2 == 0
    }
}

/// The scope that `locals` or `define` fill: the innermost one in tail
/// position, a new one otherwise.
pub open spec fn base_scope(s: AEval) -> AScope {
    if in_tail_position(s.program) {
        s.lexicon.last()
    } else {
        new_scope(arg(s, 0).elems().len() / 2)
    }
}

#[verifier::opaque]
pub open spec fn build_scope(is_locals: bool, s: AEval) -> Build {
    let bs = arg(s, 0).elems();
    let rest = below(s, 2);
    if is_locals {
        if !all_syms(bs) {
            Build::Fail
        } else {
            bind_locals(base_scope(s), bs, rest.subrange(rest.len() - bs.len(), rest.len() as int), 0)
        }
    } else {
        bind_defs(base_scope(s), bs, 0)
    }
}

/// `locals {names} {code}` binds the names to the values under the two
/// lists (the first name to the top value) and runs the code in the new
/// scope; `define {name code ...} {body}` binds each name to its code. In
/// tail position the innermost scope is reused instead of nesting a new one.
pub open spec fn scoped_spec(is_locals: bool, s: AEval) -> (AEval, bool) {
    let tail = in_tail_position(s.program);
    if !scoped_ready(is_locals, s) || (tail && s.lexicon.len() == 0) {
        (s, false)
    } else {
        let bs = arg(s, 0).elems();
        let v = arg(s, 1);
        let rest = below(s, 2);
        let lex0 = if tail {
            s.lexicon.drop_last()
        } else {
            s.lexicon
        };
        match build_scope(is_locals, s) {
            Build::Done(sc) => {
                let stack = if is_locals {
                    rest.subrange(0, rest.len() - bs.len())
                } else {
                    rest
                };
                let program = if tail {
                    s.program
                } else {
                    s.program.push(leave_scope_val())
                };
                (AEval { program: program + v.elems(), stack, lexicon: lex0.push(sc) }, true)
            },
            _ => (AEval { lexicon: lex0, ..s }, false),
        }
    }
}

pub open spec fn scoped_panics(is_locals: bool, s: AEval) -> bool {
    scoped_ready(is_locals, s) && !(in_tail_position(s.program) && s.lexicon.len() == 0)
        && build_scope(is_locals, s) is Panic
}

/// Runs a symbol: the code or value bound to it in the innermost scope that
/// binds it, or else the builtin of that name.
pub open spec fn eval_sym_spec(s: AEval, builtins: Map<u64, Builtin>, x: u64) -> (AEval, bool) {
    match lookup(s.lexicon, x) {
        Some(ASlot::Quote(code)) => (AEval { program: s.program + code, ..s }, true),
        Some(ASlot::Val(v)) => (AEval { stack: s.stack.push(v), ..s }, true),
        None => if builtins.contains_key(x) {
            builtin_spec(builtins[x], s)
        } else {
            (s, false)
        },
    }
}

/// One step: the last value of the program is taken off; a symbol is run, any
/// other value is pushed. A symbol that fails goes back onto the program.
pub open spec fn step_spec(s: AEval, builtins: Map<u64, Builtin>) -> (AEval, bool) {
    if s.program.len() == 0 {
        (s, false)
    } else {
        let head = s.program.last();
        let s1 = AEval { program: s.program.drop_last(), ..s };
        match head {
            AVal::Sym(x) => {
                let (s2, ok) = eval_sym_spec(s1, builtins, x);
                if ok {
                    (s2, true)
                } else {
                    (AEval { program: s2.program.push(head), ..s2 }, false)
                }
            },
            _ => (AEval { stack: s1.stack.push(head), ..s1 }, true),
        }
    }
}

/// The next step would panic.
pub open spec fn step_panics(s: AEval, builtins: Map<u64, Builtin>) -> bool {
    s.program.len() > 0 && s.program.last() is Sym && {
        let x = s.program.last()->Sym_0;
        let s1 = AEval { program: s.program.drop_last(), ..s };
        lookup(s1.lexicon, x) is None && builtins.contains_key(x) && builtin_panics(
            builtins[x],
            s1,
        )
    }
}

/// The state after running until a step fails or `fuel` steps have
/// succeeded.
pub open spec fn run(s: AEval, builtins: Map<u64, Builtin>, fuel: nat) -> AEval
    decreases fuel,
{
    if fuel == 0 {
        s
    } else {
        let (s2, ok) = step_spec(s, builtins);
        if ok {
            run(s2, builtins, (fuel - 1) as nat)
        } else {
            s2
        }
    }
}

/// No step of such a run panics.
pub open spec fn run_safe(s: AEval, builtins: Map<u64, Builtin>, fuel: nat) -> bool
    decreases fuel,
{
    fuel == 0 || (!step_panics(s, builtins) && {
        let (s2, ok) = step_spec(s, builtins);
        ok ==> run_safe(s2, builtins, (fuel - 1) as nat)
    })
}

} // verus!
