use vstd::prelude::*;
use crate::val::{AVal, interned};
use crate::machine::{
    AEval, AScope, ASlot, Builtin, builtin_spec, scoped_spec, step_spec, eval_sym_spec, lookup, run, arg,
    in_tail_position, leave_scope_val, below, bind_locals, bind_defs, build_scope, scope_insert, Build,
    all_syms,
};
use crate::eval::{initial_state, table_with_builtins};
use crate::builtins::{entry, entry_names, sym_of, builtins_for, reg_map, lemma_index_of_unique, NUM_BUILTINS};
use crate::parser::{
    intern_all, lemma_intern_all_prefix, parse_seq, spec_parse, token_end, atom_value, spec_is_whitespace,
    is_delim, lemma_token_end, lemma_parse_seq_pos,
};
use crate::analysis::{
    AVirtual, AInfo, AError, StackParam, TypeInfo, analyze_spec, sym_effect, suffix_agrees,
    last_n, shorter, info_for, info_map, info_entry, apply_usage, usage_accepts, evaluates_code, fresh,
    int_param, NUM_INFO,
};

verus! {

/// A builtin that fails leaves the program and the stack as they were. Only
/// `locals` and `define` can change anything then: in tail position they
/// drop the innermost scope, which they were about to reuse.
proof fn lemma_builtin_fail(op: Builtin, s: AEval)
    ensures
        !builtin_spec(op, s).1 ==> {
            let s2 = builtin_spec(op, s).0;
            &&& s2.program == s.program
            &&& s2.stack == s.stack
            &&& (s2.lexicon == s.lexicon || s2.lexicon == s.lexicon.drop_last())
        },
{
    if op is Locals || op is Define {
        let is_locals = op is Locals;
        if !scoped_spec(is_locals, s).1 {
            assert(scoped_spec(is_locals, s).0.program == s.program);
        }
    }
}

/// A step that fails leaves the program and the stack as they were, with the
/// symbol that failed back on the program; the scopes stay as they were,
/// except that `locals` or `define` failing in tail position drop the
/// innermost one.
pub proof fn law_failed_step_keeps_state(s: AEval, builtins: Map<u64, Builtin>)
    ensures
        !step_spec(s, builtins).1 ==> {
            let s2 = step_spec(s, builtins).0;
            &&& s2.program == s.program
            &&& s2.stack == s.stack
            &&& (s2.lexicon == s.lexicon || s2.lexicon == s.lexicon.drop_last())
        },
{
    if s.program.len() > 0 {
        let head = s.program.last();
        let s1 = AEval { program: s.program.drop_last(), ..s };
        assert(s1.program.push(head) =~= s.program);
        if let AVal::Sym(x) = head {
            if lookup(s1.lexicon, x) is None && builtins.contains_key(x) {
                lemma_builtin_fail(builtins[x], s1);
            }
            let (s2, ok) = eval_sym_spec(s1, builtins, x);
            if !ok {
                assert(s2.program == s1.program);
            }
        }
    }
}

/// No value of the program is a symbol.
pub open spec fn no_syms(p: Seq<AVal>) -> bool {
    forall|k: int| 0 <= k < p.len() ==> !(#[trigger] p[k] is Sym)
}

/// A program without symbols pushes its values one by one, its last value
/// first: given as many steps as it has values, it runs to the end and leaves
/// them on the stack with its first value on top, the scopes untouched.
pub proof fn law_constants_push_themselves(
    p: Seq<AVal>,
    st: Seq<AVal>,
    lex: Seq<AScope>,
    builtins: Map<u64, Builtin>,
    fuel: nat,
)
    requires
        no_syms(p),
        fuel >= p.len(),
    ensures
        run(AEval { program: p, stack: st, lexicon: lex }, builtins, fuel) == (AEval {
            program: Seq::empty(),
            stack: st + p.reverse(),
            lexicon: lex,
        }),
    decreases p.len(),
{
    let s = AEval { program: p, stack: st, lexicon: lex };
    if p.len() == 0 {
        assert(st + p.reverse() =~= st);
        assert(p =~= Seq::<AVal>::empty());
    } else {
        let head = p.last();
        assert(!(p[p.len() - 1] is Sym));
        let s2 = AEval { program: p.drop_last(), stack: st.push(head), lexicon: lex };
        assert(step_spec(s, builtins) == (s2, true));
        assert forall|k: int| 0 <= k < p.drop_last().len() implies !(#[trigger] p.drop_last()[k] is Sym) by {
            assert(p.drop_last()[k] == p[k]);
        }
        law_constants_push_themselves(p.drop_last(), st.push(head), lex, builtins, (fuel - 1) as nat);
        assert(st.push(head) + p.drop_last().reverse() =~= st + p.reverse());
    }
}

/// So a program of constants evaluates to itself: the final stack, read from
/// the top, is the program.
pub proof fn law_constants_evaluate_to_themselves(p: Seq<AVal>, builtins: Map<u64, Builtin>, fuel: nat)
    requires
        no_syms(p),
        fuel >= p.len(),
    ensures
        run(initial_state(p), builtins, fuel).program.len() == 0,
        run(initial_state(p), builtins, fuel).stack.reverse() == p,
{
    law_constants_push_themselves(p, Seq::empty(), Seq::empty(), builtins, fuel);
    assert((Seq::<AVal>::empty() + p.reverse()).reverse() =~= p);
}

/// Putting a value back onto a program (`Continuation::undo`) and taking the
/// next value (`Continuation::step`) gives back that value and the program
/// as it was.
pub proof fn law_step_after_undo(p: Seq<AVal>, v: AVal)
    ensures
        p.push(v).len() > 0,
        p.push(v).last() == v,
        p.push(v).drop_last() == p,
{
    assert(p.push(v).drop_last() =~= p);
}

/// Interning a string keeps the strings already interned where they were, so
/// every symbol handed out keeps naming the same string; the string is then
/// interned, no string is interned twice, and interning it again changes
/// nothing.
pub proof fn law_intern_idempotent(t: Seq<Seq<char>>, x: Seq<char>)
    requires
        forall|i: int, j: int| 0 <= i < j < t.len() ==> t[i] != t[j],
    ensures
        interned(t, x).contains(x),
        forall|k: int| 0 <= k < t.len() ==> #[trigger] interned(t, x)[k] == t[k],
        forall|i: int, j: int| 0 <= i < j < interned(t, x).len() ==> interned(t, x)[i] != interned(t, x)[j],
        interned(interned(t, x), x) == interned(t, x),
{
    let t1 = interned(t, x);
    if !t.contains(x) {
        assert(t1[t.len() as int] == x);
        assert forall|i: int, j: int| 0 <= i < j < t1.len() implies t1[i] != t1[j] by {
            if j == t.len() {
                assert(t1[i] == t[i]);
                if t[i] == x {
                    assert(t.contains(x));
                }
            }
        }
    }
    assert(t1.contains(x));
}

/// `locals` and `define` reuse the innermost scope in tail position, so a
/// chain of tail calls runs in a fixed number of scopes: when one succeeds
/// there, the number of scopes stays the same and the code runs with no
/// `%{leave-scope}` added; elsewhere it adds one scope and one
/// `%{leave-scope}` under the code.
pub proof fn law_tail_scope_reuse(is_locals: bool, s: AEval)
    ensures
        scoped_spec(is_locals, s).1 ==> {
            let s2 = scoped_spec(is_locals, s).0;
            if in_tail_position(s.program) {
                &&& s2.lexicon.len() == s.lexicon.len()
                &&& s2.program == s.program + arg(s, 1).elems()
            } else {
                &&& s2.lexicon.len() == s.lexicon.len() + 1
                &&& s2.program == s.program.push(leave_scope_val()) + arg(s, 1).elems()
            }
        },
{
}

/// Stack effects agree symmetrically: `a.matches(&b) == b.matches(&a)`.
pub proof fn law_matches_symmetric(a: Seq<StackParam>, b: Seq<StackParam>)
    ensures
        suffix_agrees(a, b) == suffix_agrees(b, a),
{
    let n = shorter(a.len(), b.len());
    assert(n == shorter(b.len(), a.len()));
    if suffix_agrees(a, b) {
        assert forall|k: int| 0 <= k < n implies #[trigger] last_n(b, n)[k].agrees(last_n(a, n)[k]) by {
            assert(last_n(a, n)[k].agrees(last_n(b, n)[k]));
        }
    }
    if suffix_agrees(b, a) {
        assert forall|k: int| 0 <= k < n implies #[trigger] last_n(a, n)[k].agrees(last_n(b, n)[k]) by {
            assert(last_n(b, n)[k].agrees(last_n(a, n)[k]));
        }
    }
}

/// Every stack effect matches itself exactly, and an effect of slots of any
/// type matches exactly every effect that takes and leaves as many values.
pub proof fn law_matches_reflexive(a: Seq<StackParam>, n: nat)
    ensures
        suffix_agrees(a, a),
        n == a.len() ==> suffix_agrees(Seq::new(n, |k: int| StackParam::Any), a),
{
    let anys = Seq::new(n, |k: int| StackParam::Any);
    if n == a.len() {
        assert(shorter(anys.len(), a.len()) == n);
        assert forall|k: int| 0 <= k < n implies #[trigger] last_n(anys, n as int)[k].agrees(last_n(a, n as int)[k]) by {
            assert(last_n(anys, n as int)[k] == StackParam::Any);
        }
    }
}

/// The analysed stack of a program of constants: the values, the last one
/// pushed first.
pub open spec fn pushed_constants(p: Seq<AVal>) -> Seq<AVirtual> {
    p.reverse().map_values(|v: AVal| AVirtual::Concrete(v))
}

/// The analysis of a program without symbols pushes its values as constants,
/// in the order in which running it pushes them, and uses no inlining.
pub proof fn law_analysis_of_constants(t: Seq<Seq<char>>, p: Seq<AVal>, st: Seq<AVirtual>, fuel: nat)
    requires
        no_syms(p),
    ensures
        analyze_spec(t, p, st, fuel) == Ok::<(Seq<AVirtual>, nat), crate::analysis::AError>((st + pushed_constants(p), fuel)),
    decreases p.len(),
{
    if p.len() == 0 {
        assert(st + pushed_constants(p) =~= st);
    } else {
        let head = p.last();
        assert(!(p[p.len() - 1] is Sym));
        assert forall|k: int| 0 <= k < p.drop_last().len() implies !(#[trigger] p.drop_last()[k] is Sym) by {
            assert(p.drop_last()[k] == p[k]);
        }
        law_analysis_of_constants(t, p.drop_last(), st.push(AVirtual::Concrete(head)), fuel);
        assert(st.push(AVirtual::Concrete(head)) + pushed_constants(p.drop_last()) =~= st + pushed_constants(p));
    }
}

/// What the analysis says of a value holds of the value the run has: a
/// constant is that value, and a slot's type is the value's type.
pub open spec fn describes(vv: AVirtual, v: AVal) -> bool {
    match vv {
        AVirtual::Concrete(c) => c == v,
        AVirtual::Virtual(p) => p.accepts_virtual(AVirtual::Concrete(v)),
    }
}

/// The analysed stack describes the run's stack, value by value.
pub open spec fn describes_all(vst: Seq<AVirtual>, st: Seq<AVal>) -> bool {
    &&& vst.len() == st.len()
    &&& forall|k: int| 0 <= k < st.len() ==> describes(#[trigger] vst[k], st[k])
}

/// The stack effect that the analysis table declares for a builtin, for the
/// builtins that have one as the evaluator runs them: every word of the table
/// but `locals` and `unquote` (whose effect is that of their code).
pub open spec fn declared_effect(op: Builtin) -> Option<AInfo> {
    let a = StackParam::Any;
    let n = int_param();
    match op {
        Builtin::Drop => Some(info_entry(0).1),
        Builtin::Dup => Some(info_entry(1).1),
        Builtin::Swap => Some(info_entry(2).1),
        Builtin::Add | Builtin::Sub | Builtin::Mul | Builtin::Div | Builtin::Mod => Some(fresh(seq![n, n], seq![n])),
        Builtin::Eq | Builtin::Neq => Some(fresh(seq![a, a], seq![n])),
        Builtin::Lt | Builtin::Leq | Builtin::Gt | Builtin::Geq => Some(fresh(seq![n, n], seq![n])),
        Builtin::True | Builtin::False => Some(fresh(seq![], seq![n])),
        Builtin::And | Builtin::Or => Some(fresh(seq![a, a], seq![a])),
        Builtin::Not => Some(fresh(seq![a], seq![n])),
        Builtin::LeaveScope => Some(fresh(seq![], seq![])),
        _ => None,
    }
}

/// A builtin with a declared effect, run where no scope is open on a stack
/// that the analysed stack describes and whose top fills the declared
/// inputs, leaves what the analysis says, when it succeeds.
proof fn lemma_declared_effect_sound(op: Builtin, s: AEval, vst: Seq<AVirtual>)
    requires
        declared_effect(op) is Some,
        s.lexicon.len() == 0,
        describes_all(vst, s.stack),
        usage_accepts(declared_effect(op)->0.ins, vst),
        builtin_spec(op, s).1,
    ensures
        builtin_spec(op, s).0.program == s.program,
        builtin_spec(op, s).0.lexicon == s.lexicon,
        describes_all(apply_usage(vst, declared_effect(op)->0), builtin_spec(op, s).0.stack),
{
    let e = declared_effect(op)->0;
    let s2 = builtin_spec(op, s).0;
    let len = s.stack.len() as int;
    let base = len - e.ins.len();
    let out = apply_usage(vst, e);
    assert(out.subrange(0, base) =~= vst.subrange(0, base));
    if op is LeaveScope {
        assert(false);
    }
    assert(s2.stack.subrange(0, base) =~= s.stack.subrange(0, base));
    assert(out.len() == s2.stack.len());
    assert forall|k: int| 0 <= k < s2.stack.len() implies describes(#[trigger] out[k], s2.stack[k]) by {
        if k < base {
            assert(out[k] == out.subrange(0, base)[k]);
            assert(s2.stack[k] == s2.stack.subrange(0, base)[k]);
        } else {
            let j = k - base;
            if e.fwd[j] is Some {
                let i = e.fwd[j]->0;
                assert(out[k] == vst[base + i]);
            } else {
                assert(out[k] == AVirtual::Virtual(e.outs[j]));
            }
        }
    }
}

/// Each symbol of the program that the analysis knows names a builtin with
/// the effect that the analysis declares for it.
pub open spec fn words_as_declared(t: Seq<Seq<char>>, p: Seq<AVal>, builtins: Map<u64, Builtin>) -> bool {
    forall|k: int|
        0 <= k < p.len() && (#[trigger] p[k]) is Sym && info_for(t).contains_key(p[k]->Sym_0)
            ==> builtins.contains_key(p[k]->Sym_0) && declared_effect(builtins[p[k]->Sym_0]) == Some(
            info_for(t)[p[k]->Sym_0],
        )
}

proof fn lemma_analysis_describes(
    t: Seq<Seq<char>>,
    q: Seq<AVal>,
    st: Seq<AVal>,
    vst: Seq<AVirtual>,
    f: nat,
    builtins: Map<u64, Builtin>,
    n: nat,
)
    requires
        words_as_declared(t, q, builtins),
        describes_all(vst, st),
        analyze_spec(t, q, vst, f) is Ok,
        run(AEval { program: q, stack: st, lexicon: Seq::empty() }, builtins, n).program.len() == 0,
    ensures
        describes_all(
            analyze_spec(t, q, vst, f)->Ok_0.0,
            run(AEval { program: q, stack: st, lexicon: Seq::empty() }, builtins, n).stack,
        ),
    decreases q.len(),
{
    let s = AEval { program: q, stack: st, lexicon: Seq::empty() };
    if q.len() == 0 {
        if n > 0 {
            assert(step_spec(s, builtins) == (s, false));
        }
    } else {
        let head = q.last();
        let rest = q.drop_last();
        let s1 = AEval { program: rest, ..s };
        assert(s1.program.push(head) =~= q);
        if n == 0 {
            assert(run(s, builtins, n) == s);
        }
        assert(words_as_declared(t, rest, builtins)) by {
            assert forall|k: int|
                0 <= k < rest.len() && (#[trigger] rest[k]) is Sym && info_for(t).contains_key(rest[k]->Sym_0)
                implies builtins.contains_key(rest[k]->Sym_0) && declared_effect(builtins[rest[k]->Sym_0])
                == Some(info_for(t)[rest[k]->Sym_0]) by {
                assert(rest[k] == q[k]);
            }
        }
        match head {
            AVal::Sym(x) => {
                assert(q[q.len() - 1] == head);
                let m = info_for(t);
                let stepped = sym_effect(t, x, vst, f);
                assert(stepped is Ok);
                assert(m.contains_key(x));
                let op = builtins[x];
                let e = m[x];
                assert(declared_effect(op) == Some(e));
                assert(!evaluates_code(e)) by {
                    if evaluates_code(e) {
                        assert(e.outs[0] == StackParam::Typed(TypeInfo::Eval(0)));
                    }
                }
                assert(stepped == Ok::<(Seq<AVirtual>, nat), AError>((apply_usage(vst, e), f)));
                assert(lookup(s1.lexicon, x) is None);
                let (s2, ok) = builtin_spec(op, s1);
                law_failed_step_keeps_state(s, builtins);
                if ok {
                    lemma_declared_effect_sound(op, s1, vst);
                    assert(s2 == AEval { program: rest, stack: s2.stack, lexicon: Seq::<AScope>::empty() });
                    assert(step_spec(s, builtins) == (s2, true));
                    lemma_analysis_describes(t, rest, s2.stack, apply_usage(vst, e), f, builtins, (n - 1) as nat);
                } else {
                    assert(!step_spec(s, builtins).1);
                }
            },
            _ => {
                let s2 = AEval { program: rest, stack: st.push(head), lexicon: Seq::empty() };
                assert(step_spec(s, builtins) == (s2, true));
                let vst2 = vst.push(AVirtual::Concrete(head));
                assert(describes_all(vst2, st.push(head))) by {
                    assert forall|k: int| 0 <= k < st.push(head).len() implies describes(#[trigger] vst2[k], st.push(head)[k]) by {
                        if k < st.len() {
                            assert(vst2[k] == vst[k]);
                        }
                    }
                }
                lemma_analysis_describes(t, rest, st.push(head), vst2, f, builtins, (n - 1) as nat);
            },
        }
    }
}

/// The analysis describes what a run of the program leaves. When the
/// analysis accepts the program, the program's words run as the analysis
/// table declares them, and the run gets to the end, the final stack holds
/// as many values as the analysed stack, each as the analysis says: the
/// constant it knows, or a value of its slot's type.
pub proof fn law_analysis_describes_run(t: Seq<Seq<char>>, p: Seq<AVal>, builtins: Map<u64, Builtin>, fuel: nat, n: nat)
    requires
        words_as_declared(t, p, builtins),
        analyze_spec(t, p, Seq::empty(), fuel) is Ok,
        run(initial_state(p), builtins, n).program.len() == 0,
    ensures
        describes_all(analyze_spec(t, p, Seq::empty(), fuel)->Ok_0.0, run(initial_state(p), builtins, n).stack),
{
    lemma_analysis_describes(t, p, Seq::empty(), Seq::empty(), fuel, builtins, n);
}

/// The length, first and last character of each builtin's name; no two
/// names agree on all three.
pub(crate) proof fn lemma_builtin_name_shapes()
    ensures
        "drop"@.len() == 4,
        "drop"@[0] == 'd',
        "drop"@[3] == 'p',
        "dup"@.len() == 3,
        "dup"@[0] == 'd',
        "dup"@[2] == 'p',
        "swap"@.len() == 4,
        "swap"@[0] == 's',
        "swap"@[3] == 'p',
        "+"@.len() == 1,
        "+"@[0] == '+',
        "-"@.len() == 1,
        "-"@[0] == '-',
        "*"@.len() == 1,
        "*"@[0] == '*',
        "/"@.len() == 1,
        "/"@[0] == '/',
        "%"@.len() == 1,
        "%"@[0] == '%',
        "="@.len() == 1,
        "="@[0] == '=',
        "<>"@.len() == 2,
        "<>"@[0] == '<',
        "<>"@[1] == '>',
        "<"@.len() == 1,
        "<"@[0] == '<',
        "<="@.len() == 2,
        "<="@[0] == '<',
        "<="@[1] == '=',
        ">"@.len() == 1,
        ">"@[0] == '>',
        ">="@.len() == 2,
        ">="@[0] == '>',
        ">="@[1] == '=',
        "true"@.len() == 4,
        "true"@[0] == 't',
        "true"@[3] == 'e',
        "false"@.len() == 5,
        "false"@[0] == 'f',
        "false"@[4] == 'e',
        "&&"@.len() == 2,
        "&&"@[0] == '&',
        "&&"@[1] == '&',
        "||"@.len() == 2,
        "||"@[0] == '|',
        "||"@[1] == '|',
        "not"@.len() == 3,
        "not"@[0] == 'n',
        "not"@[2] == 't',
        "length"@.len() == 6,
        "length"@[0] == 'l',
        "length"@[5] == 'h',
        "append"@.len() == 6,
        "append"@[0] == 'a',
        "append"@[5] == 'd',
        "push-back"@.len() == 9,
        "push-back"@[0] == 'p',
        "push-back"@[8] == 'k',
        "push-front"@.len() == 10,
        "push-front"@[0] == 'p',
        "push-front"@[9] == 't',
        "head"@.len() == 4,
        "head"@[0] == 'h',
        "head"@[3] == 'd',
        "tail"@.len() == 4,
        "tail"@[0] == 't',
        "tail"@[3] == 'l',
        "init"@.len() == 4,
        "init"@[0] == 'i',
        "init"@[3] == 't',
        "last"@.len() == 4,
        "last"@[0] == 'l',
        "last"@[3] == 't',
        "head-tail"@.len() == 9,
        "head-tail"@[0] == 'h',
        "head-tail"@[8] == 'l',
        "last-init"@.len() == 9,
        "last-init"@[0] == 'l',
        "last-init"@[8] == 't',
        "nth"@.len() == 3,
        "nth"@[0] == 'n',
        "nth"@[2] == 'h',
        "set-nth"@.len() == 7,
        "set-nth"@[0] == 's',
        "set-nth"@[6] == 'h',
        "insert-before"@.len() == 13,
        "insert-before"@[0] == 'i',
        "insert-before"@[12] == 'e',
        "remove-nth"@.len() == 10,
        "remove-nth"@[0] == 'r',
        "remove-nth"@[9] == 'h',
        "swap-remove-nth"@.len() == 15,
        "swap-remove-nth"@[0] == 's',
        "swap-remove-nth"@[14] == 'h',
        "concat"@.len() == 6,
        "concat"@[0] == 'c',
        "concat"@[5] == 't',
        "slice"@.len() == 5,
        "slice"@[0] == 's',
        "slice"@[4] == 'e',
        "type-of"@.len() == 7,
        "type-of"@[0] == 't',
        "type-of"@[6] == 'f',
        "int?"@.len() == 4,
        "int?"@[0] == 'i',
        "int?"@[3] == '?',
        "symbol?"@.len() == 7,
        "symbol?"@[0] == 's',
        "symbol?"@[6] == '?',
        "keyword?"@.len() == 8,
        "keyword?"@[0] == 'k',
        "keyword?"@[7] == '?',
        "list?"@.len() == 5,
        "list?"@[0] == 'l',
        "list?"@[4] == '?',
        "quote"@.len() == 5,
        "quote"@[0] == 'q',
        "quote"@[4] == 'e',
        "unquote"@.len() == 7,
        "unquote"@[0] == 'u',
        "unquote"@[6] == 'e',
        "choose"@.len() == 6,
        "choose"@[0] == 'c',
        "choose"@[5] == 'e',
        "%{leave-scope}"@.len() == 14,
        "%{leave-scope}"@[0] == '%',
        "%{leave-scope}"@[13] == '}',
        "locals"@.len() == 6,
        "locals"@[0] == 'l',
        "locals"@[5] == 's',
        "define"@.len() == 6,
        "define"@[0] == 'd',
        "define"@[5] == 'e',
{
    reveal_strlit("drop");
    reveal_strlit("dup");
    reveal_strlit("swap");
    reveal_strlit("+");
    reveal_strlit("-");
    reveal_strlit("*");
    reveal_strlit("/");
    reveal_strlit("%");
    reveal_strlit("=");
    reveal_strlit("<>");
    reveal_strlit("<");
    reveal_strlit("<=");
    reveal_strlit(">");
    reveal_strlit(">=");
    reveal_strlit("true");
    reveal_strlit("false");
    reveal_strlit("&&");
    reveal_strlit("||");
    reveal_strlit("not");
    reveal_strlit("length");
    reveal_strlit("append");
    reveal_strlit("push-back");
    reveal_strlit("push-front");
    reveal_strlit("head");
    reveal_strlit("tail");
    reveal_strlit("init");
    reveal_strlit("last");
    reveal_strlit("head-tail");
    reveal_strlit("last-init");
    reveal_strlit("nth");
    reveal_strlit("set-nth");
    reveal_strlit("insert-before");
    reveal_strlit("remove-nth");
    reveal_strlit("swap-remove-nth");
    reveal_strlit("concat");
    reveal_strlit("slice");
    reveal_strlit("type-of");
    reveal_strlit("int?");
    reveal_strlit("symbol?");
    reveal_strlit("keyword?");
    reveal_strlit("list?");
    reveal_strlit("quote");
    reveal_strlit("unquote");
    reveal_strlit("choose");
    reveal_strlit("%{leave-scope}");
    reveal_strlit("locals");
    reveal_strlit("define");
}

/// No two builtins share a name.
pub(crate) proof fn lemma_builtin_names_distinct()
    ensures
        forall|i: int, j: int| 0 <= i < NUM_BUILTINS && 0 <= j < NUM_BUILTINS && i != j ==> entry(i).0 != entry(j).0,
{
    lemma_builtin_name_shapes();
}

/// No two words of the analysis table share a name.
pub(crate) proof fn lemma_info_names_distinct()
    ensures
        forall|i: int, j: int| 0 <= i < NUM_INFO && 0 <= j < NUM_INFO && i != j ==> info_entry(i).0 != info_entry(j).0,
{
    lemma_builtin_name_shapes();
}

/// No string occurs twice in the table.
pub open spec fn no_repeats(t: Seq<Seq<char>>) -> bool {
    forall|i: int, j: int| 0 <= i < j < t.len() ==> t[i] != t[j]
}

/// In a table without repeats, names that are there have the same symbol
/// only if they are the same.
pub(crate) proof fn lemma_sym_of_injective(t: Seq<Seq<char>>, a: Seq<char>, b: Seq<char>)
    requires
        no_repeats(t),
        t.len() < u64::MAX,
        t.contains(a),
        t.contains(b),
        a != b,
    ensures
        sym_of(t, a) != sym_of(t, b),
{
    let ia = choose|i: int| 0 <= i < t.len() && t[i] == a;
    let ib = choose|i: int| 0 <= i < t.len() && t[i] == b;
    lemma_index_of_unique(t, ia);
    lemma_index_of_unique(t, ib);
}

/// The symbol of a name at position `k` is `k + 1`.
pub(crate) proof fn lemma_sym_of_at(t: Seq<Seq<char>>, k: int)
    requires
        no_repeats(t),
        t.len() < u64::MAX,
        0 <= k < t.len(),
    ensures
        sym_of(t, t[k]) == k + 1,
{
    lemma_index_of_unique(t, k);
}

/// The analysis table maps the symbol of each of its interned words to that
/// word's effect.
pub(crate) proof fn lemma_info_map_at(t: Seq<Seq<char>>, i: int, k: int)
    requires
        no_repeats(t),
        t.len() < u64::MAX,
        0 <= k < i <= NUM_INFO,
        t.contains(info_entry(k).0),
    ensures
        info_map(t, i).contains_key(sym_of(t, info_entry(k).0)),
        info_map(t, i)[sym_of(t, info_entry(k).0)] == info_entry(k).1,
    decreases i,
{
    if i - 1 != k {
        lemma_info_map_at(t, i - 1, k);
        let name = info_entry(i - 1).0;
        if t.contains(name) {
            lemma_info_names_distinct();
            lemma_sym_of_injective(t, name, info_entry(k).0);
        }
    }
}

/// Every symbol in the analysis table is that of one of its interned words.
proof fn lemma_info_map_keys(t: Seq<Seq<char>>, i: int, x: u64)
    requires
        0 <= i <= NUM_INFO,
        info_map(t, i).contains_key(x),
    ensures
        exists|k: int| 0 <= k < i && #[trigger] t.contains(info_entry(k).0) && sym_of(t, info_entry(k).0) == x,
    decreases i,
{
    if i > 0 {
        let name = info_entry(i - 1).0;
        if t.contains(name) && sym_of(t, name) == x {
            assert(t.contains(info_entry(i - 1).0));
        } else {
            lemma_info_map_keys(t, i - 1, x);
            let k = choose|k: int| 0 <= k < i - 1 && #[trigger] t.contains(info_entry(k).0) && sym_of(t, info_entry(k).0) == x;
            assert(t.contains(info_entry(k).0));
        }
    }
}

/// The builtins map the symbol of each builtin's name to that builtin, in a
/// table that holds all their names.
pub(crate) proof fn lemma_reg_map_at(t: Seq<Seq<char>>, i: int, j: int)
    requires
        no_repeats(t),
        t.len() < u64::MAX,
        0 <= j < i <= NUM_BUILTINS,
        forall|k: int| 0 <= k < NUM_BUILTINS ==> t.contains(#[trigger] entry(k).0),
    ensures
        reg_map(t, i).contains_key(sym_of(t, entry(j).0)),
        reg_map(t, i)[sym_of(t, entry(j).0)] == entry(j).1,
    decreases i,
{
    if i - 1 != j {
        lemma_reg_map_at(t, i - 1, j);
        lemma_builtin_names_distinct();
        assert(t.contains(entry(i - 1).0));
        assert(t.contains(entry(j).0));
        lemma_sym_of_injective(t, entry(i - 1).0, entry(j).0);
    }
}

/// Interning names keeps a table free of repeats, and the names are then in it.
pub(crate) proof fn lemma_intern_all_holds(t: Seq<Seq<char>>, names: Seq<Seq<char>>)
    requires
        no_repeats(t),
    ensures
        no_repeats(intern_all(t, names)),
        forall|k: int| 0 <= k < names.len() ==> intern_all(t, names).contains(#[trigger] names[k]),
    decreases names.len(),
{
    if names.len() > 0 {
        let t1 = interned(t, names[0]);
        law_intern_idempotent(t, names[0]);
        lemma_intern_all_holds(t1, names.drop_first());
        lemma_intern_all_prefix(t1, names.drop_first());
        let all = intern_all(t, names);
        assert forall|k: int| 0 <= k < names.len() implies all.contains(#[trigger] names[k]) by {
            if k == 0 {
                let i = choose|i: int| 0 <= i < t1.len() && t1[i] == names[0];
                assert(all[i] == names[0]);
            } else {
                assert(names[k] == names.drop_first()[k - 1]);
            }
        }
    }
}

/// The builtin of each word of the analysis table but `locals` and
/// `unquote`, by the word's index in that table.
pub open spec fn builtin_index_of_word(k: int) -> int {
    if k == 19 {
        44
    } else {
        k
    }
}

/// Every builtin runs as the analysis table declares, but for `locals` and
/// `unquote`: a program none of whose symbols names one of those two has its
/// known words run as declared by the builtins of its table.
pub proof fn law_builtins_run_as_declared(t: Seq<Seq<char>>, p: Seq<AVal>)
    requires
        no_repeats(t),
        t.len() + NUM_BUILTINS < usize::MAX,
        forall|k: int| 0 <= k < p.len() && (#[trigger] p[k]) is Sym ==> {
            let x = p[k]->Sym_0;
            &&& 1 <= x <= t.len()
            &&& t[x - 1] != "locals"@
            &&& t[x - 1] != "unquote"@
        },
    ensures
        words_as_declared(t, p, builtins_for(table_with_builtins(t))),
{
    let big = table_with_builtins(t);
    lemma_intern_all_holds(t, entry_names(NUM_BUILTINS as int));
    crate::parser::lemma_intern_all_len(t, entry_names(NUM_BUILTINS as int));
    lemma_intern_all_prefix(t, entry_names(NUM_BUILTINS as int));
    assert forall|k: int| 0 <= k < NUM_BUILTINS implies big.contains(#[trigger] entry(k).0) by {
        assert(entry_names(NUM_BUILTINS as int)[k] == entry(k).0);
    }
    assert forall|k: int|
        0 <= k < p.len() && (#[trigger] p[k]) is Sym && info_for(t).contains_key(p[k]->Sym_0)
        implies builtins_for(big).contains_key(p[k]->Sym_0) && declared_effect(builtins_for(big)[p[k]->Sym_0])
            == Some(info_for(t)[p[k]->Sym_0]) by {
        let x = p[k]->Sym_0;
        lemma_info_map_keys(t, NUM_INFO as int, x);
        let ki = choose|ki: int| 0 <= ki < NUM_INFO && #[trigger] t.contains(info_entry(ki).0) && sym_of(t, info_entry(ki).0) == x;
        let name = info_entry(ki).0;
        lemma_info_map_at(t, NUM_INFO as int, ki);
        lemma_sym_of_at(t, x - 1);
        if t[x - 1] != name {
            lemma_sym_of_injective(t, t[x - 1], name);
            assert(t.contains(t[x - 1]));
        }
        assert(t[x - 1] == name);
        assert(ki != 20 && ki != 21);
        let j = builtin_index_of_word(ki);
        assert(entry(j).0 == name);
        assert(big[x - 1] == name);
        lemma_sym_of_at(big, x - 1);
        lemma_reg_map_at(big, NUM_BUILTINS as int, j);
        assert(declared_effect(entry(j).1) == Some(info_entry(ki).1));
    }
}

/// The analysis describes what evaluation leaves: for a program whose
/// symbols are interned and none of which names `locals` or `unquote`,
/// when the analysis accepts it and its run with the builtins gets
/// to the end, the final stack holds as many values as the analysed stack,
/// each as the analysis says.
pub proof fn law_analysis_describes_eval(t: Seq<Seq<char>>, p: Seq<AVal>, fuel: nat, n: nat)
    requires
        no_repeats(t),
        t.len() + NUM_BUILTINS < usize::MAX,
        forall|k: int| 0 <= k < p.len() && (#[trigger] p[k]) is Sym ==> {
            let x = p[k]->Sym_0;
            &&& 1 <= x <= t.len()
            &&& t[x - 1] != "locals"@
            &&& t[x - 1] != "unquote"@
        },
        analyze_spec(t, p, Seq::empty(), fuel) is Ok,
        run(initial_state(p), builtins_for(table_with_builtins(t)), n).program.len() == 0,
    ensures
        describes_all(
            analyze_spec(t, p, Seq::empty(), fuel)->Ok_0.0,
            run(initial_state(p), builtins_for(table_with_builtins(t)), n).stack,
        ),
{
    law_builtins_run_as_declared(t, p);
    law_analysis_describes_run(t, p, builtins_for(table_with_builtins(t)), fuel, n);
}

/// A step on an empty program does nothing and fails; a step whose next
/// value is not a symbol takes it off the program and pushes it.
pub proof fn law_step_pushes_constants(s: AEval, builtins: Map<u64, Builtin>)
    ensures
        s.program.len() == 0 ==> step_spec(s, builtins) == (s, false),
        s.program.len() > 0 && !(s.program.last() is Sym) ==> step_spec(s, builtins) == (
            AEval { program: s.program.drop_last(), stack: s.stack.push(s.program.last()), lexicon: s.lexicon },
            true,
        ),
{
}

/// `unquote` runs the list on top of the stack next: it takes the list off
/// the stack and puts its values on the program, after what was there. On
/// anything else, or an empty stack, it fails and changes nothing.
pub proof fn law_unquote(s: AEval)
    ensures
        s.stack.len() >= 1 && arg(s, 0) is List ==> builtin_spec(Builtin::Unquote, s) == (
            AEval { program: s.program + arg(s, 0).elems(), stack: below(s, 1), lexicon: s.lexicon },
            true,
        ),
        !(s.stack.len() >= 1 && arg(s, 0) is List) ==> builtin_spec(Builtin::Unquote, s) == (s, false),
{
}

/// `choose {then} {else} c` runs `then` when `c` is true and `else`
/// otherwise: it takes the three values off the stack and puts the chosen
/// code on the program. Unless both of the top two values are lists, or
/// with fewer than three values, it fails and changes nothing.
pub proof fn law_choose(s: AEval)
    ensures
        s.stack.len() >= 3 && arg(s, 0) is List && arg(s, 1) is List ==> builtin_spec(Builtin::Choose, s) == (
            AEval {
                program: s.program + (if arg(s, 2).truthy() { arg(s, 0).elems() } else { arg(s, 1).elems() }),
                stack: below(s, 3),
                lexicon: s.lexicon,
            },
            true,
        ),
        !(s.stack.len() >= 3 && arg(s, 0) is List && arg(s, 1) is List) ==> builtin_spec(Builtin::Choose, s)
            == (s, false),
{
}

/// A name is looked up in the innermost scope that binds it: that binding
/// shadows those of outer scopes.
pub proof fn law_innermost_binding(lex: Seq<AScope>, x: u64, j: int)
    requires
        0 <= j < lex.len(),
        lex[j].map.contains_key(x),
        forall|i: int| j < i < lex.len() ==> !(#[trigger] lex[i]).map.contains_key(x),
    ensures
        lookup(lex, x) == Some(lex[j].map[x]),
    decreases lex.len(),
{
    if j < lex.len() - 1 {
        assert(!lex[lex.len() - 1].map.contains_key(x));
        law_innermost_binding(lex.drop_last(), x, j);
    }
}

/// A name that no scope binds has no binding.
pub proof fn law_unbound(lex: Seq<AScope>, x: u64)
    requires
        forall|i: int| 0 <= i < lex.len() ==> !(#[trigger] lex[i]).map.contains_key(x),
    ensures
        lookup(lex, x) is None,
    decreases lex.len(),
{
    if lex.len() > 0 {
        assert(!lex[lex.len() - 1].map.contains_key(x));
        law_unbound(lex.drop_last(), x);
    }
}

/// A symbol runs its binding: a value is pushed, code runs next; with no
/// binding, the builtin of that name runs, and with neither it fails,
/// changing nothing.
pub proof fn law_symbol_runs_binding(s: AEval, builtins: Map<u64, Builtin>, x: u64)
    ensures
        lookup(s.lexicon, x) matches Some(ASlot::Val(v)) ==> eval_sym_spec(s, builtins, x) == (
            AEval { stack: s.stack.push(v), ..s },
            true,
        ),
        lookup(s.lexicon, x) matches Some(ASlot::Quote(code)) ==> eval_sym_spec(s, builtins, x) == (
            AEval { program: s.program + code, ..s },
            true,
        ),
        lookup(s.lexicon, x) is None && builtins.contains_key(x) ==> eval_sym_spec(s, builtins, x)
            == builtin_spec(builtins[x], s),
        lookup(s.lexicon, x) is None && !builtins.contains_key(x) ==> eval_sym_spec(s, builtins, x) == (s, false),
{
}

/// Symbols name strings one to one: interning a string that is new gives
/// the next symbol; interning another string later keeps the first one's
/// symbol; and two different strings never share a symbol. `str` gives back
/// the string of each (`SymbolTable::str` reads position `k - 1` for `Sym(k)`).
pub proof fn law_intern_symbols(t: Seq<Seq<char>>, a: Seq<char>, b: Seq<char>)
    requires
        forall|i: int, j: int| 0 <= i < j < t.len() ==> t[i] != t[j],
    ensures
        !t.contains(a) ==> interned(t, a).index_of(a) + 1 == t.len() + 1,
        interned(interned(t, a), b).index_of(a) == interned(t, a).index_of(a),
        a != b ==> interned(interned(t, a), b).index_of(a) != interned(interned(t, a), b).index_of(b),
        interned(interned(t, a), b)[interned(interned(t, a), b).index_of(a)] == a,
        interned(interned(t, a), b)[interned(interned(t, a), b).index_of(b)] == b,
{
    let t1 = interned(t, a);
    let t2 = interned(t1, b);
    law_intern_idempotent(t, a);
    law_intern_idempotent(t1, b);
    let ia = choose|i: int| 0 <= i < t1.len() && t1[i] == a;
    lemma_index_of_unique(t1, ia);
    assert(t2[ia] == a);
    lemma_index_of_unique(t2, ia);
    let ib = choose|i: int| 0 <= i < t2.len() && t2[i] == b;
    lemma_index_of_unique(t2, ib);
    if !t.contains(a) {
        assert(t1[t.len() as int] == a);
        lemma_index_of_unique(t1, t.len() as int);
    }
}

/// Binding the names of `locals` from `k` on leaves the binding of any
/// other name as it was.
proof fn lemma_bind_locals_keeps(sc: AScope, names: Seq<AVal>, vals: Seq<AVal>, k: int, key: u64)
    requires
        0 <= k,
        bind_locals(sc, names, vals, k) is Done,
        forall|i: int| k <= i < names.len() ==> (#[trigger] names[names.len() - 1 - i])->Sym_0 != key,
    ensures
        bind_locals(sc, names, vals, k)->Done_0.map.contains_key(key) == sc.map.contains_key(key),
        sc.map.contains_key(key) ==> bind_locals(sc, names, vals, k)->Done_0.map[key] == sc.map[key],
    decreases names.len() - k,
{
    if k < names.len() {
        let m = names.len();
        let sc2 = scope_insert(sc, names[m - 1 - k]->Sym_0, ASlot::Val(vals[k]))->0;
        assert(names[m - 1 - k]->Sym_0 != key);
        lemma_bind_locals_keeps(sc2, names, vals, k + 1, key);
    }
}

/// Binding the names of `locals` from `k` on binds the name `names[m-1-i]`
/// to `vals[i]`, when no name occurs twice.
proof fn lemma_bind_locals_binds(sc: AScope, names: Seq<AVal>, vals: Seq<AVal>, k: int)
    requires
        0 <= k,
        bind_locals(sc, names, vals, k) is Done,
        all_syms(names),
        forall|i: int, j: int| 0 <= i < j < names.len() ==> names[i] != names[j],
    ensures
        forall|i: int| k <= i < names.len() ==> {
            let key = (#[trigger] names[names.len() - 1 - i])->Sym_0;
            &&& bind_locals(sc, names, vals, k)->Done_0.map.contains_key(key)
            &&& bind_locals(sc, names, vals, k)->Done_0.map[key] == ASlot::Val(vals[i])
        },
    decreases names.len() - k,
{
    let m = names.len();
    if k < m {
        let key = names[m - 1 - k]->Sym_0;
        let sc2 = scope_insert(sc, key, ASlot::Val(vals[k]))->0;
        lemma_bind_locals_binds(sc2, names, vals, k + 1);
        assert forall|i: int| k + 1 <= i < m implies (#[trigger] names[m - 1 - i])->Sym_0 != key by {
            assert(names[m - 1 - i] is Sym && names[m - 1 - k] is Sym);
            assert(names[m - 1 - i] != names[m - 1 - k]);
        }
        lemma_bind_locals_keeps(sc2, names, vals, k + 1, key);
    }
}

/// No two names of the list are the same, and all are symbols.
pub open spec fn distinct_names(names: Seq<AVal>) -> bool {
    &&& all_syms(names)
    &&& forall|i: int, j: int| 0 <= i < j < names.len() ==> names[i] != names[j]
}

/// `locals {x_1 .. x_n} {code}` binds `x_i` to the `i`-th value under the
/// two lists (`x_1` to the nearest), takes those values off the stack and
/// runs the code in the scope: looking up `x_i` then gives its value.
pub proof fn law_locals_binds(s: AEval)
    requires
        scoped_spec(true, s).1,
        distinct_names(arg(s, 0).elems()),
    ensures
        ({
            let s2 = scoped_spec(true, s).0;
            let names = arg(s, 0).elems();
            &&& s2.stack == below(s, 2 + names.len() as int)
            &&& forall|i: int| 0 <= i < names.len() ==> lookup(s2.lexicon, (#[trigger] names[i])->Sym_0)
                == Some(ASlot::Val(arg(s, 2 + i)))
        }),
{
    reveal(build_scope);
    let names = arg(s, 0).elems();
    let m = names.len();
    let rest = below(s, 2);
    let vals = rest.subrange(rest.len() - m, rest.len() as int);
    let s2 = scoped_spec(true, s).0;
    let sc = build_scope(true, s)->Done_0;
    lemma_bind_locals_binds(crate::machine::base_scope(s), names, vals, 0);
    assert(s2.stack =~= below(s, 2 + m as int));
    assert forall|i: int| 0 <= i < m implies lookup(s2.lexicon, (#[trigger] names[i])->Sym_0)
        == Some(ASlot::Val(arg(s, 2 + i))) by {
        let j = m - 1 - i;
        assert(names[m - 1 - j] == names[i]);
        assert(s2.lexicon.last() == sc);
        assert(vals[j] == arg(s, 2 + i));
    }
}

/// Binding the pairs of `define` from pair `k` on leaves the binding of any
/// other name as it was.
proof fn lemma_bind_defs_keeps(sc: AScope, defs: Seq<AVal>, k: int, key: u64)
    requires
        0 <= k,
        bind_defs(sc, defs, k) is Done,
        forall|i: int| k <= i && 2 * i + 1 < defs.len() ==> (#[trigger] def_name(defs, i))->Sym_0 != key,
    ensures
        bind_defs(sc, defs, k)->Done_0.map.contains_key(key) == sc.map.contains_key(key),
        sc.map.contains_key(key) ==> bind_defs(sc, defs, k)->Done_0.map[key] == sc.map[key],
    decreases defs.len() - 2 * k,
{
    if 2 * k + 1 < defs.len() {
        let sc2 = scope_insert(sc, defs[2 * k]->Sym_0, ASlot::Quote(defs[2 * k + 1].elems()))->0;
        assert(def_name(defs, k)->Sym_0 != key);
        lemma_bind_defs_keeps(sc2, defs, k + 1, key);
    }
}

/// The name of the `i`-th pair of `define`.
pub open spec fn def_name(defs: Seq<AVal>, i: int) -> AVal {
    defs[2 * i]
}

/// The names of the pairs of `define`: all symbols, no two the same.
pub open spec fn distinct_def_names(defs: Seq<AVal>) -> bool {
    &&& forall|i: int| 0 <= i && 2 * i < defs.len() ==> (#[trigger] def_name(defs, i)) is Sym
    &&& forall|i: int, j: int|
        0 <= i < j && 2 * j < defs.len() ==> #[trigger] def_name(defs, i) != #[trigger] def_name(defs, j)
}

proof fn lemma_bind_defs_binds(sc: AScope, defs: Seq<AVal>, k: int)
    requires
        0 <= k,
        bind_defs(sc, defs, k) is Done,
        distinct_def_names(defs),
    ensures
        forall|i: int| k <= i && 2 * i + 1 < defs.len() ==> {
            let key = (#[trigger] def_name(defs, i))->Sym_0;
            &&& bind_defs(sc, defs, k)->Done_0.map.contains_key(key)
            &&& bind_defs(sc, defs, k)->Done_0.map[key] == ASlot::Quote(defs[2 * i + 1].elems())
        },
    decreases defs.len() - 2 * k,
{
    if 2 * k + 1 < defs.len() {
        let key = defs[2 * k]->Sym_0;
        let sc2 = scope_insert(sc, key, ASlot::Quote(defs[2 * k + 1].elems()))->0;
        lemma_bind_defs_binds(sc2, defs, k + 1);
        assert forall|i: int| k + 1 <= i && 2 * i + 1 < defs.len() implies (#[trigger] def_name(defs, i))->Sym_0 != key by {
            assert(def_name(defs, i) is Sym && def_name(defs, k) is Sym);
            assert(def_name(defs, k) != def_name(defs, i));
        }
        lemma_bind_defs_keeps(sc2, defs, k + 1, key);
    }
}

/// `define {k_1 q_1 .. k_m q_m} {body}` binds each name `k_i` to the code
/// `q_i`, takes the two lists off the stack and runs the body in the scope:
/// looking up `k_i` then gives its code.
pub proof fn law_define_binds(s: AEval)
    requires
        scoped_spec(false, s).1,
        distinct_def_names(arg(s, 0).elems()),
    ensures
        ({
            let s2 = scoped_spec(false, s).0;
            let defs = arg(s, 0).elems();
            &&& s2.stack == below(s, 2)
            &&& forall|i: int| 0 <= i && 2 * i + 1 < defs.len() ==> lookup(s2.lexicon, (#[trigger] def_name(defs, i))->Sym_0)
                == Some(ASlot::Quote(defs[2 * i + 1].elems()))
        }),
{
    reveal(build_scope);
    let defs = arg(s, 0).elems();
    let s2 = scoped_spec(false, s).0;
    let sc = build_scope(false, s)->Done_0;
    lemma_bind_defs_binds(crate::machine::base_scope(s), defs, 0);
    assert forall|i: int| 0 <= i && 2 * i + 1 < defs.len() implies lookup(s2.lexicon, (#[trigger] def_name(defs, i))->Sym_0)
        == Some(ASlot::Quote(defs[2 * i + 1].elems())) by {
        assert(s2.lexicon.last() == sc);
    }
}

/// The text from position `i` on, inside `d` open quotations, is a
/// well-formed program: each `}` closes an earlier `{`, every `{` is closed,
/// and every atom is valid (a `:` with a name after it, an integer within
/// `i64`, or a name).
pub open spec fn well_formed_from(cs: Seq<char>, i: int, d: nat) -> bool
    decreases cs.len() - i,
{
    if i < 0 || i >= cs.len() {
        d == 0
    } else if cs[i] == '{' {
        well_formed_from(cs, i + 1, d + 1)
    } else if cs[i] == '}' {
        d > 0 && well_formed_from(cs, i + 1, (d - 1) as nat)
    } else if spec_is_whitespace(cs[i]) {
        well_formed_from(cs, i + 1, d)
    } else {
        let kw = cs[i] == ':';
        let start = if kw { i + 1 } else { i };
        let e = token_end(cs, start);
        if i < e <= cs.len() && start <= e {
            atom_value(cs.subrange(start, e), kw) is Ok && well_formed_from(cs, e, d)
        } else {
            false
        }
    }
}

proof fn lemma_parse_well_formed(cs: Seq<char>, i: int, nested: bool)
    requires
        0 <= i <= cs.len(),
    ensures
        !nested ==> (parse_seq(cs, i, false).0 is Ok <==> well_formed_from(cs, i, 0)),
        nested ==> (parse_seq(cs, i, true).0 matches Ok((_, j)) ==> forall|d: nat|
            d >= 1 ==> #[trigger] well_formed_from(cs, i, d) == well_formed_from(cs, j, (d - 1) as nat)),
        nested ==> (parse_seq(cs, i, true).0 is Err ==> forall|d: nat|
            d >= 1 ==> !#[trigger] well_formed_from(cs, i, d)),
    decreases cs.len() - i,
{
    if i < cs.len() {
        if cs[i] == '{' {
            lemma_parse_well_formed(cs, i + 1, true);
            lemma_parse_seq_pos(cs, i + 1, true);
            let (r1, _) = parse_seq(cs, i + 1, true);
            if let Ok((_, j)) = r1 {
                lemma_parse_well_formed(cs, j, nested);
                assert forall|d: nat| #[trigger] well_formed_from(cs, i, d) == well_formed_from(cs, j, d) by {
                    assert(well_formed_from(cs, i + 1, d + 1) == well_formed_from(cs, j, d));
                }
                if nested {
                    let (r2, _) = parse_seq(cs, j, nested);
                    if let Ok((_, k)) = r2 {
                        assert forall|d: nat| d >= 1 implies #[trigger] well_formed_from(cs, i, d)
                            == well_formed_from(cs, k, (d - 1) as nat) by {
                            assert(well_formed_from(cs, i, d) == well_formed_from(cs, j, d));
                            assert(well_formed_from(cs, j, d) == well_formed_from(cs, k, (d - 1) as nat));
                        }
                    } else {
                        assert forall|d: nat| d >= 1 implies !#[trigger] well_formed_from(cs, i, d) by {
                            assert(!well_formed_from(cs, j, d));
                        }
                    }
                } else {
                    assert(well_formed_from(cs, i, 0) == well_formed_from(cs, j, 0));
                }
            } else {
                assert forall|d: nat| #![auto] !well_formed_from(cs, i, d) by {
                    assert(!well_formed_from(cs, i + 1, d + 1));
                }
            }
        } else if cs[i] == '}' {
        } else if spec_is_whitespace(cs[i]) {
            lemma_parse_well_formed(cs, i + 1, nested);
            assert forall|d: nat| #[trigger] well_formed_from(cs, i, d) == well_formed_from(cs, i + 1, d) by {}
        } else {
            let kw = cs[i] == ':';
            let start = if kw { i + 1 } else { i };
            lemma_token_end(cs, start);
            let e = token_end(cs, start);
            if !kw {
                assert(!is_delim(cs[i]));
            }
            if i < e && atom_value(cs.subrange(start, e), kw) is Ok {
                lemma_parse_well_formed(cs, e, nested);
                assert forall|d: nat| #[trigger] well_formed_from(cs, i, d) == well_formed_from(cs, e, d) by {}
            } else {
                assert forall|d: nat| #![auto] !well_formed_from(cs, i, d) by {}
            }
        }
    }
}

/// Parsing succeeds exactly on well-formed text: braces that pair up and
/// valid atoms (`parse` gives `Ok` exactly where `spec_parse` does). The
/// values are then the text's items in order, each `{...}` one list.
pub proof fn law_parse_succeeds_iff_well_formed(cs: Seq<char>)
    ensures
        spec_parse(cs) is Ok <==> well_formed_from(cs, 0, 0),
{
    lemma_parse_well_formed(cs, 0, false);
}

/// An atom runs from its start (past a leading `:`) up to the first
/// whitespace, `{` or `}`, or to the end of the text.
pub proof fn law_atom_extent(cs: Seq<char>, start: int)
    requires
        0 <= start <= cs.len(),
    ensures
        start <= token_end(cs, start) <= cs.len(),
        forall|k: int| start <= k < token_end(cs, start) ==> !is_delim(#[trigger] cs[k]),
        token_end(cs, start) < cs.len() ==> is_delim(cs[token_end(cs, start)]),
{
    lemma_token_end(cs, start);
}

/// Every builtin whose effect the analysis table declares takes as many
/// values as it pops when it runs.
pub proof fn law_declared_inputs_match_arity(op: Builtin)
    ensures
        declared_effect(op) is Some ==> declared_effect(op)->0.ins.len() == crate::machine::arity(op),
{
}

/// A value that a slot of integers or of any type describes can fill that
/// slot when the value is an integer.
proof fn lemma_describes_int(vv: AVirtual, v: AVal)
    requires
        describes(vv, v),
        v is Int,
    ensures
        int_param().accepts_virtual(vv),
        StackParam::Any.accepts_virtual(vv),
{
}

/// A builtin with a declared effect that succeeds on a stack which the
/// analysed stack describes finds its inputs filled there.
proof fn lemma_declared_inputs_filled(op: Builtin, s: AEval, vst: Seq<AVirtual>)
    requires
        declared_effect(op) is Some,
        describes_all(vst, s.stack),
        builtin_spec(op, s).1,
    ensures
        usage_accepts(declared_effect(op)->0.ins, vst),
{
    let e = declared_effect(op)->0;
    let n = e.ins.len() as int;
    let len = vst.len() as int;
    assert(n == crate::machine::arity(op));
    assert forall|k: int| 0 <= k < n implies #[trigger] e.ins[k].accepts_virtual(last_n(vst, n)[k]) by {
        let j = len - n + k;
        assert(last_n(vst, n)[k] == vst[j]);
        assert(describes(vst[j], s.stack[j]));
        if e.ins[k] == int_param() {
            assert(s.stack[j] is Int);
            lemma_describes_int(vst[j], s.stack[j]);
        }
    }
}

/// Each symbol of the program names a builtin with a declared effect, which
/// the analysis table gives it.
pub open spec fn words_known(t: Seq<Seq<char>>, p: Seq<AVal>, builtins: Map<u64, Builtin>) -> bool {
    forall|k: int|
        0 <= k < p.len() && (#[trigger] p[k]) is Sym ==> {
            let x = p[k]->Sym_0;
            &&& info_for(t).contains_key(x)
            &&& builtins.contains_key(x)
            &&& declared_effect(builtins[x]) == Some(info_for(t)[x])
        }
}

proof fn lemma_run_implies_analysis(
    t: Seq<Seq<char>>,
    q: Seq<AVal>,
    st: Seq<AVal>,
    vst: Seq<AVirtual>,
    f: nat,
    builtins: Map<u64, Builtin>,
    n: nat,
)
    requires
        words_known(t, q, builtins),
        describes_all(vst, st),
        run(AEval { program: q, stack: st, lexicon: Seq::empty() }, builtins, n).program.len() == 0,
    ensures
        analyze_spec(t, q, vst, f) is Ok,
    decreases q.len(),
{
    let s = AEval { program: q, stack: st, lexicon: Seq::empty() };
    if q.len() > 0 {
        let head = q.last();
        let rest = q.drop_last();
        let s1 = AEval { program: rest, ..s };
        assert(s1.program.push(head) =~= q);
        if n == 0 {
            assert(run(s, builtins, n) == s);
        }
        assert(words_known(t, rest, builtins)) by {
            assert forall|k: int| 0 <= k < rest.len() && (#[trigger] rest[k]) is Sym implies {
                let x = rest[k]->Sym_0;
                &&& info_for(t).contains_key(x)
                &&& builtins.contains_key(x)
                &&& declared_effect(builtins[x]) == Some(info_for(t)[x])
            } by {
                assert(rest[k] == q[k]);
            }
        }
        match head {
            AVal::Sym(x) => {
                assert(q[q.len() - 1] == head);
                let op = builtins[x];
                let e = info_for(t)[x];
                assert(lookup(s1.lexicon, x) is None);
                let (s2, ok) = builtin_spec(op, s1);
                law_failed_step_keeps_state(s, builtins);
                if ok {
                    lemma_declared_inputs_filled(op, s1, vst);
                    lemma_declared_effect_sound(op, s1, vst);
                    assert(!evaluates_code(e)) by {
                        if evaluates_code(e) {
                            assert(e.outs[0] == StackParam::Typed(TypeInfo::Eval(0)));
                        }
                    }
                    assert(sym_effect(t, x, vst, f) == Ok::<(Seq<AVirtual>, nat), AError>((apply_usage(vst, e), f)));
                    assert(s2 == AEval { program: rest, stack: s2.stack, lexicon: Seq::<AScope>::empty() });
                    assert(step_spec(s, builtins) == (s2, true));
                    lemma_run_implies_analysis(t, rest, s2.stack, apply_usage(vst, e), f, builtins, (n - 1) as nat);
                } else {
                    assert(!step_spec(s, builtins).1);
                }
            },
            _ => {
                let s2 = AEval { program: rest, stack: st.push(head), lexicon: Seq::empty() };
                assert(step_spec(s, builtins) == (s2, true));
                let vst2 = vst.push(AVirtual::Concrete(head));
                assert(describes_all(vst2, st.push(head))) by {
                    assert forall|k: int| 0 <= k < st.push(head).len() implies describes(#[trigger] vst2[k], st.push(head)[k]) by {
                        if k < st.len() {
                            assert(vst2[k] == vst[k]);
                        }
                    }
                }
                lemma_run_implies_analysis(t, rest, st.push(head), vst2, f, builtins, (n - 1) as nat);
            },
        }
    }
}

/// A run that gets to the end is accepted by the analysis: when each symbol
/// of the program names a builtin that the analysis table declares, as the
/// builtins run it, the analysis of the program succeeds.
pub proof fn law_run_accepted_by_analysis(t: Seq<Seq<char>>, p: Seq<AVal>, builtins: Map<u64, Builtin>, fuel: nat, n: nat)
    requires
        words_known(t, p, builtins),
        run(initial_state(p), builtins, n).program.len() == 0,
    ensures
        analyze_spec(t, p, Seq::empty(), fuel) is Ok,
{
    lemma_run_implies_analysis(t, p, Seq::empty(), Seq::empty(), fuel, builtins, n);
}

/// The analysis predicts what evaluation leaves: for a program each of whose
/// symbols names a word of the analysis table other than `locals` and
/// `unquote`, a run with the builtins that gets to the end is accepted by the
/// analysis, and leaves as many values as the analysed stack holds, each as
/// the analysis says.
pub proof fn law_eval_predicted_by_analysis(t: Seq<Seq<char>>, p: Seq<AVal>, fuel: nat, n: nat)
    requires
        no_repeats(t),
        t.len() + NUM_BUILTINS < usize::MAX,
        forall|k: int| 0 <= k < p.len() && (#[trigger] p[k]) is Sym ==> {
            let x = p[k]->Sym_0;
            &&& 1 <= x <= t.len()
            &&& exists|w: int| 0 <= w < NUM_INFO && w != 20 && w != 21 && (#[trigger] info_entry(w)).0 == t[x - 1]
        },
        run(initial_state(p), builtins_for(table_with_builtins(t)), n).program.len() == 0,
    ensures
        analyze_spec(t, p, Seq::empty(), fuel) is Ok,
        describes_all(
            analyze_spec(t, p, Seq::empty(), fuel)->Ok_0.0,
            run(initial_state(p), builtins_for(table_with_builtins(t)), n).stack,
        ),
{
    let b = builtins_for(table_with_builtins(t));
    lemma_info_names_distinct();
    assert(info_entry(20).0 == "locals"@ && info_entry(21).0 == "unquote"@);
    assert forall|k: int| 0 <= k < p.len() && (#[trigger] p[k]) is Sym implies {
        let x = p[k]->Sym_0;
        &&& 1 <= x <= t.len()
        &&& t[x - 1] != "locals"@
        &&& t[x - 1] != "unquote"@
        &&& info_for(t).contains_key(x)
    } by {
        let x = p[k]->Sym_0;
        let w = choose|w: int| 0 <= w < NUM_INFO && w != 20 && w != 21 && (#[trigger] info_entry(w)).0 == t[x - 1];
        assert(info_entry(w).0 != info_entry(20).0);
        assert(info_entry(w).0 != info_entry(21).0);
        assert(t.contains(info_entry(w).0)) by {
            assert(t[x - 1] == info_entry(w).0);
        }
        lemma_info_map_at(t, NUM_INFO as int, w);
        lemma_sym_of_at(t, x - 1);
    }
    law_builtins_run_as_declared(t, p);
    assert(words_known(t, p, b));
    law_run_accepted_by_analysis(t, p, b, fuel, n);
    law_analysis_describes_eval(t, p, fuel, n);
}

} // verus!
