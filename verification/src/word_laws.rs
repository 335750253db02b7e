use vstd::prelude::*;
use crate::val::{AVal, reserved_names};
use crate::machine::{AEval, Builtin, builtin_spec, arith, compare, type_kw, arg, below, with_stack};
use crate::eval::table_with_builtins;
use crate::builtins::{entry, entry_names, sym_of, builtins_for, NUM_BUILTINS};
use crate::parser::{intern_all, spec_is_whitespace, is_delim, token_end, parse_seq, spec_parse, lemma_token_end, lemma_parse_seq_pos};
use crate::laws::{no_repeats, lemma_intern_all_holds, lemma_reg_map_at, lemma_info_map_at, lemma_sym_of_at};
use crate::analysis::{AVirtual, AError, analyze_spec, sym_effect, info_for, info_entry, NUM_INFO};

verus! {

/// The builtin named `name` in the table that `t` becomes once the builtin
/// names are interned into it is `op`.
pub open spec fn registered(t: Seq<Seq<char>>, name: Seq<char>, op: Builtin) -> bool {
    let big = table_with_builtins(t);
    &&& builtins_for(big).contains_key(sym_of(big, name))
    &&& builtins_for(big)[sym_of(big, name)] == op
}

/// Every builtin's name runs that builtin.
proof fn lemma_all_registered(t: Seq<Seq<char>>)
    requires
        no_repeats(t),
        t.len() + NUM_BUILTINS < usize::MAX,
    ensures
        forall|j: int| 0 <= j < NUM_BUILTINS ==> #[trigger] registered(t, entry(j).0, entry(j).1),
{
    let big = table_with_builtins(t);
    lemma_intern_all_holds(t, entry_names(NUM_BUILTINS as int));
    crate::parser::lemma_intern_all_len(t, entry_names(NUM_BUILTINS as int));
    assert forall|k: int| 0 <= k < NUM_BUILTINS implies big.contains(#[trigger] entry(k).0) by {
        assert(entry_names(NUM_BUILTINS as int)[k] == entry(k).0);
    }
    assert forall|j: int| 0 <= j < NUM_BUILTINS implies #[trigger] registered(t, entry(j).0, entry(j).1) by {
        lemma_reg_map_at(big, NUM_BUILTINS as int, j);
    }
}

/// Each builtin name runs the builtin it names.
pub proof fn law_builtin_names(t: Seq<Seq<char>>)
    requires
        no_repeats(t),
        t.len() + NUM_BUILTINS < usize::MAX,
    ensures
        registered(t, "drop"@, Builtin::Drop),
        registered(t, "dup"@, Builtin::Dup),
        registered(t, "swap"@, Builtin::Swap),
        registered(t, "+"@, Builtin::Add),
        registered(t, "-"@, Builtin::Sub),
        registered(t, "*"@, Builtin::Mul),
        registered(t, "/"@, Builtin::Div),
        registered(t, "%"@, Builtin::Mod),
        registered(t, "="@, Builtin::Eq),
        registered(t, "<>"@, Builtin::Neq),
        registered(t, "<"@, Builtin::Lt),
        registered(t, "<="@, Builtin::Leq),
        registered(t, ">"@, Builtin::Gt),
        registered(t, ">="@, Builtin::Geq),
        registered(t, "true"@, Builtin::True),
        registered(t, "false"@, Builtin::False),
        registered(t, "&&"@, Builtin::And),
        registered(t, "||"@, Builtin::Or),
        registered(t, "not"@, Builtin::Not),
        registered(t, "length"@, Builtin::Length),
        registered(t, "append"@, Builtin::Append),
        registered(t, "push-back"@, Builtin::PushBack),
        registered(t, "push-front"@, Builtin::PushFront),
        registered(t, "head"@, Builtin::Head),
        registered(t, "tail"@, Builtin::Tail),
        registered(t, "init"@, Builtin::Init),
        registered(t, "last"@, Builtin::Last),
        registered(t, "head-tail"@, Builtin::HeadTail),
        registered(t, "last-init"@, Builtin::LastInit),
        registered(t, "nth"@, Builtin::Nth),
        registered(t, "set-nth"@, Builtin::SetNth),
        registered(t, "insert-before"@, Builtin::InsertBefore),
        registered(t, "remove-nth"@, Builtin::RemoveNth),
        registered(t, "swap-remove-nth"@, Builtin::SwapRemoveNth),
        registered(t, "concat"@, Builtin::Concat),
        registered(t, "slice"@, Builtin::Slice),
        registered(t, "type-of"@, Builtin::TypeOf),
        registered(t, "int?"@, Builtin::IsInt),
        registered(t, "symbol?"@, Builtin::IsSymbol),
        registered(t, "keyword?"@, Builtin::IsKeyword),
        registered(t, "list?"@, Builtin::IsList),
        registered(t, "quote"@, Builtin::Quote),
        registered(t, "unquote"@, Builtin::Unquote),
        registered(t, "choose"@, Builtin::Choose),
        registered(t, "%{leave-scope}"@, Builtin::LeaveScope),
        registered(t, "locals"@, Builtin::Locals),
        registered(t, "define"@, Builtin::Define),
{
    lemma_all_registered(t);
    assert(registered(t, entry(0).0, entry(0).1));
    assert(registered(t, entry(1).0, entry(1).1));
    assert(registered(t, entry(2).0, entry(2).1));
    assert(registered(t, entry(3).0, entry(3).1));
    assert(registered(t, entry(4).0, entry(4).1));
    assert(registered(t, entry(5).0, entry(5).1));
    assert(registered(t, entry(6).0, entry(6).1));
    assert(registered(t, entry(7).0, entry(7).1));
    assert(registered(t, entry(8).0, entry(8).1));
    assert(registered(t, entry(9).0, entry(9).1));
    assert(registered(t, entry(10).0, entry(10).1));
    assert(registered(t, entry(11).0, entry(11).1));
    assert(registered(t, entry(12).0, entry(12).1));
    assert(registered(t, entry(13).0, entry(13).1));
    assert(registered(t, entry(14).0, entry(14).1));
    assert(registered(t, entry(15).0, entry(15).1));
    assert(registered(t, entry(16).0, entry(16).1));
    assert(registered(t, entry(17).0, entry(17).1));
    assert(registered(t, entry(18).0, entry(18).1));
    assert(registered(t, entry(19).0, entry(19).1));
    assert(registered(t, entry(20).0, entry(20).1));
    assert(registered(t, entry(21).0, entry(21).1));
    assert(registered(t, entry(22).0, entry(22).1));
    assert(registered(t, entry(23).0, entry(23).1));
    assert(registered(t, entry(24).0, entry(24).1));
    assert(registered(t, entry(25).0, entry(25).1));
    assert(registered(t, entry(26).0, entry(26).1));
    assert(registered(t, entry(27).0, entry(27).1));
    assert(registered(t, entry(28).0, entry(28).1));
    assert(registered(t, entry(29).0, entry(29).1));
    assert(registered(t, entry(30).0, entry(30).1));
    assert(registered(t, entry(31).0, entry(31).1));
    assert(registered(t, entry(32).0, entry(32).1));
    assert(registered(t, entry(33).0, entry(33).1));
    assert(registered(t, entry(34).0, entry(34).1));
    assert(registered(t, entry(35).0, entry(35).1));
    assert(registered(t, entry(36).0, entry(36).1));
    assert(registered(t, entry(37).0, entry(37).1));
    assert(registered(t, entry(38).0, entry(38).1));
    assert(registered(t, entry(39).0, entry(39).1));
    assert(registered(t, entry(40).0, entry(40).1));
    assert(registered(t, entry(41).0, entry(41).1));
    assert(registered(t, entry(42).0, entry(42).1));
    assert(registered(t, entry(43).0, entry(43).1));
    assert(registered(t, entry(44).0, entry(44).1));
    assert(registered(t, entry(45).0, entry(45).1));
    assert(registered(t, entry(46).0, entry(46).1));
}

/// The arithmetic builtins compute what their names say, on the top value
/// `l` and the one under it `r`, wherever the result fits in `i64`: sum,
/// difference, product; and where the divisor is not zero, division that
/// rounds toward zero with a remainder of the dividend's sign.
pub proof fn law_arith(l: i64, r: i64)
    ensures
        i64::MIN <= l + r <= i64::MAX ==> arith(Builtin::Add, l, r) == Some((l + r) as i64),
        !(i64::MIN <= l + r <= i64::MAX) ==> arith(Builtin::Add, l, r) is None,
        i64::MIN <= l - r <= i64::MAX ==> arith(Builtin::Sub, l, r) == Some((l - r) as i64),
        !(i64::MIN <= l - r <= i64::MAX) ==> arith(Builtin::Sub, l, r) is None,
        i64::MIN <= l * r <= i64::MAX ==> arith(Builtin::Mul, l, r) == Some((l * r) as i64),
        !(i64::MIN <= l * r <= i64::MAX) ==> arith(Builtin::Mul, l, r) is None,
        r == 0 ==> arith(Builtin::Div, l, r) is None && arith(Builtin::Mod, l, r) is None,
        l >= 0 && r > 0 ==> arith(Builtin::Div, l, r) == Some((l / r) as i64)
            && arith(Builtin::Mod, l, r) == Some((l % r) as i64),
{
    if l >= 0 && r > 0 {
        lemma_nat_div(l as int, r as int);
    }
}

/// The arithmetic and comparison words take the top value `l` and the one
/// under it `r` and leave one integer in their place: `+ l r` is `l + r`,
/// `- l r` is `l - r`, `* l r` is `l * r` (where the result fits in `i64`),
/// and `< l r` is 1 where `l < r` and 0 where it is not, and so on.
pub proof fn law_arith_words(s: AEval, l: i64, r: i64)
    requires
        s.stack.len() >= 2,
        s.stack.last() == AVal::Int(l),
        s.stack[s.stack.len() - 2] == AVal::Int(r),
    ensures
        ({
            let rest = s.stack.drop_last().drop_last();
            &&& i64::MIN <= l + r <= i64::MAX ==> builtin_spec(Builtin::Add, s) == (
                with_stack(s, rest.push(AVal::Int((l + r) as i64))),
                true,
            )
            &&& i64::MIN <= l - r <= i64::MAX ==> builtin_spec(Builtin::Sub, s) == (
                with_stack(s, rest.push(AVal::Int((l - r) as i64))),
                true,
            )
            &&& i64::MIN <= l * r <= i64::MAX ==> builtin_spec(Builtin::Mul, s) == (
                with_stack(s, rest.push(AVal::Int((l * r) as i64))),
                true,
            )
            &&& builtin_spec(Builtin::Lt, s) == (with_stack(s, rest.push(AVal::Int(if l < r { 1 } else { 0 }))), true)
            &&& builtin_spec(Builtin::Leq, s) == (with_stack(s, rest.push(AVal::Int(if l <= r { 1 } else { 0 }))), true)
            &&& builtin_spec(Builtin::Gt, s) == (with_stack(s, rest.push(AVal::Int(if l > r { 1 } else { 0 }))), true)
            &&& builtin_spec(Builtin::Geq, s) == (with_stack(s, rest.push(AVal::Int(if l >= r { 1 } else { 0 }))), true)
        }),
{
    let rest = s.stack.drop_last().drop_last();
    assert forall|v: AVal| below(s, 2) + seq![v] =~= rest.push(v) by {}
    law_arith(l, r);
    assert(arg(s, 0) == AVal::Int(l) && arg(s, 1) == AVal::Int(r));
}

/// The arithmetic and comparison words fail on a value that is not an
/// integer, and leave the state as it was.
pub proof fn law_arith_words_need_ints(s: AEval)
    requires
        s.stack.len() >= 2,
        !(s.stack.last() is Int && s.stack[s.stack.len() - 2] is Int),
    ensures
        builtin_spec(Builtin::Add, s) == (s, false),
        builtin_spec(Builtin::Sub, s) == (s, false),
        builtin_spec(Builtin::Mul, s) == (s, false),
        builtin_spec(Builtin::Div, s) == (s, false),
        builtin_spec(Builtin::Mod, s) == (s, false),
        builtin_spec(Builtin::Lt, s) == (s, false),
        builtin_spec(Builtin::Leq, s) == (s, false),
        builtin_spec(Builtin::Gt, s) == (s, false),
        builtin_spec(Builtin::Geq, s) == (s, false),
{
}

/// Division of naturals: quotient and remainder put the dividend back
/// together, the remainder is below the divisor, and the quotient is no
/// larger than the dividend (at most half of it when the divisor is 2 or
/// more).
proof fn lemma_nat_div(x: int, d: int)
    requires
        x >= 0,
        d > 0,
    ensures
        x == d * (x / d) + x % d,
        0 <= x % d < d,
        0 <= x / d <= x,
        d >= 2 ==> 2 * (x / d) <= x,
{
    vstd::arithmetic::div_mod::lemma_fundamental_div_mod(x, d);
    vstd::arithmetic::div_mod::lemma_mod_bound(x, d);
    vstd::arithmetic::div_mod::lemma_div_pos_is_pos(x, d);
    let q = x / d;
    let m = x % d;
    assert(q <= x) by (nonlinear_arith)
        requires
            x == d * q + m,
            m >= 0,
            d >= 1,
            q >= 0,
    ;
    assert(d >= 2 ==> 2 * q <= x) by (nonlinear_arith)
        requires
            x == d * q + m,
            m >= 0,
            q >= 0,
    ;
}

/// `/` and `%` are Rust's: the quotient rounds toward zero and the
/// remainder has the sign of the dividend, so that quotient times divisor
/// plus remainder is the dividend and the remainder is smaller than the
/// divisor in size. Dividing `i64::MIN` by `-1` overflows, as does dividing
/// by zero, and both leave no result.
#[verifier::spinoff_prover]
pub proof fn law_div_mod_truncate(l: i64, r: i64)
    ensures
        l == i64::MIN && r == -1 ==> arith(Builtin::Div, l, r) is None && arith(Builtin::Mod, l, r) is None,
        r != 0 && !(l == i64::MIN && r == -1) ==> {
            &&& arith(Builtin::Div, l, r) is Some
            &&& arith(Builtin::Mod, l, r) is Some
            &&& arith(Builtin::Div, l, r)->0 * r + arith(Builtin::Mod, l, r)->0 == l
            &&& r > 0 ==> -r < arith(Builtin::Mod, l, r)->0 < r
            &&& r < 0 ==> r < arith(Builtin::Mod, l, r)->0 < -r
            &&& l >= 0 ==> arith(Builtin::Mod, l, r)->0 >= 0
            &&& l <= 0 ==> arith(Builtin::Mod, l, r)->0 <= 0
        },
{
    if r != 0 && !(l == i64::MIN && r == -1) {
        let x = l as int;
        let d = r as int;
        let q = arith(Builtin::Div, l, r);
        let m = arith(Builtin::Mod, l, r);
        if x > 0 && d > 0 {
            lemma_nat_div(x, d);
            assert(q == Some((x / d) as i64));
            assert(m == Some((x % d) as i64));
            let (a, b) = (x / d, x % d);
            assert(a * d + b == x) by (nonlinear_arith)
                requires
                    x == d * a + b,
            ;
            assert(q->0 == a && m->0 == b);
            assert(q->0 * r + m->0 == l);
        } else if x < 0 && d < 0 {
            lemma_nat_div(-x, -d);
            assert(x * -1 == -x && d * -1 == -d) by (nonlinear_arith);
            if d == -1 {
                assert(-x <= i64::MAX);
            }
            assert(q == Some(((-x) / (-d)) as i64));
            assert(m == Some((((-x) % (-d)) * -1) as i64));
            let (a, b) = ((-x) / (-d), (-x) % (-d));
            assert(a * d + (-b) == x) by (nonlinear_arith)
                requires
                    -x == (-d) * a + b,
            ;
            assert(q->0 == a && m->0 == -b);
            assert(q->0 * r + m->0 == l);
        } else if x < 0 {
            lemma_nat_div(-x, d);
            assert(x * -1 == -x) by (nonlinear_arith);
            assert(q == Some((((-x) / d) * -1) as i64));
            assert(m == Some((((-x) % d) * -1) as i64));
            let (a, b) = ((-x) / d, (-x) % d);
            assert((-a) * d + (-b) == x) by (nonlinear_arith)
                requires
                    -x == d * a + b,
            ;
            assert(q->0 == -a && m->0 == -b);
            assert(q->0 * r + m->0 == l);
        } else if x > 0 {
            lemma_nat_div(x, -d);
            assert(d * -1 == -d) by (nonlinear_arith);
            assert(q == Some(((x / (-d)) * -1) as i64));
            assert(m == Some((x % (-d)) as i64));
            let (a, b) = (x / (-d), x % (-d));
            assert((-a) * d + b == x) by (nonlinear_arith)
                requires
                    x == (-d) * a + b,
            ;
            assert(q->0 == -a && m->0 == b);
            assert(q->0 * r + m->0 == l);
        } else {
            assert(q == Some(0i64));
            assert(m == Some(0i64));
            assert(q->0 == 0 && m->0 == 0 && l == 0);
            assert(q->0 * r + m->0 == l) by (nonlinear_arith)
                requires
                    q->0 == 0 && m->0 == 0 && l == 0,
            ;
        }
    }
}

/// The comparisons say how the top value `l` compares to the one under it
/// `r`.
pub proof fn law_compare(l: i64, r: i64)
    ensures
        compare(Builtin::Lt, l, r) == (l < r),
        compare(Builtin::Leq, l, r) == (l <= r),
        compare(Builtin::Gt, l, r) == (l > r),
        compare(Builtin::Geq, l, r) == (l >= r),
{
}

/// A value counts as false exactly when it is the integer 0 or an empty
/// list.
pub open spec fn falsy(v: AVal) -> bool {
    v == AVal::Int(0) || v == AVal::List(Seq::empty())
}

/// The stack words: `drop` removes the top value, `dup` pushes a second copy
/// of it, and `swap` exchanges the top two values.
pub proof fn law_stack_words(s: AEval)
    requires
        s.stack.len() >= 2,
    ensures
        builtin_spec(Builtin::Drop, s) == (with_stack(s, s.stack.drop_last()), true),
        builtin_spec(Builtin::Dup, s) == (with_stack(s, s.stack.push(s.stack.last())), true),
        builtin_spec(Builtin::Swap, s) == (
            with_stack(s, s.stack.drop_last().drop_last().push(s.stack.last()).push(s.stack[s.stack.len() - 2])),
            true,
        ),
{
    assert(below(s, 1) + seq![] =~= s.stack.drop_last());
    assert(below(s, 1) + seq![arg(s, 0), arg(s, 0)] =~= s.stack.push(s.stack.last()));
    assert(below(s, 2) + seq![arg(s, 0), arg(s, 1)] =~= s.stack.drop_last().drop_last().push(
        s.stack.last(),
    ).push(s.stack[s.stack.len() - 2]));
}

/// The logic words on the top value `x` and the one under it `y`, with 1
/// for true and 0 for false: `=` and `<>` compare the two values, `&&`
/// leaves `x` where it is false and `y` otherwise, `||` leaves `x` where it
/// is true and `y` otherwise, `not` negates `x`; `true` and `false` push 1
/// and 0.
pub proof fn law_logic_words(s: AEval)
    requires
        s.stack.len() >= 2,
    ensures
        ({
            let x = s.stack.last();
            let y = s.stack[s.stack.len() - 2];
            let rest = s.stack.drop_last().drop_last();
            &&& builtin_spec(Builtin::Eq, s) == (with_stack(s, rest.push(AVal::Int(if x == y { 1 } else { 0 }))), true)
            &&& builtin_spec(Builtin::Neq, s) == (with_stack(s, rest.push(AVal::Int(if x == y { 0 } else { 1 }))), true)
            &&& builtin_spec(Builtin::And, s) == (with_stack(s, rest.push(if falsy(x) { x } else { y })), true)
            &&& builtin_spec(Builtin::Or, s) == (with_stack(s, rest.push(if falsy(x) { y } else { x })), true)
            &&& builtin_spec(Builtin::Not, s) == (
                with_stack(s, s.stack.drop_last().push(AVal::Int(if falsy(x) { 1 } else { 0 }))),
                true,
            )
            &&& builtin_spec(Builtin::True, s) == (with_stack(s, s.stack.push(AVal::Int(1))), true)
            &&& builtin_spec(Builtin::False, s) == (with_stack(s, s.stack.push(AVal::Int(0))), true)
        }),
{
    let x = s.stack.last();
    let y = s.stack[s.stack.len() - 2];
    assert(x.truthy() == !falsy(x)) by {
        if let AVal::List(es) = x {
            if es.len() == 0 {
                assert(es =~= Seq::<AVal>::empty());
            }
        }
    }
    let rest = s.stack.drop_last().drop_last();
    assert(below(s, 2) =~= rest);
    assert(below(s, 1) =~= s.stack.drop_last());
    assert(below(s, 0) =~= s.stack);
    assert forall|v: AVal| below(s, 2) + seq![v] =~= rest.push(v) by {}
    assert forall|v: AVal| below(s, 1) + seq![v] =~= s.stack.drop_last().push(v) by {}
    assert forall|v: AVal| below(s, 0) + seq![v] =~= s.stack.push(v) by {}
}

/// The words that measure and grow lists, on the top value `x` and the one
/// under it `y`: `length` gives the number of values of the list `x`,
/// `append` joins the list `x` and the list `y` after it, `push-back` and
/// `push-front` put `x` at the end or the front of the list `y`. A value of
/// the wrong kind leaves the state as it was and fails.
pub proof fn law_list_building(s: AEval)
    requires
        s.stack.len() >= 2,
    ensures
        ({
            let x = s.stack.last();
            let y = s.stack[s.stack.len() - 2];
            let rest = s.stack.drop_last().drop_last();
            &&& x is List && x->List_0.len() <= i64::MAX ==> builtin_spec(Builtin::Length, s) == (
                with_stack(s, s.stack.drop_last().push(AVal::Int(x->List_0.len() as i64))),
                true,
            )
            &&& !(x is List) ==> builtin_spec(Builtin::Length, s) == (s, false)
            &&& x is List && y is List ==> builtin_spec(Builtin::Append, s) == (
                with_stack(s, rest.push(AVal::List(x->List_0 + y->List_0))),
                true,
            )
            &&& !(x is List && y is List) ==> builtin_spec(Builtin::Append, s) == (s, false)
            &&& y is List ==> builtin_spec(Builtin::PushBack, s) == (
                with_stack(s, rest.push(AVal::List(y->List_0.push(x)))),
                true,
            )
            &&& y is List ==> builtin_spec(Builtin::PushFront, s) == (
                with_stack(s, rest.push(AVal::List(seq![x] + y->List_0))),
                true,
            )
            &&& !(y is List) ==> builtin_spec(Builtin::PushBack, s) == (s, false)
                && builtin_spec(Builtin::PushFront, s) == (s, false)
        }),
{
    let rest = s.stack.drop_last().drop_last();
    assert forall|v: AVal| below(s, 2) + seq![v] =~= rest.push(v) by {}
    assert forall|v: AVal| below(s, 1) + seq![v] =~= s.stack.drop_last().push(v) by {}
}

/// `nth`, `remove-nth` and `swap-remove-nth` on the index `i` on top and the
/// list `es` under it. An index counts from the front when it is not
/// negative and from the back when it is (`-1` is the last value); `nth`
/// gives the value there, `remove-nth` the list without it, and
/// `swap-remove-nth` the list without it where the last value has taken its
/// place. An index outside the list leaves the state as it was and fails.
pub proof fn law_index_words(s: AEval, i: i64, es: Seq<AVal>)
    requires
        s.stack.len() >= 2,
        s.stack.last() == AVal::Int(i),
        s.stack[s.stack.len() - 2] == AVal::List(es),
        es.len() <= i64::MAX,
    ensures
        ({
            let k = if i < 0 { es.len() + i } else { i as int };
            let rest = s.stack.drop_last().drop_last();
            &&& 0 <= k < es.len() ==> {
                &&& builtin_spec(Builtin::Nth, s) == (with_stack(s, rest.push(es[k])), true)
                &&& builtin_spec(Builtin::RemoveNth, s) == (
                    with_stack(s, rest.push(AVal::List(es.subrange(0, k) + es.subrange(k + 1, es.len() as int)))),
                    true,
                )
                &&& builtin_spec(Builtin::SwapRemoveNth, s) == (
                    with_stack(
                        s,
                        rest.push(AVal::List(
                            if k == es.len() - 1 {
                                es.subrange(0, k)
                            } else {
                                es.subrange(0, k).push(es.last()) + es.subrange(k + 1, es.len() - 1)
                            },
                        )),
                    ),
                    true,
                )
            }
            &&& !(0 <= k < es.len()) ==> {
                &&& builtin_spec(Builtin::Nth, s) == (s, false)
                &&& builtin_spec(Builtin::RemoveNth, s) == (s, false)
                &&& builtin_spec(Builtin::SwapRemoveNth, s) == (s, false)
            }
        }),
{
    let k = if i < 0 { es.len() + i } else { i as int };
    let rest = s.stack.drop_last().drop_last();
    assert(((es.len() as i64) as int) == es.len());
    assert forall|v: AVal| below(s, 2) + seq![v] =~= rest.push(v) by {}
    if 0 <= k < es.len() {
        assert(es.remove(k) =~= es.subrange(0, k) + es.subrange(k + 1, es.len() as int));
        if k != es.len() - 1 {
            assert(es.update(k, es.last()).drop_last() =~= es.subrange(0, k).push(es.last()) + es.subrange(
                k + 1,
                es.len() - 1,
            ));
        } else {
            assert(es.drop_last() =~= es.subrange(0, k));
        }
    }
}

/// `set-nth` and `insert-before` on the index `i` on top, a value `v` under
/// it and the list `es` under that. Indices count as for `nth`; `set-nth`
/// puts `v` in place of the value at the index, `insert-before` puts `v`
/// before it, where the position just past the end is allowed too (`-1` on
/// an empty list means that position). An index outside the list leaves the
/// state as it was and fails.
pub proof fn law_update_words(s: AEval, i: i64, es: Seq<AVal>)
    requires
        s.stack.len() >= 3,
        s.stack.last() == AVal::Int(i),
        s.stack[s.stack.len() - 3] == AVal::List(es),
        es.len() <= i64::MAX,
    ensures
        ({
            let v = s.stack[s.stack.len() - 2];
            let rest = s.stack.subrange(0, s.stack.len() - 3);
            let k = if i < 0 { es.len() + i } else { i as int };
            let p = if i == -1 && es.len() == 0 { 0 } else { k };
            &&& 0 <= k < es.len() ==> builtin_spec(Builtin::SetNth, s) == (
                with_stack(s, rest.push(AVal::List(es.subrange(0, k).push(v) + es.subrange(k + 1, es.len() as int)))),
                true,
            )
            &&& !(0 <= k < es.len()) ==> builtin_spec(Builtin::SetNth, s) == (s, false)
            &&& 0 <= p <= es.len() ==> builtin_spec(Builtin::InsertBefore, s) == (
                with_stack(s, rest.push(AVal::List(es.subrange(0, p).push(v) + es.subrange(p, es.len() as int)))),
                true,
            )
            &&& !(0 <= p <= es.len()) ==> builtin_spec(Builtin::InsertBefore, s) == (s, false)
        }),
{
    let v = s.stack[s.stack.len() - 2];
    let rest = s.stack.subrange(0, s.stack.len() - 3);
    let k = if i < 0 { es.len() + i } else { i as int };
    let p = if i == -1 && es.len() == 0 { 0 } else { k };
    assert(((es.len() as i64) as int) == es.len());
    assert(arg(s, 1) == v);
    assert forall|w: AVal| below(s, 3) + seq![w] =~= rest.push(w) by {}
    if 0 <= k < es.len() {
        assert(es.update(k, v) =~= es.subrange(0, k).push(v) + es.subrange(k + 1, es.len() as int));
    }
    if 0 <= p <= es.len() {
        assert(es.insert(p, v) =~= es.subrange(0, p).push(v) + es.subrange(p, es.len() as int));
    }
}

/// `type-of` names the kind of its argument: the keyword it leaves is the
/// one a new symbol table interns as `int`, `symbol`, `keyword` or `list`.
pub proof fn law_type_of_names_kind(v: AVal)
    ensures
        type_kw(v) is Kw,
        1 <= type_kw(v)->Kw_0 <= reserved_names().len(),
        v is Int ==> reserved_names()[type_kw(v)->Kw_0 - 1] == "int"@,
        v is Sym ==> reserved_names()[type_kw(v)->Kw_0 - 1] == "symbol"@,
        v is Kw ==> reserved_names()[type_kw(v)->Kw_0 - 1] == "keyword"@,
        v is List ==> reserved_names()[type_kw(v)->Kw_0 - 1] == "list"@,
{
}

/// The words that inspect the top value `x`: `type-of` replaces it by the
/// keyword of its kind, `int?`, `symbol?`, `keyword?` and `list?` by 1 where
/// it is of that kind and 0 where it is not, and `quote` wraps it in a list
/// of one value.
pub proof fn law_type_words(s: AEval)
    requires
        s.stack.len() >= 1,
    ensures
        ({
            let x = s.stack.last();
            let rest = s.stack.drop_last();
            &&& builtin_spec(Builtin::TypeOf, s) == (with_stack(s, rest.push(type_kw(x))), true)
            &&& builtin_spec(Builtin::IsInt, s) == (with_stack(s, rest.push(AVal::Int(if x is Int { 1 } else { 0 }))), true)
            &&& builtin_spec(Builtin::IsSymbol, s) == (with_stack(s, rest.push(AVal::Int(if x is Sym { 1 } else { 0 }))), true)
            &&& builtin_spec(Builtin::IsKeyword, s) == (with_stack(s, rest.push(AVal::Int(if x is Kw { 1 } else { 0 }))), true)
            &&& builtin_spec(Builtin::IsList, s) == (with_stack(s, rest.push(AVal::Int(if x is List { 1 } else { 0 }))), true)
            &&& builtin_spec(Builtin::Quote, s) == (with_stack(s, rest.push(AVal::List(seq![x]))), true)
        }),
{
    assert forall|v: AVal| below(s, 1) + seq![v] =~= s.stack.drop_last().push(v) by {}
}

/// `head-tail` on a nonempty list leaves its tail with its head on top;
/// `last-init` leaves the list without its last value, with that value on
/// top.
pub proof fn law_head_tail_last_init(s: AEval)
    requires
        s.stack.len() >= 1,
        arg(s, 0) is List,
        arg(s, 0).elems().len() > 0,
    ensures
        builtin_spec(Builtin::HeadTail, s) == (
            with_stack(s, below(s, 1) + seq![AVal::List(arg(s, 0).elems().drop_first()), arg(s, 0).elems()[0]]),
            true,
        ),
        builtin_spec(Builtin::LastInit, s) == (
            with_stack(s, below(s, 1) + seq![AVal::List(arg(s, 0).elems().drop_last()), arg(s, 0).elems().last()]),
            true,
        ),
        builtin_spec(Builtin::Head, s) == (with_stack(s, below(s, 1).push(arg(s, 0).elems()[0])), true),
        builtin_spec(Builtin::Tail, s) == (with_stack(s, below(s, 1).push(AVal::List(arg(s, 0).elems().drop_first()))), true),
        builtin_spec(Builtin::Last, s) == (with_stack(s, below(s, 1).push(arg(s, 0).elems().last())), true),
        builtin_spec(Builtin::Init, s) == (with_stack(s, below(s, 1).push(AVal::List(arg(s, 0).elems().drop_last()))), true),
{
    assert(below(s, 1) + seq![arg(s, 0).elems()[0]] =~= below(s, 1).push(arg(s, 0).elems()[0]));
    assert(below(s, 1) + seq![arg(s, 0).elems().last()] =~= below(s, 1).push(arg(s, 0).elems().last()));
    assert(below(s, 1) + seq![AVal::List(arg(s, 0).elems().drop_first())] =~= below(s, 1).push(AVal::List(arg(s, 0).elems().drop_first())));
    assert(below(s, 1) + seq![AVal::List(arg(s, 0).elems().drop_last())] =~= below(s, 1).push(AVal::List(arg(s, 0).elems().drop_last())));
}

/// The characters that separate atoms are exactly those of Unicode's
/// `White_Space` property (those for which `char::is_whitespace` holds):
/// tab, line feed, vertical tab, form feed, carriage return, space, next
/// line, no-break space, ogham space mark, the spaces from en quad to hair
/// space, line and paragraph separator, narrow no-break space, medium
/// mathematical space and ideographic space.
pub proof fn law_whitespace_chars(c: char)
    ensures
        spec_is_whitespace(c) <==> (c == '\t' || c == '\n' || c == '\u{b}' || c == '\u{c}' || c == '\r'
            || c == ' ' || c == '\u{85}' || c == '\u{a0}' || c == '\u{1680}' || ('\u{2000}' <= c
            && c <= '\u{200a}') || c == '\u{2028}' || c == '\u{2029}' || c == '\u{202f}' || c
            == '\u{205f}' || c == '\u{3000}'),
{
}

/// Texts that agree on which positions are delimiters and agree everywhere
/// else have atoms ending at the same places.
proof fn lemma_token_end_same(cs: Seq<char>, cs2: Seq<char>, i: int, j: int)
    requires
        cs2 == cs.update(i, ' '),
        0 <= i < cs.len(),
        spec_is_whitespace(cs[i]),
    ensures
        token_end(cs, j) == token_end(cs2, j),
    decreases cs.len() - j,
{
    if 0 <= j < cs.len() {
        assert(is_delim(cs[j]) == is_delim(cs2[j]));
        if !is_delim(cs[j]) {
            lemma_token_end_same(cs, cs2, i, j + 1);
        }
    }
}

proof fn lemma_parse_seq_same(cs: Seq<char>, cs2: Seq<char>, i: int, j: int, nested: bool)
    requires
        cs2 == cs.update(i, ' '),
        0 <= i < cs.len(),
        spec_is_whitespace(cs[i]),
        0 <= j <= cs.len(),
    ensures
        parse_seq(cs, j, nested) == parse_seq(cs2, j, nested),
    decreases cs.len() - j,
{
    if j < cs.len() {
        if j == i {
            lemma_parse_seq_same(cs, cs2, i, j + 1, nested);
        } else {
            assert(cs2[j] == cs[j]);
            if cs[j] == '{' {
                lemma_parse_seq_same(cs, cs2, i, j + 1, true);
                lemma_parse_seq_pos(cs, j + 1, true);
                let (r1, _) = parse_seq(cs, j + 1, true);
                if let Ok((_, k)) = r1 {
                    lemma_parse_seq_same(cs, cs2, i, k, nested);
                }
            } else if cs[j] == '}' {
            } else if spec_is_whitespace(cs[j]) {
                lemma_parse_seq_same(cs, cs2, i, j + 1, nested);
            } else {
                let kw = cs[j] == ':';
                let start = if kw { j + 1 } else { j };
                lemma_token_end(cs, start);
                lemma_token_end_same(cs, cs2, i, start);
                let e = token_end(cs, start);
                assert(cs.subrange(start, e) =~= cs2.subrange(start, e)) by {
                    assert forall|k: int| start <= k < e implies cs[k] == cs2[k] by {
                        if k == i {
                            assert(!is_delim(cs[k]));
                        }
                    }
                }
                if j < e <= cs.len() {
                    lemma_parse_seq_same(cs, cs2, i, e, nested);
                }
            }
        }
    }
}

/// Any whitespace character separates as a space does: putting a space in
/// its place leaves the parse, values and errors, unchanged.
pub proof fn law_whitespace_as_space(cs: Seq<char>, i: int)
    requires
        0 <= i < cs.len(),
        spec_is_whitespace(cs[i]),
    ensures
        spec_parse(cs.update(i, ' ')) == spec_parse(cs),
{
    lemma_parse_seq_same(cs, cs.update(i, ' '), i, 0, false);
}

/// The analysis never gains fuel.
proof fn lemma_sym_effect_fuel(t: Seq<Seq<char>>, x: u64, st: Seq<AVirtual>, fuel: nat)
    ensures
        sym_effect(t, x, st, fuel) matches Ok((_, f)) ==> f <= fuel,
    decreases fuel, 0nat,
{
    let m = info_for(t);
    if m.contains_key(x) && crate::analysis::usage_accepts(m[x].ins, st)
        && crate::analysis::evaluates_code(m[x]) && crate::analysis::concrete_code(st.last()) && fuel > 0 {
        lemma_analyze_fuel(t, st.last()->Concrete_0.elems(), st.drop_last(), (fuel - 1) as nat);
    }
}

proof fn lemma_analyze_fuel(t: Seq<Seq<char>>, prog: Seq<AVal>, st: Seq<AVirtual>, fuel: nat)
    ensures
        analyze_spec(t, prog, st, fuel) matches Ok((_, f)) ==> f <= fuel,
    decreases fuel, prog.len(),
{
    if prog.len() > 0 {
        if let AVal::Sym(x) = prog.last() {
            lemma_sym_effect_fuel(t, x, st, fuel);
        }
        let stepped = match prog.last() {
            AVal::Sym(x) => sym_effect(t, x, st, fuel),
            v => Ok((st.push(AVirtual::Concrete(v)), fuel)),
        };
        if let Ok((st2, f2)) = stepped {
            lemma_analyze_fuel(t, prog.drop_last(), st2, if f2 <= fuel { f2 } else { fuel });
        }
    }
}

/// Analysing `a + b` analyses `b` (which runs first), then `a` from where
/// that left off.
proof fn lemma_analyze_concat(t: Seq<Seq<char>>, a: Seq<AVal>, b: Seq<AVal>, st: Seq<AVirtual>, fuel: nat)
    ensures
        analyze_spec(t, a + b, st, fuel) == match analyze_spec(t, b, st, fuel) {
            Ok((st2, f2)) => analyze_spec(t, a, st2, f2),
            Err(e) => Err(e),
        },
    decreases b.len(),
{
    if b.len() == 0 {
        assert(a + b =~= a);
    } else {
        assert((a + b).last() == b.last());
        assert((a + b).drop_last() =~= a + b.drop_last());
        let stepped = match b.last() {
            AVal::Sym(x) => sym_effect(t, x, st, fuel),
            v => Ok((st.push(AVirtual::Concrete(v)), fuel)),
        };
        if let AVal::Sym(x) = b.last() {
            lemma_sym_effect_fuel(t, x, st, fuel);
        }
        if let Ok((st2, f2)) = stepped {
            lemma_analyze_concat(t, a, b.drop_last(), st2, f2);
        }
    }
}

/// While fuel is left, `unquote` on a list that the program pushes is
/// analysed as the list's values put in place of the list and the
/// `unquote`, with one unit of fuel less: each literal piece of code given
/// to `unquote` is followed, at the cost of exactly one unit.
pub proof fn law_unquote_splices_code(
    t: Seq<Seq<char>>,
    rest: Seq<AVal>,
    code: Seq<AVal>,
    u: u64,
    st: Seq<AVirtual>,
    fuel: nat,
)
    requires
        no_repeats(t),
        t.len() < u64::MAX,
        1 <= u <= t.len(),
        t[u - 1] == "unquote"@,
        fuel > 0,
    ensures
        analyze_spec(t, rest.push(AVal::Sym(u)).push(AVal::List(code)), st, fuel)
            == analyze_spec(t, rest + code, st, (fuel - 1) as nat),
{
    let q = rest.push(AVal::Sym(u)).push(AVal::List(code));
    let q1 = rest.push(AVal::Sym(u));
    let st1 = st.push(AVirtual::Concrete(AVal::List(code)));
    assert(q.drop_last() == q1);
    assert(q1.drop_last() =~= rest);
    assert(t.contains(info_entry(21).0)) by {
        assert(t[u - 1] == info_entry(21).0);
    }
    lemma_info_map_at(t, NUM_INFO as int, 21);
    lemma_sym_of_at(t, u - 1);
    assert(info_for(t)[u] == info_entry(21).1);
    assert(crate::analysis::usage_accepts(info_entry(21).1.ins, st1)) by {
        assert(crate::analysis::last_n(st1, 1)[0] == st1.last());
    }
    assert(st1.drop_last() =~= st);
    assert(st1.last() == AVirtual::Concrete(AVal::List(code)));
    assert(crate::analysis::evaluates_code(info_entry(21).1));
    assert(crate::analysis::concrete_code(st1.last()));
    assert(sym_effect(t, u, st1, fuel) == analyze_spec(t, code, st, (fuel - 1) as nat));
    // The list is pushed first, with the fuel unchanged.
    assert(q.last() == AVal::List(code));
    assert(analyze_spec(t, q, st, fuel) == analyze_spec(t, q1, st1, fuel));
    assert(q1.last() == AVal::Sym(u));
    lemma_analyze_fuel(t, code, st, (fuel - 1) as nat);
    lemma_analyze_concat(t, rest, code, st, (fuel - 1) as nat);
    match analyze_spec(t, code, st, (fuel - 1) as nat) {
        Ok((st2, f2)) => {
            assert(f2 <= fuel);
            assert(analyze_spec(t, q1, st1, fuel) == analyze_spec(t, rest, st2, f2));
        },
        Err(e) => {
            assert(analyze_spec(t, q1, st1, fuel) == Err::<(Seq<AVirtual>, nat), AError>(e));
        },
    }
}

} // verus!
