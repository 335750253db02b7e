use vstd::prelude::*;
use crate::val::{AVal, Ref, SymbolTable, Val, Vals, vals_view, group_vals_view, chars_of, string_of, LEAVE_SCOPE_ID};
use crate::eval::{Cont, Continuation};

verus! {

/// The decimal digit `d` (below ten).
pub open spec fn digit_char(d: nat) -> char {
    if d == 0 { '0' }
    else if d == 1 { '1' }
    else if d == 2 { '2' }
    else if d == 3 { '3' }
    else if d == 4 { '4' }
    else if d == 5 { '5' }
    else if d == 6 { '6' }
    else if d == 7 { '7' }
    else if d == 8 { '8' }
    else { '9' }
}

/// The decimal digits of `n`, without leading zeros.
pub open spec fn digits(n: nat) -> Seq<char>
    decreases n,
{
    if n < 10 {
        seq![digit_char(n)]
    } else {
        digits(n / 10).push(digit_char(n % 10))
    }
}

/// An integer in decimal, with a minus sign when negative.
pub open spec fn show_int(i: i64) -> Seq<char> {
    if i < 0 {
        seq!['-'] + digits((-i) as nat)
    } else {
        digits(i as nat)
    }
}

/// The position after the last `%{leave-scope}` of the values, or 0.
pub open spec fn scope_start(vs: Seq<AVal>) -> int
    decreases vs.len(),
{
    if vs.len() == 0 {
        0
    } else if vs.last() == AVal::Sym(LEAVE_SCOPE_ID) {
        vs.len() as int
    } else {
        scope_start(vs.drop_last())
    }
}

/// A value as text: an integer in decimal, a symbol by its name, a keyword by
/// its name after `:`, and a list as a program (`show_program`).
pub open spec fn show_value(t: Seq<Seq<char>>, v: AVal) -> Seq<char>
    decreases v, 0nat,
{
    match v {
        AVal::Int(i) => show_int(i),
        AVal::Sym(x) => t[x - 1],
        AVal::Kw(x) => seq![':'] + t[x - 1],
        AVal::List(vs) => {
            let start = scope_start(vs);
            (if start > 0 { seq!['.', '.', '.', ' '] } else { seq![] }) + show_items(t, vs, start, vs.len() as int)
        },
    }
}

/// The values `vs[from..to]` as text, each followed by a space, with a space
/// between one and the next.
pub open spec fn show_items(t: Seq<Seq<char>>, vs: Seq<AVal>, from: int, to: int) -> Seq<char>
    decreases vs, to as nat,
{
    if from < 0 || to > vs.len() || to <= from {
        seq![]
    } else {
        let sep = if to - 1 > from { seq![' '] } else { seq![] };
        show_items(t, vs, from, to - 1) + sep + show_value(t, vs[to - 1]) + seq![' ']
    }
}

/// A program as text: what follows its last `%{leave-scope}` (the code of the
/// current scope), after `... ` when something was left out.
pub open spec fn show_program(t: Seq<Seq<char>>, vs: Seq<AVal>) -> Seq<char> {
    show_value(t, AVal::List(vs))
}

/// Every symbol and keyword in the value names one of `n` strings.
pub open spec fn names_valid(v: AVal, n: nat) -> bool
    decreases v,
{
    match v {
        AVal::Sym(x) => 1 <= x <= n,
        AVal::Kw(x) => 1 <= x <= n,
        AVal::List(vs) => forall|k: int| 0 <= k < vs.len() ==> names_valid(#[trigger] vs[k], n),
        _ => true,
    }
}

pub open spec fn all_names_valid(vs: Seq<AVal>, n: nat) -> bool {
    forall|k: int| 0 <= k < vs.len() ==> names_valid(#[trigger] vs[k], n)
}

fn digit_exec(d: u64) -> (c: char)
    requires
        d < 10,
    ensures
        c == digit_char(d as nat),
{
    if d == 0 { '0' }
    else if d == 1 { '1' }
    else if d == 2 { '2' }
    else if d == 3 { '3' }
    else if d == 4 { '4' }
    else if d == 5 { '5' }
    else if d == 6 { '6' }
    else if d == 7 { '7' }
    else if d == 8 { '8' }
    else { '9' }
}

fn push_digits(out: &mut Vec<char>, n: u64)
    ensures
        final(out)@ == old(out)@ + digits(n as nat),
    decreases n,
{
    if n >= 10 {
        push_digits(out, n / 10);
    }
    out.push(digit_exec(n % 10));
    assert(final(out)@ =~= old(out)@ + digits(n as nat));
}

fn push_int(out: &mut Vec<char>, i: i64)
    ensures
        final(out)@ == old(out)@ + show_int(i),
{
    if i < 0 {
        out.push('-');
        let m: u64 = if i == i64::MIN {
            9223372036854775808u64
        } else {
            (-i) as u64
        };
        push_digits(out, m);
        assert(final(out)@ =~= old(out)@ + show_int(i));
    } else {
        push_digits(out, i as u64);
    }
}

fn push_str(out: &mut Vec<char>, s: &str)
    ensures
        final(out)@ == old(out)@ + s@,
{
    let mut cs = chars_of(s);
    out.append(&mut cs);
}

/// Appends the text of a value.
fn push_value(out: &mut Vec<char>, t: &SymbolTable, v: &Val)
    requires
        names_valid(v@, t@.len()),
    ensures
        final(out)@ == old(out)@ + show_value(t@, v@),
    decreases v@,
{
    match v {
        Val::Int(i) => push_int(out, *i),
        Val::Sym(x) => push_str(out, t.str(*x)),
        Val::Kw(x) => {
            out.push(':');
            push_str(out, t.str(*x));
            assert(final(out)@ =~= old(out)@ + show_value(t@, v@));
        },
        _ => {
            let ghost vs = v@.elems();
            let n = v.len();
            let mut start: usize = n;
            assert(vs.subrange(0, n as int) =~= vs);
            while start > 0 && !is_leave_scope(v.nth(start - 1))
                invariant
                    v@ is List,
                    vs == v@.elems(),
                    n == vs.len(),
                    start <= n,
                    scope_start(vs) == scope_start(vs.subrange(0, start as int)),
                decreases start,
            {
                assert(vs.subrange(0, start as int).drop_last() =~= vs.subrange(0, start - 1));
                start = start - 1;
            }
            proof {
                if start > 0 {
                    assert(vs.subrange(0, start as int).last() == vs[start - 1]);
                } else {
                    assert(vs.subrange(0, 0) =~= Seq::<AVal>::empty());
                }
                assert(vs.subrange(0, n as int) =~= vs);
            }
            let ghost base = old(out)@ + (if start > 0 { seq!['.', '.', '.', ' '] } else { Seq::<char>::empty() });
            if start > 0 {
                out.push('.');
                out.push('.');
                out.push('.');
                out.push(' ');
            }
            assert(out@ =~= base + show_items(t@, vs, start as int, start as int));
            let mut i: usize = start;
            while i < n
                invariant
                    v@ is List,
                    vs == v@.elems(),
                    n == vs.len(),
                    start <= i <= n,
                    names_valid(v@, t@.len()),
                    out@ == base + show_items(t@, vs, start as int, i as int),
                decreases n - i,
            {
                let ghost before = out@;
                if i > start {
                    out.push(' ');
                }
                proof {
                    assert(decreases_to!(v@ => vs));
                    assert(decreases_to!(vs => vs[i as int]));
                    assert(names_valid(vs[i as int], t@.len()));
                }
                push_value(out, t, v.nth(i));
                out.push(' ');
                i = i + 1;
                assert(out@ =~= base + show_items(t@, vs, start as int, i as int));
            }
            assert(show_value(t@, v@) == (if start > 0 { seq!['.', '.', '.', ' '] } else { Seq::<char>::empty() })
                + show_items(t@, vs, start as int, n as int));
            assert(final(out)@ =~= old(out)@ + show_value(t@, v@));
        },
    }
}

fn is_leave_scope(v: &Val) -> (r: bool)
    ensures
        r == (v@ == AVal::Sym(LEAVE_SCOPE_ID)),
{
    match v {
        Val::Sym(x) => x.0 == LEAVE_SCOPE_ID,
        _ => false,
    }
}

/// A value shown with the names of a symbol table.
pub struct Value<'a>(pub &'a SymbolTable, pub &'a Val);

/// A program shown with the names of a symbol table.
pub struct Program<'a>(pub &'a SymbolTable, pub &'a Vals);

/// Shared code shown with the names of a symbol table.
pub struct RefProgram<'a>(pub &'a SymbolTable, pub &'a Ref);

/// A stack shown with the names of a symbol table, top first.
pub struct Values<'a>(pub &'a SymbolTable, pub &'a [Val]);

/// The program still to run, shown with the names of a symbol table.
pub struct ContView<'a>(pub &'a SymbolTable, pub &'a Continuation);

impl<'a> Value<'a> {
    pub fn show(&self) -> (r: String)
        requires
            names_valid(self.1@, self.0@.len()),
        ensures
            r@ == show_value(self.0@, self.1@),
    {
        let mut out: Vec<char> = Vec::new();
        push_value(&mut out, self.0, self.1);
        assert(out@ =~= show_value(self.0@, self.1@));
        string_of(out.as_slice())
    }
}

/// An owned list with the same values.
fn copy_vals(vs: &Vals) -> (r: Vals)
    ensures
        vals_view(r@) == vals_view(vs@),
{
    broadcast use group_vals_view;

    let mut r: Vals = std::collections::VecDeque::new();
    let n = vs.len();
    let mut i: usize = 0;
    while i < n
        invariant
            n == vs@.len(),
            i <= n,
            vals_view(r@) =~= vals_view(vs@).subrange(0, i as int),
        decreases n - i,
    {
        let v = vs[i].copy();
        let ghost prev = r@;
        r.push_back(v);
        proof {
            crate::val::lemma_vals_view_push(prev, v);
            assert(vals_view(vs@).subrange(0, i + 1) =~= vals_view(vs@).subrange(0, i as int).push(v@));
        }
        i = i + 1;
    }
    assert(vals_view(vs@).subrange(0, n as int) =~= vals_view(vs@));
    r
}

impl<'a> Program<'a> {
    pub fn show(&self) -> (r: String)
        requires
            all_names_valid(vals_view(self.1@), self.0@.len()),
        ensures
            r@ == show_program(self.0@, vals_view(self.1@)),
    {
        broadcast use group_vals_view;

        let v = Val::List(copy_vals(self.1));
        Value(self.0, &v).show()
    }
}

impl<'a> RefProgram<'a> {
    pub fn show(&self) -> (r: String)
        requires
            all_names_valid(self.1@, self.0@.len()),
        ensures
            r@ == show_program(self.0@, self.1@),
    {
        let v = Val::Ref(self.1.share());
        Value(self.0, &v).show()
    }
}

impl<'a> Values<'a> {
    /// The values from the top of the stack down, each followed by a space,
    /// with a space between one and the next.
    pub fn show(&self) -> (r: String)
        requires
            all_names_valid(vals_view(self.1@), self.0@.len()),
        ensures
            r@ == show_items(self.0@, vals_view(self.1@).reverse(), 0, self.1@.len() as int),
    {
        broadcast use group_vals_view;

        let ghost vs = vals_view(self.1@).reverse();
        let n = self.1.len();
        let mut out: Vec<char> = Vec::new();
        let mut i: usize = 0;
        assert(out@ =~= show_items(self.0@, vs, 0, 0));
        while i < n
            invariant
                n == self.1@.len(),
                vs == vals_view(self.1@).reverse(),
                i <= n,
                all_names_valid(vals_view(self.1@), self.0@.len()),
                out@ == show_items(self.0@, vs, 0, i as int),
            decreases n - i,
        {
            if i > 0 {
                out.push(' ');
            }
            assert(vs[i as int] == self.1@[n - 1 - i]@);
            assert(names_valid(vals_view(self.1@)[n - 1 - i], self.0@.len()));
            push_value(&mut out, self.0, &self.1[n - 1 - i]);
            out.push(' ');
            i = i + 1;
            assert(out@ =~= show_items(self.0@, vs, 0, i as int));
        }
        string_of(out.as_slice())
    }
}

/// The values of a chunk (none for a scope exit).
pub open spec fn chunk_items(c: Cont) -> Seq<AVal> {
    match c {
        Cont::Ref(r) => r@,
        Cont::LeaveScope => Seq::empty(),
    }
}

/// The position after the last scope exit among the chunks, or 0.
pub open spec fn chunks_start(cs: Seq<Cont>) -> int
    decreases cs.len(),
{
    if cs.len() == 0 {
        0
    } else if cs.last() is LeaveScope {
        cs.len() as int
    } else {
        chunks_start(cs.drop_last())
    }
}

/// The values, each followed by a space.
pub open spec fn show_run(t: Seq<Seq<char>>, vs: Seq<AVal>) -> Seq<char>
    decreases vs.len(),
{
    if vs.len() == 0 {
        seq![]
    } else {
        show_run(t, vs.drop_last()) + show_value(t, vs.last()) + seq![' ']
    }
}

/// The chunks `cs[from..to]`, with a space between one and the next.
pub open spec fn show_chunks(t: Seq<Seq<char>>, cs: Seq<Cont>, from: int, to: int) -> Seq<char>
    decreases to - from,
{
    if to <= from {
        seq![]
    } else {
        let sep = if to - 1 > from { seq![' '] } else { seq![] };
        show_chunks(t, cs, from, to - 1) + sep + show_run(t, chunk_items(cs[to - 1]))
    }
}

/// The text of the program still to run: a plain program as by
/// `show_program`; chunks from after the last scope exit on, after `...`
/// when something was left out.
pub open spec fn show_cont(t: Seq<Seq<char>>, c: Continuation) -> Seq<char> {
    match c {
        Continuation::Vals(vs) => show_program(t, vals_view(vs@)),
        Continuation::Chunks(cs) => {
            let start = chunks_start(cs@);
            (if start > 0 { seq!['.', '.', '.'] } else { seq![] }) + show_chunks(t, cs@, start, cs@.len() as int)
        },
    }
}

/// Every value of the program names only interned strings.
pub open spec fn cont_names_valid(c: Continuation, n: nat) -> bool {
    match c {
        Continuation::Vals(vs) => all_names_valid(vals_view(vs@), n),
        Continuation::Chunks(cs) => forall|k: int| 0 <= k < cs@.len() ==> all_names_valid(#[trigger] chunk_items(cs@[k]), n),
    }
}

impl<'a> ContView<'a> {
    pub fn show(&self) -> (r: String)
        requires
            cont_names_valid(*self.1, self.0@.len()),
        ensures
            r@ == show_cont(self.0@, *self.1),
    {
        let t = self.0;
        match self.1 {
            Continuation::Vals(vs) => Program(t, vs).show(),
            Continuation::Chunks(cs) => {
                let n = cs.len();
                let mut start: usize = n;
                assert(cs@.subrange(0, n as int) =~= cs@);
                while start > 0 && !cs[start - 1].is_leave_scope()
                    invariant
                        n == cs@.len(),
                        start <= n,
                        chunks_start(cs@) == chunks_start(cs@.subrange(0, start as int)),
                    decreases start,
                {
                    assert(cs@.subrange(0, start as int).drop_last() =~= cs@.subrange(0, start - 1));
                    start = start - 1;
                }
                proof {
                    if start == 0 {
                        assert(cs@.subrange(0, 0) =~= Seq::<Cont>::empty());
                    }
                }
                let ghost base = if start > 0 { seq!['.', '.', '.'] } else { Seq::<char>::empty() };
                let mut out: Vec<char> = Vec::new();
                if start > 0 {
                    out.push('.');
                    out.push('.');
                    out.push('.');
                }
                assert(out@ =~= base + show_chunks(t@, cs@, start as int, start as int));
                let mut i: usize = start;
                while i < n
                    invariant
                        n == cs@.len(),
                        start <= i <= n,
                        cont_names_valid(*self.1, t@.len()),
                        *self.1 == Continuation::Chunks(*cs),
                        out@ == base + show_chunks(t@, cs@, start as int, i as int),
                    decreases n - i,
                {
                    if i > start {
                        out.push(' ');
                    }
                    let ghost mid = out@;
                    match &cs[i] {
                        Cont::Ref(r) => {
                            let m = r.len();
                            let mut k: usize = 0;
                            proof {
                                lemma_chunk_names_valid(*self.1, t@.len(), i as int);
                            }
                            assert(cs@[i as int] == Cont::Ref(*r));
                            assert(all_names_valid(chunk_items(cs@[i as int]), t@.len()));
                            assert(out@ =~= mid + show_run(t@, r@.subrange(0, 0)));
                            while k < m
                                invariant
                                    m == r@.len(),
                                    k <= m,
                                    all_names_valid(r@, t@.len()),
                                    out@ == mid + show_run(t@, r@.subrange(0, k as int)),
                                decreases m - k,
                            {
                                assert(r@.subrange(0, k + 1).drop_last() =~= r@.subrange(0, k as int));
                                push_value(&mut out, t, r.get(k));
                                out.push(' ');
                                k = k + 1;
                                assert(out@ =~= mid + show_run(t@, r@.subrange(0, k as int)));
                            }
                            assert(r@.subrange(0, m as int) =~= r@);
                        },
                        Cont::LeaveScope => {
                            assert(out@ =~= mid + show_run(t@, Seq::empty()));
                        },
                    }
                    i = i + 1;
                    assert(out@ =~= base + show_chunks(t@, cs@, start as int, i as int));
                }
                string_of(out.as_slice())
            },
        }
    }
}

proof fn lemma_chunk_names_valid(c: Continuation, n: nat, i: int)
    requires
        cont_names_valid(c, n),
        c is Chunks,
        0 <= i < c->Chunks_0@.len(),
    ensures
        all_names_valid(chunk_items(c->Chunks_0@[i]), n),
{
}

impl Cont {
    fn is_leave_scope(&self) -> (r: bool)
        ensures
            r == (*self is LeaveScope),
    {
        match self {
            Cont::LeaveScope => true,
            Cont::Ref(_) => false,
        }
    }
}

} // verus!
