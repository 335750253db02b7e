use vstd::prelude::*;
use std::collections::VecDeque;
use std::rc::Rc;
use vstd::std_specs::vecdeque::VecDequeAdditionalSpecFns;
use vstd::std_specs::iter::IteratorSpec;

verus! {

broadcast use vstd::std_specs::vecdeque::group_vec_dequeue_axioms;

/// An interned symbol: `Sym(k)` names the `k`-th string of a `SymbolTable`
/// (counting from 1).
#[derive(Clone, Copy, Debug, PartialEq, Eq, Structural, Hash)]
pub struct Sym(pub u64);

/// The symbol that closes a lexical scope, `%{leave-scope}`.
pub const LEAVE_SCOPE_ID: u64 = 1;
/// The keywords that `type-of` answers with.
pub const INT_ID: u64 = 2;
pub const LIST_ID: u64 = 3;
pub const SYMBOL_ID: u64 = 4;
pub const KEYWORD_ID: u64 = 5;

pub type Vals = VecDeque<Val>;

/// A shared, read-only window `start..end` onto a list of values.
#[derive(Debug)]
pub struct Ref {
    vals: Rc<Vals>,
    start: usize,
    end: usize,
}

/// A runtime value. `List` owns its elements; `Ref` shares them.
#[derive(Debug)]
pub enum Val {
    Int(i64),
    Sym(Sym),
    Kw(Sym),
    List(Vals),
    Ref(Ref),
}

/// The mathematical meaning of a value: owned and shared lists are both
/// just sequences.
pub enum AVal {
    Int(i64),
    Sym(u64),
    Kw(u64),
    List(Seq<AVal>),
}

/// The meaning of a sequence of values, element by element.
pub open spec fn vals_view(s: Seq<Val>) -> Seq<AVal> {
    s.map_values(|v: Val| v@)
}

impl AVal {
    pub open spec fn is_list(self) -> bool {
        self is List
    }

    /// The elements of a list value (empty for other values).
    pub open spec fn elems(self) -> Seq<AVal> {
        match self {
            AVal::List(s) => s,
            _ => Seq::empty(),
        }
    }

    /// The truth value of a value: a nonzero integer, a nonempty list, or any
    /// symbol or keyword.
    pub open spec fn truthy(self) -> bool {
        match self {
            AVal::Int(i) => i != 0,
            AVal::List(s) => s.len() != 0,
            _ => true,
        }
    }
}

impl Ref {
    #[verifier::type_invariant]
    spec fn inv(self) -> bool {
        self.start <= self.end <= self.vals@.len()
    }

    /// The values that the window shows.
    pub closed spec fn view(&self) -> Seq<AVal>
        decreases *self,
    {
        Seq::new(
            (self.end - self.start) as nat,
            |i: int|
                if 0 <= i && self.start + i < self.vals@.len() {
                    self.vals@[self.start + i].view()
                } else {
                    AVal::Int(0)
                },
        )
    }

    proof fn lemma_view(&self)
        requires
            self.inv(),
        ensures
            self@ == vals_view(self.vals@.subrange(self.start as int, self.end as int)),
    {
        assert(self@ =~= vals_view(self.vals@.subrange(self.start as int, self.end as int)));
    }

    /// A window onto the whole of `vals`.
    pub fn new(vals: Vals) -> (r: Ref)
        ensures
            r@ == vals_view(vals@),
    {
        let n = vals.len();
        let r = Ref { vals: Rc::new(vals), start: 0, end: n };
        proof {
            r.lemma_view();
            assert(vals@.subrange(0, n as int) =~= vals@);
        }
        r
    }

    pub fn len(&self) -> (n: usize)
        ensures
            n == self@.len(),
    {
        proof {
            use_type_invariant(self);
        }
        self.end - self.start
    }

    /// The `i`-th value in the window.
    pub fn get(&self, i: usize) -> (v: &Val)
        requires
            i < self@.len(),
        ensures
            v@ == self@[i as int],
    {
        proof {
            use_type_invariant(self);
        }
        let vs: &Vals = &*self.vals;
        &vs[self.start + i]
    }

    /// The values of the window, first to last.
    pub fn iter(&self) -> (r: Vec<Val>)
        ensures
            vals_view(r@) == self@,
    {
        let n = self.len();
        let mut r: Vec<Val> = Vec::new();
        let mut i: usize = 0;
        while i < n
            invariant
                n == self@.len(),
                i <= n,
                vals_view(r@) =~= self@.subrange(0, i as int),
            decreases n - i,
        {
            let v = self.get(i).copy();
            let ghost prev = r@;
            r.push(v);
            proof {
                lemma_vals_view_push(prev, v);
                assert(self@.subrange(0, i + 1) =~= self@.subrange(0, i as int).push(v@));
            }
            i = i + 1;
        }
        assert(self@.subrange(0, n as int) =~= self@);
        r
    }

    /// The whole list that the window looks onto.
    pub closed spec fn whole(&self) -> Seq<AVal> {
        vals_view(self.vals@)
    }

    /// The values as an owned list. When nothing else shares the underlying
    /// list, that list is handed over as it is, whole, whatever the window;
    /// otherwise the values of the window are copied. Which of the two
    /// happens depends on whether the list is still shared, which the values
    /// do not show.
    pub fn into_vals(self) -> (r: Vals)
        ensures
            vals_view(r@) == self@ || vals_view(r@) == self.whole(),
            self@ == self.whole() ==> vals_view(r@) == self@,
    {
        broadcast use group_vals_view;

        proof {
            use_type_invariant(&self);
            self.lemma_view();
        }
        let ghost whole = self.whole();
        let ghost shown = self@;
        let start = self.start;
        let end = self.end;
        match Rc::try_unwrap(self.vals) {
            Ok(vs) => {
                assert(vals_view(vs@) == whole);
                vs
            },
            Err(rc) => {
                let window = Ref { vals: rc, start, end };
                assert(window@ =~= shown);
                window.into_window()
            },
        }
    }

    /// The values of the window as an owned list. When nothing else shares
    /// the underlying list, it is reused rather than copied, cut to the window.
    pub(crate) fn into_window(self) -> (r: Vals)
        ensures
            vals_view(r@) == self@,
    {
        broadcast use group_vals_view;

        proof {
            use_type_invariant(&self);
            self.lemma_view();
        }
        let ghost shown = self@;
        let start = self.start;
        let end = self.end;
        match Rc::try_unwrap(self.vals) {
            Ok(mut vs) => {
                let ghost whole = vs@;
                vs.truncate(end);
                let r = vs.split_off(start);
                assert(r@ =~= whole.subrange(start as int, end as int));
                r
            },
            Err(rc) => {
                let vs: &Vals = &*rc;
                let mut r: Vals = VecDeque::new();
                let mut i = start;
                while i < end
                    invariant
                        start <= i <= end <= vs@.len(),
                        vals_view(r@) =~= vals_view(vs@.subrange(start as int, i as int)),
                    decreases end - i,
                {
                    let ghost prev = r@;
                    let v = vs[i].copy();
                    r.push_back(v);
                    i = i + 1;
                    proof {
                        lemma_vals_view_push(prev, v);
                        lemma_vals_view_push(vs@.subrange(start as int, i - 1), vs@[i - 1]);
                        assert(vs@.subrange(start as int, i as int) =~= vs@.subrange(
                            start as int,
                            i - 1,
                        ).push(vs@[i - 1]));
                    }
                }
                r
            },
        }
    }

    /// Takes the first value out of the window.
    pub fn pop_front(&mut self) -> (r: Option<Val>)
        ensures
            old(self)@.len() == 0 ==> r is None && final(self)@ == old(self)@,
            old(self)@.len() > 0 ==> r is Some && r->0@ == old(self)@[0] && final(self)@
                == old(self)@.drop_first(),
    {
        proof {
            use_type_invariant(&*self);
            self.lemma_view();
        }
        if self.start == self.end {
            None
        } else {
            let vs: &Vals = &*self.vals;
            let v = vs[self.start].copy();
            self.start = self.start + 1;
            proof {
                use_type_invariant(&*self);
                self.lemma_view();
                assert(self@ =~= old(self)@.drop_first());
            }
            Some(v)
        }
    }

    /// Takes the last value out of the window.
    pub fn pop_back(&mut self) -> (r: Option<Val>)
        ensures
            old(self)@.len() == 0 ==> r is None && final(self)@ == old(self)@,
            old(self)@.len() > 0 ==> r is Some && r->0@ == old(self)@.last() && final(self)@
                == old(self)@.drop_last(),
    {
        proof {
            use_type_invariant(&*self);
            self.lemma_view();
        }
        if self.start == self.end {
            None
        } else {
            let vs: &Vals = &*self.vals;
            let v = vs[self.end - 1].copy();
            self.end = self.end - 1;
            proof {
                use_type_invariant(&*self);
                self.lemma_view();
                assert(self@ =~= old(self)@.drop_last());
            }
            Some(v)
        }
    }

    /// Narrows the window to its values `from..to`.
    pub fn slice(&mut self, from: usize, to: usize)
        requires
            from <= to <= old(self)@.len(),
        ensures
            final(self)@ == old(self)@.subrange(from as int, to as int),
    {
        proof {
            use_type_invariant(&*self);
            self.lemma_view();
        }
        let len = to - from;
        self.start = self.start + from;
        self.end = self.start + len;
        proof {
            use_type_invariant(&*self);
            self.lemma_view();
            assert(self@ =~= old(self)@.subrange(from as int, to as int));
        }
    }

    /// Another window onto the same shared values.
    pub fn share(&self) -> (r: Ref)
        ensures
            r@ == self@,
    {
        proof {
            use_type_invariant(self);
        }
        Ref { vals: rc_clone(&self.vals), start: self.start, end: self.end }
    }
}

/// `Rc::clone` (std): another handle to the same shared list.
#[verifier::external_body]
fn rc_clone(rc: &Rc<Vals>) -> (res: Rc<Vals>)
    ensures
        res == *rc,
{
    Rc::clone(rc)
}

impl Val {
    /// The meaning of the value.
    pub open spec fn view(&self) -> AVal
        decreases *self,
    {
        match self {
            Val::Int(i) => AVal::Int(*i),
            Val::Sym(s) => AVal::Sym(s.0),
            Val::Kw(s) => AVal::Kw(s.0),
            Val::List(vs) => AVal::List(
                Seq::new(
                    vs@.len(),
                    |i: int|
                        if 0 <= i < vs@.len() {
                            vs@[i].view()
                        } else {
                            AVal::Int(0)
                        },
                ),
            ),
            Val::Ref(r) => AVal::List(r.view()),
        }
    }

    /// A value with the same meaning; shared lists stay shared.
    pub fn copy(&self) -> (r: Val)
        ensures
            r@ == self@,
        decreases *self,
    {
        broadcast use group_vals_view;

        match self {
            Val::Int(i) => Val::Int(*i),
            Val::Sym(s) => Val::Sym(*s),
            Val::Kw(s) => Val::Kw(*s),
            Val::Ref(r) => Val::Ref(r.share()),
            Val::List(vs) => {
                let mut out: Vals = VecDeque::new();
                let n = vs.len();
                let mut i: usize = 0;
                while i < n
                    invariant
                        *self == Val::List(*vs),
                        n == vs@.len(),
                        i <= n,
                        vals_view(out@) =~= vals_view(vs@.subrange(0, i as int)),
                    decreases n - i,
                {
                    proof {
                        assert(decreases_to!(*self => self->List_0));
                        assert(decreases_to!(*vs => vs[i as int]));
                    }
                    let ghost prev = out@;
                    let v = vs[i].copy();
                    out.push_back(v);
                    i = i + 1;
                    proof {
                        assert(vs@.subrange(0, i as int) =~= vs@.subrange(0, i - 1).push(vs@[i - 1]));
                        lemma_vals_view_push(prev, v);
                        lemma_vals_view_push(vs@.subrange(0, i - 1), vs@[i - 1]);
                    }
                }
                proof {
                    assert(vs@.subrange(0, n as int) =~= vs@);
                    lemma_list_view(out);
                    lemma_list_view(*vs);
                }
                Val::List(out)
            },
        }
    }
}

pub broadcast proof fn lemma_vals_view_push(s: Seq<Val>, v: Val)
    ensures
        #[trigger] vals_view(s.push(v)) == vals_view(s).push(v@),
{
    assert(vals_view(s.push(v)) =~= vals_view(s).push(v@));
}

pub broadcast proof fn lemma_vals_view_subrange(s: Seq<Val>, i: int, j: int)
    requires
        0 <= i <= j <= s.len(),
    ensures
        #[trigger] vals_view(s.subrange(i, j)) == vals_view(s).subrange(i, j),
{
    assert(vals_view(s.subrange(i, j)) =~= vals_view(s).subrange(i, j));
}

pub broadcast proof fn lemma_vals_view_add(s: Seq<Val>, t: Seq<Val>)
    ensures
        #[trigger] vals_view(s + t) == vals_view(s) + vals_view(t),
{
    assert(vals_view(s + t) =~= vals_view(s) + vals_view(t));
}

pub broadcast group group_vals_view {
    lemma_vals_view_push,
    lemma_vals_view_subrange,
    lemma_vals_view_add,
    lemma_list_view,
}

/// The meaning of an owned list is the meaning of its elements.
pub broadcast proof fn lemma_list_view(vs: Vals)
    ensures
        #[trigger] Val::List(vs)@ == AVal::List(vals_view(vs@)),
{
    assert(Val::List(vs)@->List_0 =~= vals_view(vs@));
}

impl Val {
    pub fn is_int(&self) -> (r: bool)
        ensures
            r == (self@ is Int),
    {
        match self {
            Val::Int(_) => true,
            _ => false,
        }
    }

    pub fn is_list(&self) -> (r: bool)
        ensures
            r == (self@ is List),
    {
        match self {
            Val::List(_) | Val::Ref(_) => true,
            _ => false,
        }
    }

    pub fn is_sym(&self) -> (r: bool)
        ensures
            r == (self@ is Sym),
    {
        match self {
            Val::Sym(_) => true,
            _ => false,
        }
    }

    pub fn is_kw(&self) -> (r: bool)
        ensures
            r == (self@ is Kw),
    {
        match self {
            Val::Kw(_) => true,
            _ => false,
        }
    }

    /// The number of elements of a list.
    pub fn len(&self) -> (n: usize)
        requires
            self@ is List,
        ensures
            n == self@.elems().len(),
    {
        broadcast use group_vals_view;

        match self {
            Val::List(vs) => vs.len(),
            Val::Ref(r) => r.len(),
            _ => 0,
        }
    }

    /// Takes the first element out of a list.
    pub fn pop_front(&mut self) -> (r: Option<Val>)
        requires
            old(self)@ is List,
        ensures
            final(self)@ is List,
            old(self)@.elems().len() == 0 ==> r is None && final(self)@ == old(self)@,
            old(self)@.elems().len() > 0 ==> r is Some && r->0@ == old(self)@.elems()[0]
                && final(self)@.elems() == old(self)@.elems().drop_first(),
    {
        broadcast use group_vals_view;

        match self {
            Val::List(vs) => {
                let ghost before = vs@;
                let r = vs.pop_front();
                proof {
                    if before.len() > 0 {
                        assert(before.drop_first() == before.subrange(1, before.len() as int));
                    }
                }
                r
            },
            Val::Ref(r) => r.pop_front(),
            _ => None,
        }
    }

    /// Takes the last element out of a list.
    pub fn pop_back(&mut self) -> (r: Option<Val>)
        requires
            old(self)@ is List,
        ensures
            final(self)@ is List,
            old(self)@.elems().len() == 0 ==> r is None && final(self)@ == old(self)@,
            old(self)@.elems().len() > 0 ==> r is Some && r->0@ == old(self)@.elems().last()
                && final(self)@.elems() == old(self)@.elems().drop_last(),
    {
        broadcast use group_vals_view;

        match self {
            Val::List(vs) => {
                let ghost before = vs@;
                let r = vs.pop_back();
                proof {
                    if before.len() > 0 {
                        assert(before.drop_last() == before.subrange(0, before.len() - 1));
                    }
                }
                r
            },
            Val::Ref(r) => r.pop_back(),
            _ => None,
        }
    }

    /// Keeps the elements `from..to` of a list.
    pub fn slice(&mut self, from: usize, to: usize)
        requires
            old(self)@ is List,
            from <= to <= old(self)@.elems().len(),
        ensures
            final(self)@ == AVal::List(old(self)@.elems().subrange(from as int, to as int)),
    {
        broadcast use group_vals_view;

        match self {
            Val::List(vs) => {
                let ghost before = vs@;
                vs.truncate(to);
                let rest = vs.split_off(from);
                *vs = rest;
                proof {
                    assert(vs@ =~= before.subrange(from as int, to as int));
                }
            },
            Val::Ref(r) => r.slice(from, to),
            _ => {},
        }
    }

    /// The `i`-th element of a list.
    pub fn nth(&self, i: usize) -> (v: &Val)
        requires
            self@ is List,
            i < self@.elems().len(),
        ensures
            v@ == self@.elems()[i as int],
    {
        broadcast use group_vals_view;

        match self {
            Val::List(vs) => &vs[i],
            Val::Ref(r) => r.get(i),
            _ => self,
        }
    }

    /// The elements of a list as an owned list; for a shared list, what
    /// `Ref::into_vals` gives.
    pub fn into_list(self) -> (vs: Vals)
        requires
            self@ is List,
        ensures
            self is List ==> vs == self->List_0,
            self is Ref ==> vals_view(vs@) == self@.elems() || vals_view(vs@) == self->Ref_0.whole(),
    {
        broadcast use group_vals_view;

        match self {
            Val::List(vs) => vs,
            Val::Ref(r) => r.into_vals(),
            _ => VecDeque::new(),
        }
    }

    /// The elements of a list as an owned list, exactly those of the value.
    pub(crate) fn take_elems(self) -> (vs: Vals)
        requires
            self@ is List,
        ensures
            vals_view(vs@) == self@.elems(),
    {
        broadcast use group_vals_view;

        match self {
            Val::List(vs) => vs,
            Val::Ref(r) => r.into_window(),
            _ => VecDeque::new(),
        }
    }

    /// The elements of a list as a shareable window.
    pub fn into_list_ref(self) -> (r: Ref)
        requires
            self@ is List,
        ensures
            r@ == self@.elems(),
    {
        broadcast use group_vals_view;

        match self {
            Val::List(vs) => Ref::new(vs),
            Val::Ref(r) => r,
            _ => Ref::new(VecDeque::new()),
        }
    }

    /// The same value, with an owned list turned into a shared one.
    pub fn into_sharable(self) -> (r: Val)
        ensures
            r@ == self@,
            self is List ==> r is Ref,
            !(self is List) ==> r == self,
    {
        broadcast use group_vals_view;

        match self {
            Val::List(vs) => Val::Ref(Ref::new(vs)),
            v => v,
        }
    }

    /// The elements of a list, owned by this value from now on; a shared
    /// list becomes what `Ref::into_vals` gives.
    pub fn list_mut(&mut self) -> (vs: &mut Vals)
        requires
            old(self)@ is List,
        ensures
            *old(self) is List ==> *vs == old(self)->List_0,
            *old(self) is Ref ==> vals_view(vs@) == old(self)@.elems() || vals_view(vs@)
                == old(self)->Ref_0.whole(),
            *final(self) == Val::List(*final(vs)),
    {
        broadcast use group_vals_view;

        let mut v = Val::Int(0);
        std::mem::swap(&mut v, self);
        *self = Val::List(v.into_list());
        match self {
            Val::List(vs) => vs,
            _ => vstd::pervasive::unreached(),
        }
    }

    /// The owned elements of a list, or the shared window of a shared one.
    pub fn list_or_ref_mut(&mut self) -> (r: Result<&mut Vals, &mut Ref>)
        requires
            old(self)@ is List,
        ensures
            match r {
                Ok(vs) => *old(self) == Val::List(*vs) && *final(self) == Val::List(*final(vs)),
                Err(rf) => *old(self) == Val::Ref(*rf) && *final(self) == Val::Ref(*final(rf)),
            },
    {
        match self {
            Val::List(vs) => Ok(vs),
            Val::Ref(r) => Err(r),
            _ => vstd::pervasive::unreached(),
        }
    }

    /// The elements of a list, first to last.
    pub fn iter(&self) -> (r: Vec<Val>)
        requires
            self@ is List,
        ensures
            vals_view(r@) == self@.elems(),
    {
        let n = self.len();
        let mut r: Vec<Val> = Vec::new();
        let mut i: usize = 0;
        while i < n
            invariant
                self@ is List,
                n == self@.elems().len(),
                i <= n,
                vals_view(r@) =~= self@.elems().subrange(0, i as int),
            decreases n - i,
        {
            let v = self.nth(i).copy();
            let ghost prev = r@;
            r.push(v);
            proof {
                lemma_vals_view_push(prev, v);
                assert(self@.elems().subrange(0, i + 1) =~= self@.elems().subrange(0, i as int).push(v@));
            }
            i = i + 1;
        }
        assert(self@.elems().subrange(0, n as int) =~= self@.elems());
        r
    }

    pub fn sym(&self) -> (s: Sym)
        requires
            self@ is Sym,
        ensures
            self@ == AVal::Sym(s.0),
    {
        match self {
            Val::Sym(s) => *s,
            _ => Sym(0),
        }
    }

    pub fn kw(&self) -> (s: Sym)
        requires
            self@ is Kw,
        ensures
            self@ == AVal::Kw(s.0),
    {
        match self {
            Val::Kw(s) => *s,
            _ => Sym(0),
        }
    }

    pub fn int_value(&self) -> (i: i64)
        requires
            self@ is Int,
        ensures
            self@ == AVal::Int(i),
    {
        match self {
            Val::Int(i) => *i,
            _ => 0,
        }
    }

    pub fn is_truthy(&self) -> (r: bool)
        ensures
            r == self@.truthy(),
    {
        match self {
            Val::Int(x) => *x != 0,
            Val::List(x) => x.len() != 0,
            Val::Ref(x) => x.len() != 0,
            _ => true,
        }
    }

    /// Structural equality: lists are equal when their elements are, whether
    /// they are owned or shared.
    pub fn equals(&self, other: &Val) -> (r: bool)
        ensures
            r == (self@ == other@),
        decreases self@,
    {
        broadcast use group_vals_view;

        match (self, other) {
            (Val::Int(i), Val::Int(j)) => *i == *j,
            (Val::Sym(x), Val::Sym(y)) => x.0 == y.0,
            (Val::Kw(x), Val::Kw(y)) => x.0 == y.0,
            _ => {
                if self.is_list() && other.is_list() {
                    let n = self.len();
                    if n != other.len() {
                        return false;
                    }
                    let mut i: usize = 0;
                    while i < n
                        invariant
                            self@ is List,
                            other@ is List,
                            n == self@.elems().len(),
                            n == other@.elems().len(),
                            i <= n,
                            forall|k: int| 0 <= k < i ==> self@.elems()[k] == other@.elems()[k],
                        decreases n - i,
                    {
                        let x = self.nth(i);
                        let y = other.nth(i);
                        proof {
                            assert(decreases_to!(self@ => self@->List_0));
                            assert(decreases_to!(self@->List_0 => self@->List_0[i as int]));
                        }
                        if !x.equals(y) {
                            return false;
                        }
                        i = i + 1;
                    }
                    proof {
                        assert(self@.elems() =~= other@.elems());
                    }
                    true
                } else {
                    false
                }
            },
        }
    }
}

impl PartialEq for Val {
    fn eq(&self, other: &Val) -> (r: bool) {
        self.equals(other)
    }
}

impl vstd::std_specs::cmp::PartialEqSpecImpl for Val {
    open spec fn obeys_eq_spec() -> bool {
        true
    }

    open spec fn eq_spec(&self, other: &Val) -> bool {
        self@ == other@
    }
}

/// The names that every symbol table starts with, in the order of their ids.
pub open spec fn reserved_names() -> Seq<Seq<char>> {
    seq!["%{leave-scope}"@, "int"@, "list"@, "symbol"@, "keyword"@]
}

/// The table after `x` is interned: unchanged if `x` is already there,
/// otherwise `x` added at the end.
pub open spec fn interned(t: Seq<Seq<char>>, x: Seq<char>) -> Seq<Seq<char>> {
    if t.contains(x) {
        t
    } else {
        t.push(x)
    }
}

/// Interns strings: each distinct string gets the next id, starting at 1.
pub struct SymbolTable {
    symbols: Vec<String>,
}

impl SymbolTable {
    /// The interned strings; the string of `Sym(k)` is at position `k - 1`.
    pub closed spec fn view(&self) -> Seq<Seq<char>> {
        self.symbols@.map_values(|s: String| s@)
    }

    /// No string is interned twice.
    pub open spec fn wf(&self) -> bool {
        forall|i: int, j: int| 0 <= i < j < self@.len() ==> self@[i] != self@[j]
    }

    /// `x` names one of the interned strings.
    pub open spec fn has(&self, x: Sym) -> bool {
        1 <= x.0 <= self@.len()
    }

    /// The table with the reserved names, with ids 1 to 5.
    pub fn new() -> (t: SymbolTable)
        ensures
            t.wf(),
            t@ == reserved_names(),
    {
        let mut t = SymbolTable { symbols: Vec::new() };
        proof {
            reveal_strlit("%{leave-scope}");
            reveal_strlit("int");
            reveal_strlit("list");
            reveal_strlit("symbol");
            reveal_strlit("keyword");
            assert(t@ =~= Seq::<Seq<char>>::empty());
            assert("%{leave-scope}"@.len() == 14);
            assert("int"@.len() == 3);
            assert("list"@.len() == 4);
            assert("symbol"@.len() == 6);
            assert("keyword"@.len() == 7);
            assert("int"@[0] == 'i');
            assert("list"@[0] == 'l');
        }
        let _ = t.intern(str_to_string("%{leave-scope}"));
        assert(t@ =~= seq!["%{leave-scope}"@]);
        let _ = t.intern(str_to_string("int"));
        assert(!seq!["%{leave-scope}"@].contains("int"@)) by {
            assert(seq!["%{leave-scope}"@][0] != "int"@);
        }
        assert(t@ =~= seq!["%{leave-scope}"@, "int"@]);
        let _ = t.intern(str_to_string("list"));
        let ghost t2 = seq!["%{leave-scope}"@, "int"@];
        assert(!t2.contains("list"@)) by {
            assert(t2[0] != "list"@);
            assert(t2[1] != "list"@);
        }
        assert(t@ =~= t2.push("list"@));
        let ghost t3 = t2.push("list"@);
        let _ = t.intern(str_to_string("symbol"));
        assert(!t3.contains("symbol"@)) by {
            assert(t3[0] != "symbol"@);
            assert(t3[1] != "symbol"@);
            assert(t3[2] != "symbol"@);
        }
        let ghost t4 = t3.push("symbol"@);
        assert(t@ =~= t4);
        let _ = t.intern(str_to_string("keyword"));
        assert(!t4.contains("keyword"@)) by {
            assert(t4[0] != "keyword"@);
            assert(t4[1] != "keyword"@);
            assert(t4[2] != "keyword"@);
            assert(t4[3] != "keyword"@);
        }
        proof {
            assert(t@ =~= reserved_names());
        }
        t
    }

    pub fn len(&self) -> (n: usize)
        ensures
            n == self@.len(),
    {
        self.symbols.len()
    }

    /// The symbol of `x`, interning it first if it is new.
    pub fn intern(&mut self, x: String) -> (s: Sym)
        requires
            old(self).wf(),
            old(self)@.len() < usize::MAX,
        ensures
            final(self).wf(),
            final(self)@ == interned(old(self)@, x@),
            final(self).has(s),
            final(self)@[s.0 - 1] == x@,
            s.0 == final(self)@.index_of(x@) + 1,
            !old(self)@.contains(x@) ==> s.0 == old(self)@.len() + 1,
    {
        let n = self.symbols.len();
        let mut i: usize = 0;
        while i < n
            invariant
                n == self.symbols@.len(),
                i <= n,
                self.wf(),
                forall|j: int| 0 <= j < i ==> self@[j] != x@,
            decreases n - i,
        {
            if self.symbols[i] == x {
                proof {
                    assert(self@.contains(x@)) by {
                        assert(self@[i as int] == x@);
                    }
                    lemma_index_of_at(self@, i as int);
                }
                return Sym((i + 1) as u64);
            }
            i = i + 1;
        }
        let ghost before = self@;
        self.symbols.push(x);
        proof {
            assert(self@ =~= before.push(x@));
            assert(!before.contains(x@)) by {
                if before.contains(x@) {
                    let k = choose|k: int| 0 <= k < before.len() && before[k] == x@;
                    assert(before[k] != x@);
                }
            }
        }
        proof {
            lemma_index_of_at(self@, n as int);
        }
        Sym((n + 1) as u64)
    }

    /// The string of an interned symbol.
    pub fn str(&self, x: Sym) -> (r: &str)
        requires
            self.has(x),
        ensures
            r@ == self@[x.0 - 1],
    {
        let n = self.symbols.len();
        let i = (x.0 - 1) as usize;
        assert(i < n);
        self.symbols[i].as_str()
    }

    /// The symbol of `name` if it is interned, without interning it.
    pub fn try_get(&self, name: &str) -> (r: Option<Sym>)
        requires
            self.wf(),
        ensures
            r is None <==> !self@.contains(name@),
            r matches Some(s) ==> self.has(s) && self@[s.0 - 1] == name@,
    {
        let x = str_to_string(name);
        let n = self.symbols.len();
        let mut i: usize = 0;
        while i < n
            invariant
                n == self.symbols@.len(),
                i <= n,
                x@ == name@,
                forall|j: int| 0 <= j < i ==> self@[j] != x@,
            decreases n - i,
        {
            if self.symbols[i] == x {
                proof {
                    assert(self@[i as int] == name@);
                }
                return Some(Sym((i + 1) as u64));
            }
            i = i + 1;
        }
        proof {
            if self@.contains(name@) {
                let k = choose|k: int| 0 <= k < self@.len() && self@[k] == name@;
                assert(self@[k] != x@);
            }
        }
        None
    }
}

/// The characters of a string, in order.
pub(crate) fn chars_of(s: &str) -> (r: Vec<char>)
    ensures
        r@ == s@,
{
    broadcast use vstd::string::axiom_spec_iter, vstd::string::next_postcondition;

    let mut it = s.chars();
    let mut r: Vec<char> = Vec::new();
    assert(r@ + it.remaining() =~= s@);
    loop
        invariant
            r@ + it.remaining() == s@,
            it.decrease() is Some,
        ensures
            r@ == s@,
        decreases it.decrease()->0,
    {
        let ghost before = it.remaining();
        match it.next() {
            Some(c) => {
                r.push(c);
                assert(r@ + it.remaining() =~= s@) by {
                    assert(before =~= seq![c] + before.drop_first());
                }
            },
            None => {
                assert(r@ =~= s@);
                break;
            },
        }
    }
    r
}

/// In a table without repeats, a string's position is where it is.
proof fn lemma_index_of_at(t: Seq<Seq<char>>, k: int)
    requires
        forall|i: int, j: int| 0 <= i < j < t.len() ==> t[i] != t[j],
        0 <= k < t.len(),
    ensures
        t.index_of(t[k]) == k,
{
    assert(t.contains(t[k]));
}

/// `String::push` (std): appends the character to the string.
#[verifier::external_body]
fn string_push(s: &mut String, c: char)
    ensures
        final(s)@ == old(s)@.push(c),
{
    s.push(c);
}

/// A string of exactly these characters.
pub(crate) fn string_of(cs: &[char]) -> (r: String)
    ensures
        r@ == cs@,
{
    let mut r = String::new();
    let mut i: usize = 0;
    while i < cs.len()
        invariant
            i <= cs@.len(),
            r@ == cs@.subrange(0, i as int),
        decreases cs@.len() - i,
    {
        string_push(&mut r, cs[i]);
        i = i + 1;
        assert(r@ =~= cs@.subrange(0, i as int));
    }
    assert(cs@.subrange(0, cs@.len() as int) =~= cs@);
    r
}

/// An owned copy of a string.
pub(crate) fn str_to_string(s: &str) -> (r: String)
    ensures
        r@ == s@,
{
    s.to_owned()
}

} // verus!
