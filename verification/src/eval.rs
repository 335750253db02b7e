use vstd::prelude::*;
use std::collections::HashMap;
use std::collections::VecDeque;
use crate::val::{AVal, Ref, Sym, SymbolTable, Val, Vals, vals_view, group_vals_view, LEAVE_SCOPE_ID};
use crate::builtins;
use crate::builtins::{builtins_for, entry_names, NUM_BUILTINS};
use crate::parser::intern_all;
use crate::machine::{
    AEval, AScope, ASlot, Builtin, SMALL_SCOPE_SIZE, leave_scope_val, new_scope, scope_insert,
    step_spec, step_panics, eval_sym_spec, lookup, builtin_spec, builtin_panics, run, run_safe,
    in_tail_position,
};


verus! {

broadcast use group_vals_view, vstd::std_specs::hash::group_hash_axioms;

/// One piece of a chunked program: a scope exit, or shared code.
pub enum Cont {
    LeaveScope,
    Ref(Ref),
}

pub open spec fn cont_view(c: Cont) -> Seq<AVal> {
    match c {
        Cont::LeaveScope => seq![leave_scope_val()],
        Cont::Ref(r) => r@,
    }
}

/// The program that a sequence of chunks stands for: the chunks one after
/// the other.
pub open spec fn chunks_view(cs: Seq<Cont>) -> Seq<AVal>
    decreases cs.len(),
{
    if cs.len() == 0 {
        Seq::empty()
    } else {
        chunks_view(cs.drop_last()) + cont_view(cs.last())
    }
}

/// The program still to run. It runs from the back.
pub enum Continuation {
    Vals(Vals),
    Chunks(Vec<Cont>),
}

impl Continuation {
    pub open spec fn view(&self) -> Seq<AVal> {
        match self {
            Continuation::Vals(vs) => vals_view(vs@),
            Continuation::Chunks(cs) => chunks_view(cs@),
        }
    }

    /// No chunk is empty.
    pub open spec fn wf(&self) -> bool {
        match self {
            Continuation::Vals(_) => true,
            Continuation::Chunks(cs) => forall|k: int|
                0 <= k < cs@.len() ==> (#[trigger] cs@[k] matches Cont::Ref(r) ==> r@.len() > 0),
        }
    }

    pub fn is_empty(&self) -> (r: bool)
        requires
            self.wf(),
        ensures
            r == (self@.len() == 0),
    {
        match self {
            Continuation::Vals(vs) => vs.len() == 0,
            Continuation::Chunks(cs) => {
                proof {
                    if cs@.len() > 0 {
                        lemma_chunks_view_last(cs@);
                    }
                }
                cs.len() == 0
            },
        }
    }

    /// Runs `next` before the rest of the program.
    pub fn extend(&mut self, next: Ref)
        requires
            old(self).wf(),
        ensures
            final(self).wf(),
            final(self)@ == old(self)@ + next@,
    {
        if next.len() == 0 {
            assert(old(self)@ + next@ =~= old(self)@);
            return;
        }
        match self {
            Continuation::Chunks(cs) => {
                let ghost before = cs@;
                cs.push(Cont::Ref(next));
                proof {
                    assert(cs@.drop_last() =~= before);
                }
            },
            Continuation::Vals(vs) => {
                let ghost before = vs@;
                let n = next.len();
                let mut i: usize = 0;
                while i < n
                    invariant
                        n == next@.len(),
                        i <= n,
                        vals_view(vs@) =~= vals_view(before) + next@.subrange(0, i as int),
                    decreases n - i,
                {
                    let v = next.get(i).copy();
                    vs.push_back(v);
                    i = i + 1;
                    proof {
                        assert(next@.subrange(0, i as int) =~= next@.subrange(0, i - 1).push(next@[i - 1]));
                    }
                }
                assert(next@.subrange(0, n as int) =~= next@);
            },
        }
    }

    /// Marks the end of a scope: runs `%{leave-scope}` after what is added
    /// later.
    pub fn leave_scope(&mut self)
        requires
            old(self).wf(),
        ensures
            final(self).wf(),
            final(self)@ == old(self)@.push(leave_scope_val()),
    {
        match self {
            Continuation::Vals(vs) => {
                vs.push_back(Val::Sym(Sym(LEAVE_SCOPE_ID)));
            },
            Continuation::Chunks(cs) => {
                let ghost before = cs@;
                cs.push(Cont::LeaveScope);
                proof {
                    assert(cs@.drop_last() =~= before);
                }
            },
        }
    }

    /// The next value to run closes a scope: nothing remains to be done in
    /// the current one.
    pub fn in_tail_position(&self) -> (r: bool)
        requires
            self.wf(),
        ensures
            r == in_tail_position(self@),
    {
        match self {
            Continuation::Vals(vs) => {
                let n = vs.len();
                if n == 0 {
                    false
                } else {
                    is_leave_scope(&vs[n - 1])
                }
            },
            Continuation::Chunks(cs) => {
                let n = cs.len();
                if n == 0 {
                    false
                } else {
                    proof {
                        lemma_chunks_view_last(cs@);
                    }
                    match &cs[n - 1] {
                        Cont::LeaveScope => true,
                        Cont::Ref(r) => {
                            let m = r.len();
                            is_leave_scope(r.get(m - 1))
                        },
                    }
                }
            },
        }
    }

    /// Puts a value back to run next.
    pub fn undo(&mut self, v: Val)
        requires
            old(self).wf(),
        ensures
            final(self).wf(),
            final(self)@ == old(self)@.push(v@),
    {
        match self {
            Continuation::Vals(vs) => vs.push_back(v),
            Continuation::Chunks(cs) => {
                let ghost before = cs@;
                let ghost vv = v@;
                let mut one: Vals = VecDeque::new();
                one.push_back(v);
                let r = Ref::new(one);
                assert(r@ =~= seq![vv]);
                cs.push(Cont::Ref(r));
                proof {
                    assert(cs@.drop_last() =~= before);
                }
            },
        }
    }

    /// Takes the next value to run.
    pub fn step(&mut self) -> (r: Option<Val>)
        requires
            old(self).wf(),
        ensures
            final(self).wf(),
            old(self)@.len() == 0 ==> r is None && final(self)@ == old(self)@,
            old(self)@.len() > 0 ==> r is Some && r->0@ == old(self)@.last() && final(self)@
                == old(self)@.drop_last(),
    {
        match self {
            Continuation::Vals(vs) => {
                let ghost before = vs@;
                let r = vs.pop_back();
                proof {
                    if before.len() > 0 {
                        assert(before.drop_last() =~= before.subrange(0, before.len() - 1));
                    }
                }
                r
            },
            Continuation::Chunks(cs) => {
                proof {
                    if cs@.len() > 0 {
                        lemma_chunks_view_last(cs@);
                    }
                }
                match cs.pop() {
                    None => None,
                    Some(Cont::LeaveScope) => Some(Val::Sym(Sym(LEAVE_SCOPE_ID))),
                    Some(Cont::Ref(mut r)) => {
                        let ghost rv = r@;
                        let ghost rest = cs@;
                        let v = r.pop_back();
                        if r.len() > 0 {
                            cs.push(Cont::Ref(r));
                            proof {
                                assert(cs@.drop_last() =~= rest);
                                assert(rv =~= rv.drop_last().push(rv.last()));
                                assert(chunks_view(rest) + rv.drop_last() =~= (chunks_view(
                                    rest,
                                ) + rv).drop_last());
                            }
                        } else {
                            proof {
                                assert(chunks_view(rest) =~= (chunks_view(rest) + rv).drop_last());
                            }
                        }
                        v
                    },
                }
            },
        }
    }
}

/// The values of a program, first to last, handed out one at a time.
pub struct ContinuationIter {
    vals: Vals,
}

impl ContinuationIter {
    /// The values not yet handed out.
    pub closed spec fn view(&self) -> Seq<AVal> {
        vals_view(self.vals@)
    }

    pub fn next(&mut self) -> (r: Option<Val>)
        ensures
            old(self)@.len() == 0 ==> r is None && final(self)@ == old(self)@,
            old(self)@.len() > 0 ==> r is Some && r->0@ == old(self)@[0] && final(self)@
                == old(self)@.drop_first(),
    {
        let ghost before = self.vals@;
        let r = self.vals.pop_front();
        proof {
            if before.len() > 0 {
                assert(vals_view(self.vals@) =~= vals_view(before).drop_first());
            }
        }
        r
    }
}

impl Continuation {
    /// The values of the program, first to last (the last one runs next).
    pub fn to_vals(&self) -> (r: Vals)
        ensures
            vals_view(r@) == self@,
    {
        let mut r: Vals = VecDeque::new();
        match self {
            Continuation::Vals(vs) => {
                let n = vs.len();
                let mut i: usize = 0;
                while i < n
                    invariant
                        n == vs@.len(),
                        i <= n,
                        vals_view(r@) =~= vals_view(vs@.subrange(0, i as int)),
                    decreases n - i,
                {
                    let ghost before = r@;
                    r.push_back(vs[i].copy());
                    i = i + 1;
                    proof {
                        assert(vs@.subrange(0, i as int) =~= vs@.subrange(0, i - 1).push(vs@[i - 1]));
                    }
                }
                assert(vs@.subrange(0, n as int) =~= vs@);
            },
            Continuation::Chunks(cs) => {
                let n = cs.len();
                let mut i: usize = 0;
                while i < n
                    invariant
                        n == cs@.len(),
                        i <= n,
                        vals_view(r@) =~= chunks_view(cs@.subrange(0, i as int)),
                    decreases n - i,
                {
                    let ghost before = vals_view(r@);
                    match &cs[i] {
                        Cont::LeaveScope => {
                            r.push_back(Val::Sym(Sym(LEAVE_SCOPE_ID)));
                        },
                        Cont::Ref(c) => {
                            let m = c.len();
                            let mut j: usize = 0;
                            while j < m
                                invariant
                                    m == c@.len(),
                                    j <= m,
                                    vals_view(r@) =~= before + c@.subrange(0, j as int),
                                decreases m - j,
                            {
                                r.push_back(c.get(j).copy());
                                j = j + 1;
                                proof {
                                    assert(c@.subrange(0, j as int) =~= c@.subrange(0, j - 1).push(c@[j - 1]));
                                }
                            }
                            assert(c@.subrange(0, m as int) =~= c@);
                        },
                    }
                    i = i + 1;
                    proof {
                        assert(cs@.subrange(0, i as int).drop_last() =~= cs@.subrange(0, i - 1));
                    }
                }
                assert(cs@.subrange(0, n as int) =~= cs@);
            },
        }
        r
    }

    /// An iterator over the values of the program, first to last.
    pub fn iter(&self) -> (it: ContinuationIter)
        ensures
            it@ == self@,
    {
        ContinuationIter { vals: self.to_vals() }
    }
}

proof fn lemma_chunks_view_last(cs: Seq<Cont>)
    requires
        cs.len() > 0,
        forall|k: int| 0 <= k < cs.len() ==> (#[trigger] cs[k] matches Cont::Ref(r) ==> r@.len() > 0),
    ensures
        chunks_view(cs).len() > 0,
        chunks_view(cs).last() == cont_view(cs.last()).last(),
{
}

/// The value is the symbol `%{leave-scope}`.
fn is_leave_scope(v: &Val) -> (r: bool)
    ensures
        r == (v@ == leave_scope_val()),
{
    match v {
        Val::Sym(s) => s.0 == LEAVE_SCOPE_ID,
        _ => false,
    }
}

/// What a name is bound to: shared code, or a value.
pub enum Slot {
    Quote(Ref),
    Val(Val),
}

impl Slot {
    pub open spec fn view(&self) -> ASlot {
        match self {
            Slot::Quote(r) => ASlot::Quote(r@),
            Slot::Val(v) => ASlot::Val(v@),
        }
    }
}

pub open spec fn slots_view(m: Map<u64, Slot>) -> Map<u64, ASlot> {
    m.map_values(|s: Slot| s@)
}

pub const SMALL_MAP_SIZE: usize = 16;

#[verifier::external_type_specification]
#[verifier::external_body]
#[verifier::reject_recursive_types(K)]
#[verifier::reject_recursive_types(V)]
pub struct ExMicroMap<K, V, const N: usize>(micromap::Map<K, V, N>);

/// The bindings that a small map holds.
pub uninterp spec fn small_map_contents(m: micromap::Map<u64, Slot, SMALL_MAP_SIZE>) -> Map<u64, Slot>;

/// `micromap::Map::new`: a map that holds nothing.
#[verifier::external_body]
fn small_map_new() -> (res: micromap::Map<u64, Slot, SMALL_MAP_SIZE>)
    ensures
        small_map_contents(res).dom() == Set::<u64>::empty(),
{
    micromap::Map::new()
}

/// `micromap::Map::get`: the value bound to `k`, if any.
#[verifier::external_body]
fn small_map_get(m: &micromap::Map<u64, Slot, SMALL_MAP_SIZE>, k: u64) -> (res: Option<&Slot>)
    ensures
        small_map_contents(*m).contains_key(k) ==> res == Some(&small_map_contents(*m)[k]),
        !small_map_contents(*m).contains_key(k) ==> res is None,
{
    m.get(&k)
}

/// `micromap::Map::insert`: binds `k` to `v` and hands back the value that
/// `k` had. It panics when the map is full and `k` is new, which `requires`
/// leaves out.
#[verifier::external_body]
fn small_map_insert(m: &mut micromap::Map<u64, Slot, SMALL_MAP_SIZE>, k: u64, v: Slot) -> (res:
    Option<Slot>)
    requires
        small_map_contents(*old(m)).contains_key(k) || small_map_contents(*old(m)).dom().len()
            < SMALL_MAP_SIZE,
    ensures
        small_map_contents(*final(m)) == small_map_contents(*old(m)).insert(k, v),
        small_map_contents(*old(m)).contains_key(k) ==> res == Some(
            small_map_contents(*old(m))[k],
        ),
        !small_map_contents(*old(m)).contains_key(k) ==> res is None,
{
    m.insert(k, v)
}

/// `micromap::Map::len`: the number of bindings the map holds.
#[verifier::external_body]
fn small_map_len(m: &micromap::Map<u64, Slot, SMALL_MAP_SIZE>) -> (res: usize)
    ensures
        res == small_map_contents(*m).dom().len(),
{
    m.len()
}

/// The bindings of one lexical scope: a small fixed-size map for few names,
/// a hash map for more.
pub enum LexiconScope {
    Large(HashMap<u64, Slot>),
    Small(micromap::Map<u64, Slot, SMALL_MAP_SIZE>),
}

impl LexiconScope {
    pub open spec fn contents(&self) -> Map<u64, Slot> {
        match self {
            LexiconScope::Large(m) => m@,
            LexiconScope::Small(m) => small_map_contents(*m),
        }
    }

    pub open spec fn view(&self) -> AScope {
        AScope { map: slots_view(self.contents()), small: self is Small }
    }

    pub open spec fn wf(&self) -> bool {
        &&& self.contents().dom().finite()
        &&& self is Small ==> self.contents().dom().len() <= SMALL_SCOPE_SIZE
    }

    /// A scope for up to `max_size` names.
    pub fn new(max_size: usize) -> (r: LexiconScope)
        ensures
            r.wf(),
            r@ == new_scope(max_size as nat),
    {
        if max_size <= SMALL_MAP_SIZE {
            let m = small_map_new();
            let r = LexiconScope::Small(m);
            assert(slots_view(r.contents()) =~= Map::empty());
            r
        } else {
            let m = HashMap::with_capacity(max_size);
            let r = LexiconScope::Large(m);
            assert(slots_view(r.contents()) =~= Map::empty());
            r
        }
    }

    /// The binding of `x` in this scope.
    pub fn get(&self, x: Sym) -> (r: Option<&Slot>)
        ensures
            r is None <==> !self@.map.contains_key(x.0),
            r matches Some(v) ==> v@ == self@.map[x.0],
    {
        match self {
            LexiconScope::Large(m) => m.get(&x.0),
            LexiconScope::Small(m) => small_map_get(m, x.0),
        }
    }

    /// The number of names bound.
    pub fn len(&self) -> (r: usize)
        ensures
            r == self@.map.dom().len(),
    {
        assert(slots_view(self.contents()).dom() =~= self.contents().dom());
        match self {
            LexiconScope::Large(m) => m.len(),
            LexiconScope::Small(m) => small_map_len(m),
        }
    }

    /// Whether this is a small scope, which holds at most `SMALL_SCOPE_SIZE`
    /// names.
    pub fn is_small(&self) -> (r: bool)
        ensures
            r == self@.small,
    {
        match self {
            LexiconScope::Large(_) => false,
            LexiconScope::Small(_) => true,
        }
    }

    /// Binds `x` to `v` unless that would overflow a small scope: hands back
    /// the previous binding, or `v` itself, with nothing changed, when the
    /// scope is small, full, and `x` is new.
    pub fn try_insert(&mut self, x: Sym, v: Slot) -> (r: Result<Option<Slot>, Slot>)
        requires
            old(self).wf(),
        ensures
            final(self).wf(),
            scope_insert(old(self)@, x.0, v@) is None ==> r == Err::<Option<Slot>, Slot>(v)
                && *final(self) == *old(self),
            scope_insert(old(self)@, x.0, v@) matches Some(sc) ==> r is Ok && final(self)@ == sc && (
            r->Ok_0 is None <==> !old(self)@.map.contains_key(x.0)) && (r->Ok_0 matches Some(o)
                ==> o@ == old(self)@.map[x.0]),
    {
        if self.is_small() && self.len() >= SMALL_MAP_SIZE && self.get(x).is_none() {
            return Err(v);
        }
        Ok(self.insert(x, v))
    }

    /// Binds `x` to `v`, handing back the previous binding.
    pub fn insert(&mut self, x: Sym, v: Slot) -> (r: Option<Slot>)
        requires
            old(self).wf(),
            scope_insert(old(self)@, x.0, v@) is Some,
        ensures
            final(self).wf(),
            final(self)@ == scope_insert(old(self)@, x.0, v@)->0,
            r is None <==> !old(self)@.map.contains_key(x.0),
            r matches Some(o) ==> o@ == old(self)@.map[x.0],
    {
        let ghost vv = v@;
        let ghost before = self.contents();
        assert(slots_view(before).dom() =~= before.dom());
        let r = match self {
            LexiconScope::Large(m) => m.insert(x.0, v),
            LexiconScope::Small(m) => small_map_insert(m, x.0, v),
        };
        proof {
            assert(slots_view(self.contents()) =~= slots_view(before).insert(x.0, vv));
            if !before.contains_key(x.0) {
                assert(before.insert(x.0, v).dom() =~= before.dom().insert(x.0));
                assert(before.dom().insert(x.0).len() == before.dom().len() + 1);
            } else {
                assert(before.insert(x.0, v).dom() =~= before.dom());
            }
        }
        r
    }
}

/// The evaluator: a program to run, a stack of values, the scopes of names,
/// and the builtins by symbol.
pub struct Eval {
    pub builtins: HashMap<u64, Builtin>,
    pub sym_table: SymbolTable,
    pub lexicon: Vec<LexiconScope>,
    pub program: Continuation,
    pub stack: Vec<Val>,
}

pub open spec fn scopes_view(lex: Seq<LexiconScope>) -> Seq<AScope> {
    lex.map_values(|sc: LexiconScope| sc@)
}

impl Eval {
    pub open spec fn view(&self) -> AEval {
        AEval {
            program: self.program@,
            stack: vals_view(self.stack@),
            lexicon: scopes_view(self.lexicon@),
        }
    }

    pub open spec fn builtin_map(&self) -> Map<u64, Builtin> {
        self.builtins@
    }

    pub open spec fn wf(&self) -> bool {
        &&& self.program.wf()
        &&& forall|k: int| 0 <= k < self.lexicon@.len() ==> (#[trigger] self.lexicon@[k]).wf()
    }

    /// The builtins and the symbol table are those of `other`.
    pub open spec fn same_env(&self, other: &Eval) -> bool {
        &&& self.builtins@ == other.builtins@
        &&& self.sym_table == other.sym_table
    }

    /// What a builtin promises: the effect that `builtin_spec` gives it.
    pub open spec fn builtin_done(&self, op: Builtin, old: &Eval, r: bool) -> bool {
        &&& self.wf()
        &&& self.same_env(old)
        &&& (self@, r) == builtin_spec(op, old@)
    }

    pub fn push(&mut self, v: Val)
        requires
            old(self).wf(),
        ensures
            final(self).wf(),
            final(self).same_env(&*old(self)),
            final(self)@ == (AEval { stack: old(self)@.stack.push(v@), ..old(self)@ }),
    {
        self.stack.push(v);
    }

    /// Takes the top value off the stack.
    pub fn pop(&mut self) -> (v: Val)
        requires
            old(self).wf(),
            old(self).stack@.len() > 0,
        ensures
            final(self).wf(),
            final(self).same_env(&*old(self)),
            v@ == old(self)@.stack.last(),
            final(self)@ == (AEval { stack: old(self)@.stack.drop_last(), ..old(self)@ }),
    {
        let ghost before = self.stack@;
        let v = self.stack.pop().unwrap();
        proof {
            assert(before.drop_last() =~= before.subrange(0, before.len() - 1));
        }
        v
    }

    /// Runs symbol `x`: what the innermost scope binds it to, else its
    /// builtin.
    fn eval_sym(&mut self, x: Sym) -> (r: bool)
        requires
            old(self).wf(),
            !(lookup(old(self)@.lexicon, x.0) is None && old(self).builtins@.contains_key(x.0)
                && builtin_panics(old(self).builtins@[x.0], old(self)@)),
        ensures
            final(self).wf(),
            final(self).same_env(&*old(self)),
            (final(self)@, r) == eval_sym_spec(old(self)@, old(self).builtins@, x.0),
    {
        let n = self.lexicon.len();
        let mut i = n;
        assert(self@.lexicon.subrange(0, n as int) =~= self@.lexicon);
        while i > 0
            invariant
                *self == *old(self),
                self.wf(),
                n == self.lexicon@.len(),
                i <= n,
                lookup(self@.lexicon, x.0) == lookup(self@.lexicon.subrange(0, i as int), x.0),
            decreases i,
        {
            i = i - 1;
            proof {
                assert(self@.lexicon.subrange(0, i + 1).drop_last() =~= self@.lexicon.subrange(0, i as int));
                assert(self@.lexicon.subrange(0, i + 1).last() == self.lexicon@[i as int]@);
            }
            let found: Option<Slot> = match self.lexicon[i].get(x) {
                Some(Slot::Quote(r)) => Some(Slot::Quote(r.share())),
                Some(Slot::Val(v)) => Some(Slot::Val(v.copy())),
                None => None,
            };
            match found {
                Some(Slot::Quote(r)) => {
                    self.program.extend(r);
                    return true;
                },
                Some(Slot::Val(v)) => {
                    self.stack.push(v);
                    return true;
                },
                None => {},
            }
        }
        proof {
            assert(self@.lexicon.subrange(0, 0) =~= Seq::<AScope>::empty());
        }
        match self.builtins.get(&x.0) {
            Some(op) => {
                let op = *op;
                builtins::call(self, op)
            },
            None => false,
        }
    }

    /// Runs one step of the program. False when the program is done or a
    /// step fails; a failing symbol stays on the program.
    pub fn step(&mut self) -> (r: bool)
        requires
            old(self).wf(),
            !step_panics(old(self)@, old(self).builtins@),
        ensures
            final(self).wf(),
            final(self).same_env(&*old(self)),
            (final(self)@, r) == step_spec(old(self)@, old(self).builtins@),
    {
        let head = match self.program.step() {
            Some(h) => h,
            None => {
                return false;
            },
        };
        match head {
            Val::Sym(x) => {
                let ok = self.eval_sym(x);
                if !ok {
                    self.program.undo(Val::Sym(x));
                }
                ok
            },
            other => {
                self.stack.push(other);
                true
            },
        }
    }

    /// Whether some scope binds `x`.
    fn is_bound(&self, x: Sym) -> (r: bool)
        ensures
            r == (lookup(self@.lexicon, x.0) is Some),
    {
        let n = self.lexicon.len();
        let mut i = n;
        assert(self@.lexicon.subrange(0, n as int) =~= self@.lexicon);
        while i > 0
            invariant
                n == self.lexicon@.len(),
                i <= n,
                lookup(self@.lexicon, x.0) == lookup(self@.lexicon.subrange(0, i as int), x.0),
            decreases i,
        {
            i = i - 1;
            proof {
                assert(self@.lexicon.subrange(0, i + 1).drop_last() =~= self@.lexicon.subrange(0, i as int));
                assert(self@.lexicon.subrange(0, i + 1).last() == self.lexicon@[i as int]@);
            }
            if self.lexicon[i].get(x).is_some() {
                return true;
            }
        }
        assert(self@.lexicon.subrange(0, 0) =~= Seq::<AScope>::empty());
        false
    }

    /// Whether running the symbol `x` now would panic: it names no binding
    /// and a builtin that would panic.
    fn sym_would_panic(&self, x: Sym) -> (r: bool)
        requires
            self.wf(),
        ensures
            r == (lookup(self@.lexicon, x.0) is None && self.builtins@.contains_key(x.0)
                && builtin_panics(self.builtins@[x.0], self@)),
    {
        if self.is_bound(x) {
            return false;
        }
        match self.builtins.get(&x.0) {
            Some(op) => builtins::builtin_would_panic(self, *op),
            None => false,
        }
    }

    /// Runs one step of the program, as `step` does, unless that step would
    /// panic: then it changes nothing and gives `None`.
    pub fn checked_step(&mut self) -> (r: Option<bool>)
        requires
            old(self).wf(),
        ensures
            final(self).wf(),
            final(self).same_env(&*old(self)),
            r is None <==> step_panics(old(self)@, old(self).builtins@),
            r is None ==> final(self)@ == old(self)@,
            r matches Some(ok) ==> (final(self)@, ok) == step_spec(old(self)@, old(self).builtins@),
    {
        let ghost before = self@;
        let head = match self.program.step() {
            Some(h) => h,
            None => {
                return Some(false);
            },
        };
        match head {
            Val::Sym(x) => {
                if self.sym_would_panic(x) {
                    self.program.undo(Val::Sym(x));
                    assert(self@.program =~= before.program);
                    return None;
                }
                let ok = self.eval_sym(x);
                if !ok {
                    self.program.undo(Val::Sym(x));
                }
                Some(ok)
            },
            other => {
                self.stack.push(other);
                Some(true)
            },
        }
    }

    /// The stack, top first.
    pub fn get_stack(&self) -> (r: Vals)
        ensures
            vals_view(r@) == self@.stack.reverse(),
    {
        let n = self.stack.len();
        let mut r: Vals = VecDeque::new();
        let mut i = n;
        while i > 0
            invariant
                n == self.stack@.len(),
                i <= n,
                vals_view(r@) =~= self@.stack.subrange(i as int, n as int).reverse(),
            decreases i,
        {
            i = i - 1;
            let v = self.stack[i].copy();
            r.push_back(v);
            proof {
                assert(self@.stack.subrange(i as int, n as int).reverse() =~= self@.stack.subrange(
                    i + 1,
                    n as int,
                ).reverse().push(self@.stack[i as int]));
            }
        }
        proof {
            assert(self@.stack.subrange(0, n as int) =~= self@.stack);
        }
        r
    }
}

/// The state in which a program starts: nothing on the stack, no scopes.
pub open spec fn initial_state(program: Seq<AVal>) -> AEval {
    AEval { program, stack: Seq::empty(), lexicon: Seq::empty() }
}

/// The symbol table once the builtin names are interned into `t`.
pub open spec fn table_with_builtins(t: Seq<Seq<char>>) -> Seq<Seq<char>> {
    intern_all(t, entry_names(NUM_BUILTINS as int))
}

/// The number of steps that `eval` runs at most.
pub const MAX_STEPS: u64 = 0xffff_ffff_ffff_ffff;

impl Eval {
    /// An evaluator for `program`, with the builtin names interned into `t`.
    pub fn new(program: Vals, t: SymbolTable) -> (e: Eval)
        requires
            t.wf(),
            t@.len() + NUM_BUILTINS < usize::MAX,
        ensures
            e.wf(),
            e.sym_table.wf(),
            e.sym_table@ == table_with_builtins(t@),
            e.builtins@ == builtins_for(e.sym_table@),
            e@ == initial_state(vals_view(program@)),
    {
        let mut t = t;
        let b = builtins::builtins(&mut t);
        let ghost pv = vals_view(program@);
        let cont = if program.len() == 0 {
            let c = Continuation::Chunks(Vec::new());
            assert(c@ =~= pv);
            c
        } else {
            let mut cs: Vec<Cont> = Vec::new();
            let r = Ref::new(program);
            cs.push(Cont::Ref(r));
            let c = Continuation::Chunks(cs);
            assert(chunks_view(cs@.drop_last()) =~= Seq::<AVal>::empty());
            assert(c@ =~= pv);
            c
        };
        let e = Eval { sym_table: t, builtins: b, lexicon: Vec::new(), program: cont, stack: Vec::new() };
        assert(e@.stack =~= Seq::<AVal>::empty());
        assert(e@.lexicon =~= Seq::<AScope>::empty());
        e
    }
}

/// Runs `program` until it is done or a step fails (for at most `MAX_STEPS`
/// steps). Gives the final stack, top first, when the whole program ran,
/// and the evaluator where it stopped otherwise.
pub fn eval(program: Vals, t: SymbolTable) -> (r: Result<Vals, Eval>)
    requires
        t.wf(),
        t@.len() + NUM_BUILTINS < usize::MAX,
        run_safe(
            initial_state(vals_view(program@)),
            builtins_for(table_with_builtins(t@)),
            MAX_STEPS as nat,
        ),
    ensures
        ({
            let fin = run(
                initial_state(vals_view(program@)),
                builtins_for(table_with_builtins(t@)),
                MAX_STEPS as nat,
            );
            &&& fin.program.len() == 0 ==> r is Ok && vals_view(r->Ok_0@) == fin.stack.reverse()
            &&& fin.program.len() > 0 ==> r is Err && r->Err_0@ == fin
        }),
{
    let ghost init = initial_state(vals_view(program@));
    let mut e = Eval::new(program, t);
    let ghost b = e.builtins@;
    let mut fuel: u64 = MAX_STEPS;
    loop
        invariant_except_break
            e.wf(),
            e.builtins@ == b,
            run(init, b, MAX_STEPS as nat) == run(e@, b, fuel as nat),
            run_safe(e@, b, fuel as nat),
        ensures
            e.wf(),
            run(init, b, MAX_STEPS as nat) == e@,
        decreases fuel,
    {
        if fuel == 0 {
            break;
        }
        let ghost before = e@;
        let ok = e.step();
        if !ok {
            break;
        }
        fuel = fuel - 1;
    }
    if e.program.is_empty() {
        Ok(e.get_stack())
    } else {
        Err(e)
    }
}

} // verus!
