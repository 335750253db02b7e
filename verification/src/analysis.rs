use vstd::prelude::*;
use std::collections::HashMap;
use crate::val::{AVal, Sym, SymbolTable, Val, Vals, vals_view, group_vals_view, str_to_string};
use crate::builtins::{sym_of, lemma_index_of_unique};

verus! {

/// The four kinds of runtime value.
#[derive(Clone, Copy, Debug, PartialEq, Eq, Structural)]
pub enum BasicType {
    Int,
    Sym,
    Kw,
    List,
}

/// What the analysis knows of the type of a stack value.
#[derive(Clone, Copy, Debug, PartialEq, Eq, Structural)]
pub enum TypeInfo {
    /// A value of one basic kind.
    Basic(BasicType),
    /// A list whose elements all have one basic kind.
    HomList(BasicType),
    /// Code: any list, which can be evaluated.
    Code,
    /// Whatever evaluating the code at the given input position leaves.
    Eval(usize),
}

/// One slot of a stack effect: anything, or a value of a known type.
#[derive(Clone, Copy, Debug, PartialEq, Eq, Structural)]
pub enum StackParam {
    Any,
    Typed(TypeInfo),
}

impl BasicType {
    /// Whether a value is of this kind.
    pub open spec fn accepts(self, v: AVal) -> bool {
        match self {
            BasicType::Int => v is Int,
            BasicType::Sym => v is Sym,
            BasicType::Kw => v is Kw,
            BasicType::List => v is List,
        }
    }

    pub fn matches(&self, v: &Val) -> (r: bool)
        ensures
            r == self.accepts(v@),
    {
        match self {
            BasicType::Int => v.is_int(),
            BasicType::Sym => v.is_sym(),
            BasicType::Kw => v.is_kw(),
            BasicType::List => v.is_list(),
        }
    }
}

impl TypeInfo {
    /// Whether a concrete value has this type. The result of an evaluation
    /// is never known of a concrete value.
    pub open spec fn accepts(self, v: AVal) -> bool {
        match self {
            TypeInfo::Basic(bt) => bt.accepts(v),
            TypeInfo::HomList(bt) => v is List && forall|k: int|
                0 <= k < v.elems().len() ==> bt.accepts(#[trigger] v.elems()[k]),
            TypeInfo::Code => v is List,
            TypeInfo::Eval(_) => false,
        }
    }

    pub fn integer() -> (r: TypeInfo)
        ensures
            r == TypeInfo::Basic(BasicType::Int),
    {
        TypeInfo::Basic(BasicType::Int)
    }

    /// Truth values are integers.
    pub fn bool() -> (r: TypeInfo)
        ensures
            r == TypeInfo::Basic(BasicType::Int),
    {
        TypeInfo::Basic(BasicType::Int)
    }

    pub fn kw() -> (r: TypeInfo)
        ensures
            r == TypeInfo::Basic(BasicType::Kw),
    {
        TypeInfo::Basic(BasicType::Kw)
    }

    pub fn anycode() -> (r: TypeInfo)
        ensures
            r == TypeInfo::Code,
    {
        TypeInfo::Code
    }

    pub fn syms() -> (r: TypeInfo)
        ensures
            r == TypeInfo::HomList(BasicType::Sym),
    {
        TypeInfo::HomList(BasicType::Sym)
    }

    pub fn eval(i: usize) -> (r: TypeInfo)
        ensures
            r == TypeInfo::Eval(i),
    {
        TypeInfo::Eval(i)
    }

    pub fn matches(&self, v: &Val) -> (r: bool)
        ensures
            r == self.accepts(v@),
    {
        match self {
            TypeInfo::Basic(bt) => bt.matches(v),
            TypeInfo::HomList(bt) => {
                if !v.is_list() {
                    return false;
                }
                let n = v.len();
                let mut k: usize = 0;
                while k < n
                    invariant
                        *self == TypeInfo::HomList(*bt),
                        v@ is List,
                        n == v@.elems().len(),
                        k <= n,
                        forall|j: int| 0 <= j < k ==> bt.accepts(#[trigger] v@.elems()[j]),
                    decreases n - k,
                {
                    if !bt.matches(v.nth(k)) {
                        assert(!bt.accepts(v@.elems()[k as int]));
                        return false;
                    }
                    k = k + 1;
                }
                true
            },
            TypeInfo::Code => v.is_list(),
            TypeInfo::Eval(_) => false,
        }
    }
}

/// A value on the analysed stack: a constant pushed by the program, or a
/// value the analysis only knows the type of.
#[derive(Debug)]
pub enum VirtualVal {
    Concrete(Val),
    Virtual(StackParam),
}

/// The meaning of a `VirtualVal`.
pub enum AVirtual {
    Concrete(AVal),
    Virtual(StackParam),
}

impl VirtualVal {
    pub open spec fn view(&self) -> AVirtual {
        match self {
            VirtualVal::Concrete(v) => AVirtual::Concrete(v@),
            VirtualVal::Virtual(p) => AVirtual::Virtual(*p),
        }
    }

    /// A value with the same meaning.
    pub fn copy(&self) -> (r: VirtualVal)
        ensures
            r@ == self@,
    {
        match self {
            VirtualVal::Concrete(v) => VirtualVal::Concrete(v.copy()),
            VirtualVal::Virtual(p) => VirtualVal::Virtual(*p),
        }
    }
}

/// The meaning of an analysed stack, bottom first.
pub open spec fn virtuals_view(s: Seq<VirtualVal>) -> Seq<AVirtual> {
    s.map_values(|v: VirtualVal| v@)
}

pub broadcast proof fn lemma_virtuals_view_push(s: Seq<VirtualVal>, v: VirtualVal)
    ensures
        #[trigger] virtuals_view(s.push(v)) == virtuals_view(s).push(v@),
{
    assert(virtuals_view(s.push(v)) =~= virtuals_view(s).push(v@));
}

pub broadcast proof fn lemma_virtuals_view_subrange(s: Seq<VirtualVal>, i: int, j: int)
    requires
        0 <= i <= j <= s.len(),
    ensures
        #[trigger] virtuals_view(s.subrange(i, j)) == virtuals_view(s).subrange(i, j),
{
    assert(virtuals_view(s.subrange(i, j)) =~= virtuals_view(s).subrange(i, j));
}

pub broadcast group group_virtuals_view {
    lemma_virtuals_view_push,
    lemma_virtuals_view_subrange,
}

/// A copy of an analysed stack.
fn copy_stack(s: &Vec<VirtualVal>) -> (r: Vec<VirtualVal>)
    ensures
        virtuals_view(r@) == virtuals_view(s@),
{
    broadcast use group_virtuals_view;

    let mut r: Vec<VirtualVal> = Vec::new();
    let n = s.len();
    let mut i: usize = 0;
    while i < n
        invariant
            n == s@.len(),
            i <= n,
            virtuals_view(r@) == virtuals_view(s@).subrange(0, i as int),
        decreases n - i,
    {
        r.push(s[i].copy());
        i = i + 1;
        assert(virtuals_view(s@).subrange(0, i as int) =~= virtuals_view(s@).subrange(0, i - 1).push(s@[i - 1]@));
    }
    assert(virtuals_view(s@).subrange(0, n as int) =~= virtuals_view(s@));
    r
}

impl StackParam {
    /// Two slots fit each other when either is `Any` or both are the same.
    pub open spec fn agrees(self, other: StackParam) -> bool {
        self is Any || other is Any || self == other
    }

    /// Whether an analysed value can fill this slot.
    pub open spec fn accepts_virtual(self, v: AVirtual) -> bool {
        match v {
            AVirtual::Virtual(p) => self.agrees(p),
            AVirtual::Concrete(c) => match self {
                StackParam::Any => true,
                StackParam::Typed(ti) => ti.accepts(c),
            },
        }
    }

    pub fn matches(&self, other: &StackParam) -> (r: bool)
        ensures
            r == self.agrees(*other),
    {
        match (self, other) {
            (StackParam::Any, _) | (_, StackParam::Any) => true,
            (x, y) => *x == *y,
        }
    }

    pub fn matches_virtual(&self, other: &VirtualVal) -> (r: bool)
        ensures
            r == self.accepts_virtual(other@),
    {
        match other {
            VirtualVal::Virtual(p) => self.matches(p),
            VirtualVal::Concrete(v) => match self {
                StackParam::Any => true,
                StackParam::Typed(ti) => ti.matches(v),
            },
        }
    }
}

/// The last `n` elements of a sequence.
pub open spec fn last_n<A>(s: Seq<A>, n: int) -> Seq<A> {
    s.subrange(s.len() - n, s.len() as int)
}

/// The shorter of two lengths.
pub open spec fn shorter(a: nat, b: nat) -> int {
    if a <= b { a as int } else { b as int }
}

/// The two lists of slots agree from their tops down, as far as the shorter
/// one goes.
pub open spec fn suffix_agrees(a: Seq<StackParam>, b: Seq<StackParam>) -> bool {
    let n = shorter(a.len(), b.len());
    forall|k: int| 0 <= k < n ==> #[trigger] last_n(a, n)[k].agrees(last_n(b, n)[k])
}

/// The stack holds at least as many values as the slots, and its top values
/// fill them.
pub open spec fn usage_accepts(su: Seq<StackParam>, st: Seq<AVirtual>) -> bool {
    &&& su.len() <= st.len()
    &&& forall|k: int| 0 <= k < su.len() ==> #[trigger] su[k].accepts_virtual(last_n(st, su.len() as int)[k])
}

/// The stack effect of a word: the slots it takes off the stack and the slots
/// it leaves, each listed bottom first.
#[derive(Debug, PartialEq, Eq)]
pub struct StackUsage {
    stack_in: Vec<StackParam>,
    stack_out: Vec<StackParam>,
}

impl StackUsage {
    /// The slots taken and the slots left.
    pub closed spec fn view(&self) -> (Seq<StackParam>, Seq<StackParam>) {
        (self.stack_in@, self.stack_out@)
    }

    pub fn new(sin: Vec<StackParam>, sout: Vec<StackParam>) -> (r: StackUsage)
        ensures
            r@ == (sin@, sout@),
    {
        StackUsage { stack_in: sin, stack_out: sout }
    }

    /// The effect of taking `sin` and leaving `sout` values of any type.
    pub fn from_in_out_sizes(sin: usize, sout: usize) -> (r: StackUsage)
        ensures
            r@ == (Seq::new(sin as nat, |k: int| StackParam::Any), Seq::new(sout as nat, |k: int| StackParam::Any)),
    {
        StackUsage { stack_in: anys(sin), stack_out: anys(sout) }
    }

    /// Whether the two effects agree slot by slot, from the top of the stack
    /// down, on what they take and on what they leave.
    pub fn matches(&self, other: &StackUsage) -> (r: bool)
        ensures
            r == (suffix_agrees(self@.0, other@.0) && suffix_agrees(self@.1, other@.1)),
    {
        params_agree(self.stack_in.as_slice(), other.stack_in.as_slice())
            && params_agree(self.stack_out.as_slice(), other.stack_out.as_slice())
    }

    /// `matches`, with both effects taking and leaving as many values.
    pub fn matches_exact(&self, other: &StackUsage) -> (r: bool)
        ensures
            r == (self@.1.len() == other@.1.len() && self@.0.len() == other@.0.len()
                && suffix_agrees(self@.0, other@.0) && suffix_agrees(self@.1, other@.1)),
    {
        self.stack_out.len() == other.stack_out.len() && self.stack_in.len() == other.stack_in.len()
            && self.matches(other)
    }

    /// Whether the top of an analysed stack fills the slots.
    pub fn usage_matches_virtual(su: &[StackParam], other: &[VirtualVal]) -> (r: bool)
        ensures
            r == usage_accepts(su@, virtuals_view(other@)),
    {
        if su.len() > other.len() {
            return false;
        }
        let base = other.len() - su.len();
        let ghost st = virtuals_view(other@);
        let mut k: usize = 0;
        while k < su.len()
            invariant
                base + su@.len() == other@.len(),
                other@.len() <= usize::MAX,
                st == virtuals_view(other@),
                k <= su@.len(),
                forall|j: int| 0 <= j < k ==> #[trigger] su@[j].accepts_virtual(last_n(st, su@.len() as int)[j]),
            decreases su@.len() - k,
        {
            assert(last_n(st, su@.len() as int)[k as int] == other@[base + k]@);
            if !su[k].matches_virtual(&other[base + k]) {
                return false;
            }
            k = k + 1;
        }
        true
    }

    pub fn in_matches_virtual(&self, other: &[VirtualVal]) -> (r: bool)
        ensures
            r == usage_accepts(self@.0, virtuals_view(other@)),
    {
        Self::usage_matches_virtual(self.stack_in.as_slice(), other)
    }

    pub fn out_matches_virtual(&self, other: &[VirtualVal]) -> (r: bool)
        ensures
            r == usage_accepts(self@.1, virtuals_view(other@)),
    {
        Self::usage_matches_virtual(self.stack_out.as_slice(), other)
    }

    pub fn in_len(&self) -> (n: usize)
        ensures
            n == self@.0.len(),
    {
        self.stack_in.len()
    }

    pub fn out_len(&self) -> (n: usize)
        ensures
            n == self@.1.len(),
    {
        self.stack_out.len()
    }

    /// An effect with the same slots.
    pub fn copy(&self) -> (r: StackUsage)
        ensures
            r@ == self@,
    {
        StackUsage { stack_in: copy_params(&self.stack_in), stack_out: copy_params(&self.stack_out) }
    }
}

/// `n` slots of any type.
fn anys(n: usize) -> (r: Vec<StackParam>)
    ensures
        r@ == Seq::new(n as nat, |k: int| StackParam::Any),
{
    let mut r: Vec<StackParam> = Vec::new();
    let mut i: usize = 0;
    while i < n
        invariant
            i <= n,
            r@ == Seq::new(i as nat, |k: int| StackParam::Any),
        decreases n - i,
    {
        r.push(StackParam::Any);
        i = i + 1;
        assert(r@ =~= Seq::new(i as nat, |k: int| StackParam::Any));
    }
    r
}

fn copy_params(s: &Vec<StackParam>) -> (r: Vec<StackParam>)
    ensures
        r@ == s@,
{
    let mut r: Vec<StackParam> = Vec::new();
    let n = s.len();
    let mut i: usize = 0;
    while i < n
        invariant
            n == s@.len(),
            i <= n,
            r@ == s@.subrange(0, i as int),
        decreases n - i,
    {
        r.push(s[i]);
        i = i + 1;
        assert(r@ =~= s@.subrange(0, i as int));
    }
    assert(s@.subrange(0, n as int) =~= s@);
    r
}

/// Whether two lists of slots agree from their tops down.
fn params_agree(a: &[StackParam], b: &[StackParam]) -> (r: bool)
    ensures
        r == suffix_agrees(a@, b@),
{
    let n = if a.len() <= b.len() { a.len() } else { b.len() };
    let ba = a.len() - n;
    let bb = b.len() - n;
    let mut k: usize = 0;
    while k < n
        invariant
            n == shorter(a@.len(), b@.len()),
            ba + n == a@.len(),
            bb + n == b@.len(),
            a@.len() <= usize::MAX,
            b@.len() <= usize::MAX,
            k <= n,
            forall|j: int| 0 <= j < k ==> #[trigger] last_n(a@, n as int)[j].agrees(last_n(b@, n as int)[j]),
        decreases n - k,
    {
        assert(last_n(a@, n as int)[k as int] == a@[ba + k]);
        assert(last_n(b@, n as int)[k as int] == b@[bb + k]);
        if !a[ba + k].matches(&b[bb + k]) {
            return false;
        }
        k = k + 1;
    }
    true
}

/// Why a program was rejected.
#[derive(Debug)]
pub enum AnalysisError {
    /// A symbol that names no known word.
    LexicallyUndefinedSymbol(String),
    /// A word found the stack unfit for it: the word's name, the stack it
    /// found and the word's stack effect.
    StackMismatch(String, Vec<VirtualVal>, StackUsage),
}

/// The meaning of an `AnalysisError`.
pub enum AError {
    Undefined(Seq<char>),
    Mismatch(Seq<char>, Seq<AVirtual>, (Seq<StackParam>, Seq<StackParam>)),
}

impl AnalysisError {
    pub open spec fn view(&self) -> AError {
        match self {
            AnalysisError::LexicallyUndefinedSymbol(name) => AError::Undefined(name@),
            AnalysisError::StackMismatch(name, st, su) => AError::Mismatch(name@, virtuals_view(st@), su@),
        }
    }
}

/// The stack effect of a known word: the slots it takes, the slots it leaves,
/// and for each slot it leaves, the input slot whose value it passes on
/// unchanged, if any.
pub struct AInfo {
    pub ins: Seq<StackParam>,
    pub outs: Seq<StackParam>,
    pub fwd: Seq<Option<usize>>,
}

/// Each left slot has a forwarding entry, and each forwarded input exists.
pub open spec fn fwd_ok(e: AInfo) -> bool {
    &&& e.fwd.len() == e.outs.len()
    &&& forall|j: int| 0 <= j < e.fwd.len() ==> (#[trigger] e.fwd[j] matches Some(i) ==> i < e.ins.len())
}

/// An effect that leaves only new values.
pub open spec fn fresh(ins: Seq<StackParam>, outs: Seq<StackParam>) -> AInfo {
    AInfo { ins, outs, fwd: Seq::new(outs.len(), |j: int| None) }
}

pub open spec fn int_param() -> StackParam {
    StackParam::Typed(TypeInfo::Basic(BasicType::Int))
}

/// The number of words the analysis knows.
pub const NUM_INFO: usize = 22;

/// The known words, each with its name and stack effect. Truth values are
/// integers. `locals {names} {code}` takes the names from the top of the
/// stack and the code from under them.
pub open spec fn info_entry(i: int) -> (Seq<char>, AInfo) {
    info_at(i as u8)
}

pub open spec fn info_at(i: u8) -> (Seq<char>, AInfo) {
    let a = StackParam::Any;
    let n = int_param();
    match i {
        0 => ("drop"@, AInfo { ins: seq![a], outs: seq![], fwd: seq![] }),
        1 => ("dup"@, AInfo { ins: seq![a], outs: seq![a, a], fwd: seq![Some(0usize), Some(0usize)] }),
        2 => ("swap"@, AInfo { ins: seq![a, a], outs: seq![a, a], fwd: seq![Some(1usize), Some(0usize)] }),
        3 => ("+"@, fresh(seq![n, n], seq![n])),
        4 => ("-"@, fresh(seq![n, n], seq![n])),
        5 => ("*"@, fresh(seq![n, n], seq![n])),
        6 => ("/"@, fresh(seq![n, n], seq![n])),
        7 => ("%"@, fresh(seq![n, n], seq![n])),
        8 => ("="@, fresh(seq![a, a], seq![n])),
        9 => ("<>"@, fresh(seq![a, a], seq![n])),
        10 => ("<"@, fresh(seq![n, n], seq![n])),
        11 => ("<="@, fresh(seq![n, n], seq![n])),
        12 => (">"@, fresh(seq![n, n], seq![n])),
        13 => (">="@, fresh(seq![n, n], seq![n])),
        14 => ("true"@, fresh(seq![], seq![n])),
        15 => ("false"@, fresh(seq![], seq![n])),
        16 => ("&&"@, fresh(seq![a, a], seq![a])),
        17 => ("||"@, fresh(seq![a, a], seq![a])),
        18 => ("not"@, fresh(seq![a], seq![n])),
        19 => ("%{leave-scope}"@, fresh(seq![], seq![])),
        20 => ("locals"@, fresh(
            seq![StackParam::Typed(TypeInfo::Code), StackParam::Typed(TypeInfo::HomList(BasicType::Sym))],
            seq![StackParam::Typed(TypeInfo::Eval(0))],
        )),
        _ => ("unquote"@, fresh(seq![StackParam::Typed(TypeInfo::Code)], seq![StackParam::Typed(TypeInfo::Eval(0))])),
    }
}

/// `n` slots that pass nothing on.
fn nones(n: usize) -> (r: Vec<Option<usize>>)
    ensures
        r@ == Seq::new(n as nat, |j: int| None::<usize>),
{
    let mut r: Vec<Option<usize>> = Vec::new();
    let mut i: usize = 0;
    while i < n
        invariant
            i <= n,
            r@ == Seq::new(i as nat, |j: int| None::<usize>),
        decreases n - i,
    {
        r.push(None);
        i = i + 1;
        assert(r@ =~= Seq::new(i as nat, |j: int| None::<usize>));
    }
    r
}

fn info_entry_exec(i: usize) -> (r: (&'static str, StackUsage, Vec<Option<usize>>))
    requires
        i < NUM_INFO,
    ensures
        r.0@ == info_entry(i as int).0,
        r.1@ == (info_entry(i as int).1.ins, info_entry(i as int).1.outs),
        r.2@ == info_entry(i as int).1.fwd,
        fwd_ok(info_entry(i as int).1),
{
    let a = StackParam::Any;
    let n = StackParam::Typed(TypeInfo::Basic(BasicType::Int));
    let code = StackParam::Typed(TypeInfo::Code);
    let r = match i {
        0 => ("drop", StackUsage::new(vec![a], vec![]), vec![]),
        1 => ("dup", StackUsage::new(vec![a], vec![a, a]), vec![Some(0usize), Some(0usize)]),
        2 => ("swap", StackUsage::new(vec![a, a], vec![a, a]), vec![Some(1usize), Some(0usize)]),
        3 => ("+", StackUsage::new(vec![n, n], vec![n]), nones(1)),
        4 => ("-", StackUsage::new(vec![n, n], vec![n]), nones(1)),
        5 => ("*", StackUsage::new(vec![n, n], vec![n]), nones(1)),
        6 => ("/", StackUsage::new(vec![n, n], vec![n]), nones(1)),
        7 => ("%", StackUsage::new(vec![n, n], vec![n]), nones(1)),
        8 => ("=", StackUsage::new(vec![a, a], vec![n]), nones(1)),
        9 => ("<>", StackUsage::new(vec![a, a], vec![n]), nones(1)),
        10 => ("<", StackUsage::new(vec![n, n], vec![n]), nones(1)),
        11 => ("<=", StackUsage::new(vec![n, n], vec![n]), nones(1)),
        12 => (">", StackUsage::new(vec![n, n], vec![n]), nones(1)),
        13 => (">=", StackUsage::new(vec![n, n], vec![n]), nones(1)),
        14 => ("true", StackUsage::new(vec![], vec![n]), nones(1)),
        15 => ("false", StackUsage::new(vec![], vec![n]), nones(1)),
        16 => ("&&", StackUsage::new(vec![a, a], vec![a]), nones(1)),
        17 => ("||", StackUsage::new(vec![a, a], vec![a]), nones(1)),
        18 => ("not", StackUsage::new(vec![a], vec![n]), nones(1)),
        19 => ("%{leave-scope}", StackUsage::new(vec![], vec![]), nones(0)),
        20 => ("locals", StackUsage::new(
            vec![code, StackParam::Typed(TypeInfo::HomList(BasicType::Sym))],
            vec![StackParam::Typed(TypeInfo::Eval(0))],
        ), nones(1)),
        _ => ("unquote", StackUsage::new(vec![code], vec![StackParam::Typed(TypeInfo::Eval(0))]), nones(1)),
    };
    proof {
        assert(r.2@ =~= info_entry(i as int).1.fwd);
    }
    r
}

/// The lookup table of the analysis after registering the first `i` known
/// words, each under its symbol in the table `t` if its name is interned there.
pub open spec fn info_map(t: Seq<Seq<char>>, i: int) -> Map<u64, AInfo>
    decreases i,
{
    if i <= 0 {
        Map::empty()
    } else {
        let (name, e) = info_entry(i - 1);
        if t.contains(name) {
            info_map(t, i - 1).insert(sym_of(t, name), e)
        } else {
            info_map(t, i - 1)
        }
    }
}

/// The stack effects of the known words whose names `t` interns.
pub open spec fn info_for(t: Seq<Seq<char>>) -> Map<u64, AInfo> {
    info_map(t, NUM_INFO as int)
}

/// A known word's entry in the lookup table.
struct BuiltinInfoEntry {
    name: Sym,
    stack_usage: StackUsage,
    forwards: Vec<Option<usize>>,
}

impl BuiltinInfoEntry {
    spec fn view(&self) -> AInfo {
        AInfo { ins: self.stack_usage@.0, outs: self.stack_usage@.1, fwd: self.forwards@ }
    }

    fn new(s: Sym, usage: StackUsage, forwards: Vec<Option<usize>>) -> (r: BuiltinInfoEntry)
        ensures
            r.name == s,
            r@ == (AInfo { ins: usage@.0, outs: usage@.1, fwd: forwards@ }),
    {
        BuiltinInfoEntry { name: s, stack_usage: usage, forwards }
    }
}

/// The lookup table holds the first `i` registrations, and every entry's
/// forwarding is well formed.
spec fn info_ok_upto(bi: Map<u64, BuiltinInfoEntry>, t: Seq<Seq<char>>, i: int) -> bool {
    &&& bi.dom() == info_map(t, i).dom()
    &&& forall|k: u64| #[trigger] bi.contains_key(k) ==> bi[k]@ == info_map(t, i)[k] && fwd_ok(bi[k]@)
}

spec fn info_ok(bi: Map<u64, BuiltinInfoEntry>, t: Seq<Seq<char>>) -> bool {
    info_ok_upto(bi, t, NUM_INFO as int)
}

/// Registers the stack effect of each known word whose name `t` interns.
fn builtin_info(t: &SymbolTable) -> (bi: HashMap<u64, BuiltinInfoEntry>)
    requires
        t.wf(),
    ensures
        info_ok(bi@, t@),
{
    broadcast use vstd::std_specs::hash::group_hash_axioms;

    let mut bi: HashMap<u64, BuiltinInfoEntry> = HashMap::new();
    let mut i: usize = 0;
    assert(bi@.dom() =~= info_map(t@, 0).dom());
    while i < NUM_INFO
        invariant
            i <= NUM_INFO,
            t.wf(),
            info_ok_upto(bi@, t@, i as int),
        decreases NUM_INFO - i,
    {
        let (name, usage, fwd) = info_entry_exec(i);
        let ghost before = bi@;
        match t.try_get(name) {
            Some(s) => {
                proof {
                    lemma_index_of_unique(t@, s.0 - 1);
                    assert(t@.contains(name@)) by {
                        assert(t@[s.0 - 1] == name@);
                    }
                }
                bi.insert(s.0, BuiltinInfoEntry::new(s, usage, fwd));
                assert(bi@.dom() =~= info_map(t@, i + 1).dom());
            },
            None => {},
        }
        i = i + 1;
    }
    bi
}

/// Every symbol in the value names one of the `n` strings of a table.
pub open spec fn syms_valid(v: AVal, n: nat) -> bool
    decreases v,
{
    match v {
        AVal::Sym(x) => 1 <= x <= n,
        AVal::List(vs) => forall|k: int| 0 <= k < vs.len() ==> syms_valid(#[trigger] vs[k], n),
        _ => true,
    }
}

pub open spec fn all_syms_valid(s: Seq<AVal>, n: nat) -> bool {
    forall|k: int| 0 <= k < s.len() ==> syms_valid(#[trigger] s[k], n)
}

pub open spec fn virtual_syms_valid(v: AVirtual, n: nat) -> bool {
    v matches AVirtual::Concrete(c) ==> syms_valid(c, n)
}

pub open spec fn stack_syms_valid(st: Seq<AVirtual>, n: nat) -> bool {
    forall|k: int| 0 <= k < st.len() ==> virtual_syms_valid(#[trigger] st[k], n)
}

/// The stack after a word with effect `e` runs on it: the inputs are taken
/// off, and each output is either the input it passes on or a new value of
/// its slot's type.
pub open spec fn apply_usage(st: Seq<AVirtual>, e: AInfo) -> Seq<AVirtual> {
    let base = st.len() - e.ins.len();
    st.subrange(0, base) + Seq::new(
        e.outs.len(),
        |j: int|
            match e.fwd[j] {
                Some(i) => st[base + i],
                None => AVirtual::Virtual(e.outs[j]),
            },
    )
}

/// A word that takes one piece of code and leaves what evaluating it leaves.
pub open spec fn evaluates_code(e: AInfo) -> bool {
    e.ins.len() == 1 && e.outs == seq![StackParam::Typed(TypeInfo::Eval(0))]
}

/// A list pushed by the program, whose contents the analysis can see.
pub open spec fn concrete_code(v: AVirtual) -> bool {
    v matches AVirtual::Concrete(c) && c is List
}

/// How many pieces of code the analysis follows into, in all, before it
/// treats further code by its declared effect alone. Code can unquote itself
/// (`unquote dup {unquote dup}`), so without a bound the analysis would not
/// end; 256 is far more than the nesting of any ordinary program.
pub const INLINE_FUEL: u64 = 256;

/// The effect of the symbol `x` on the analysed stack `st`, with `fuel`
/// inlinings left: an unknown word is an error, and so is a word whose
/// inputs the stack cannot fill. A word that evaluates code which the stack
/// holds concretely is followed into that code while fuel lasts; any other
/// word has its declared effect. Gives the new stack and the fuel left.
pub open spec fn sym_effect(t: Seq<Seq<char>>, x: u64, st: Seq<AVirtual>, fuel: nat) -> Result<
    (Seq<AVirtual>, nat),
    AError,
>
    decreases fuel, 0nat,
{
    let m = info_for(t);
    let name = t[x - 1];
    if !m.contains_key(x) {
        Err(AError::Undefined(name))
    } else if !usage_accepts(m[x].ins, st) {
        Err(AError::Mismatch(name, st, (m[x].ins, m[x].outs)))
    } else if evaluates_code(m[x]) && concrete_code(st.last()) && fuel > 0 {
        analyze_spec(t, st.last()->Concrete_0.elems(), st.drop_last(), (fuel - 1) as nat)
    } else {
        Ok((apply_usage(st, m[x]), fuel))
    }
}

/// The analysis of a program on the stack `st`: the program runs from its
/// last value to its first; a symbol has its effect (`sym_effect`), and any
/// other value is pushed as a constant. Stops at the first error.
pub open spec fn analyze_spec(t: Seq<Seq<char>>, prog: Seq<AVal>, st: Seq<AVirtual>, fuel: nat) -> Result<
    (Seq<AVirtual>, nat),
    AError,
>
    decreases fuel, prog.len(),
{
    if prog.len() == 0 {
        Ok((st, fuel))
    } else {
        let stepped = match prog.last() {
            AVal::Sym(x) => sym_effect(t, x, st, fuel),
            v => Ok((st.push(AVirtual::Concrete(v)), fuel)),
        };
        match stepped {
            Ok((st2, f2)) => analyze_spec(t, prog.drop_last(), st2, if f2 <= fuel { f2 } else { fuel }),
            Err(e) => Err(e),
        }
    }
}

/// The state of an analysis: the analysed stack and the inlinings left.
struct Ctx {
    virtual_stack: Vec<VirtualVal>,
    fuel: u64,
}

impl Ctx {
    spec fn st(&self) -> Seq<AVirtual> {
        virtuals_view(self.virtual_stack@)
    }

    /// An analysis that starts on an empty stack with all its fuel.
    fn new() -> (c: Ctx)
        ensures
            c.st() == Seq::<AVirtual>::empty(),
            c.fuel == INLINE_FUEL,
    {
        let c = Ctx { virtual_stack: Vec::new(), fuel: INLINE_FUEL };
        assert(c.st() =~= Seq::<AVirtual>::empty());
        c
    }

    /// Applies a word's declared effect to a stack that fills its inputs.
    fn uses(&mut self, e: &BuiltinInfoEntry, Ghost(n): Ghost<nat>)
        requires
            usage_accepts(e@.ins, old(self).st()),
            fwd_ok(e@),
            stack_syms_valid(old(self).st(), n),
        ensures
            final(self).st() == apply_usage(old(self).st(), e@),
            final(self).fuel == old(self).fuel,
            stack_syms_valid(final(self).st(), n),
    {
        broadcast use group_virtuals_view;

        let ghost st0 = self.st();
        let ghost fuel0 = self.fuel;
        let nin = e.stack_usage.stack_in.len();
        let base = self.virtual_stack.len() - nin;
        let inputs = self.virtual_stack.split_off(base);
        let nout = e.stack_usage.stack_out.len();
        let mut j: usize = 0;
        let ghost target = apply_usage(st0, e@);
        assert(self.st() =~= target.subrange(0, base as int));
        while j < nout
            invariant
                nout == e@.outs.len(),
                fwd_ok(e@),
                base + nin == st0.len(),
                nin == e@.ins.len(),
                virtuals_view(inputs@) == st0.subrange(base as int, st0.len() as int),
                inputs@.len() == nin,
                target == apply_usage(st0, e@),
                target.len() == base + nout,
                j <= nout,
                self.st() == target.subrange(0, base + j),
                stack_syms_valid(st0, n),
                stack_syms_valid(self.st(), n),
                self.fuel == fuel0,
            decreases nout - j,
        {
            assert(e@.fwd[j as int] == e.forwards@[j as int]);
            let v = match e.forwards[j] {
                Some(i) => {
                    assert(inputs@[i as int]@ == virtuals_view(inputs@)[i as int]);
                    inputs[i].copy()
                },
                None => VirtualVal::Virtual(e.stack_usage.stack_out[j]),
            };
            assert(v@ == target[base + j]);
            assert(virtual_syms_valid(v@, n)) by {
                if let Some(i) = e@.fwd[j as int] {
                    assert(v@ == st0[base + i]);
                }
            }
            let ghost prev = self.virtual_stack@;
            let ghost vv = v@;
            self.virtual_stack.push(v);
            proof {
                lemma_virtuals_view_push(prev, v);
                assert(self.virtual_stack@ == prev.push(v));
            }
            j = j + 1;
            assert(self.st() =~= target.subrange(0, base + j));
        }
        assert(target.subrange(0, base + nout) =~= target);
    }

    /// Whether the top of the analysed stack is a list the program pushed.
    fn top_is_code(&self) -> (r: bool)
        ensures
            r == (self.st().len() > 0 && concrete_code(self.st().last())),
    {
        let n = self.virtual_stack.len();
        if n == 0 {
            return false;
        }
        assert(self.st().last() == self.virtual_stack@[n - 1]@);
        match &self.virtual_stack[n - 1] {
            VirtualVal::Concrete(v) => v.is_list(),
            VirtualVal::Virtual(_) => false,
        }
    }

    /// Analyses one occurrence of the symbol `x`.
    fn analyze_sym(&mut self, t: &SymbolTable, bi: &HashMap<u64, BuiltinInfoEntry>, x: Sym) -> (r: Result<(), AnalysisError>)
        requires
            t.wf(),
            t.has(x),
            info_ok(bi@, t@),
            stack_syms_valid(old(self).st(), t@.len()),
        ensures
            final(self).fuel <= old(self).fuel,
            stack_syms_valid(final(self).st(), t@.len()),
            match sym_effect(t@, x.0, old(self).st(), old(self).fuel as nat) {
                Ok((st, f)) => r is Ok && final(self).st() == st && final(self).fuel == f,
                Err(e) => r is Err && r->Err_0@ == e,
            },
        decreases old(self).fuel, 0nat,
    {
        broadcast use vstd::std_specs::hash::group_hash_axioms, group_virtuals_view;

        let e = match bi.get(&x.0) {
            None => {
                return Err(AnalysisError::LexicallyUndefinedSymbol(str_to_string(t.str(x))));
            },
            Some(e) => e,
        };
        if !StackUsage::usage_matches_virtual(e.stack_usage.stack_in.as_slice(), self.virtual_stack.as_slice()) {
            let name = str_to_string(t.str(x));
            return Err(AnalysisError::StackMismatch(name, copy_stack(&self.virtual_stack), e.stack_usage.copy()));
        }
        let evaluates = e.stack_usage.stack_in.len() == 1 && e.stack_usage.stack_out.len() == 1
            && e.stack_usage.stack_out[0] == StackParam::Typed(TypeInfo::Eval(0));
        proof {
            if evaluates_code(e@) {
                assert(e@.outs[0] == StackParam::Typed(TypeInfo::Eval(0)));
            }
            if evaluates {
                assert(e@.outs =~= seq![StackParam::Typed(TypeInfo::Eval(0))]);
            }
        }
        if evaluates && self.fuel > 0 && self.top_is_code() {
            let ghost st0 = self.st();
            let ghost prev = self.virtual_stack@;
            let top = self.virtual_stack.pop();
            proof {
                assert(prev =~= self.virtual_stack@.push(top->Some_0));
                lemma_virtuals_view_push(self.virtual_stack@, top->Some_0);
                assert(self.st() =~= st0.drop_last());
                assert(virtual_syms_valid(st0[st0.len() - 1], t@.len()));
            }
            self.fuel = self.fuel - 1;
            match top {
                Some(VirtualVal::Concrete(code)) => self.analyze_code(t, bi, &code),
                _ => Ok(()),
            }
        } else {
            self.uses(e, Ghost(t@.len()));
            Ok(())
        }
    }

    /// Analyses the elements of a list, from the last to the first.
    fn analyze_code(&mut self, t: &SymbolTable, bi: &HashMap<u64, BuiltinInfoEntry>, code: &Val) -> (r: Result<(), AnalysisError>)
        requires
            t.wf(),
            info_ok(bi@, t@),
            code@ is List,
            syms_valid(code@, t@.len()),
            stack_syms_valid(old(self).st(), t@.len()),
        ensures
            final(self).fuel <= old(self).fuel,
            stack_syms_valid(final(self).st(), t@.len()),
            match analyze_spec(t@, code@.elems(), old(self).st(), old(self).fuel as nat) {
                Ok((st, f)) => r is Ok && final(self).st() == st && final(self).fuel == f,
                Err(e) => r is Err && r->Err_0@ == e,
            },
        decreases old(self).fuel, 1nat,
    {
        broadcast use group_virtuals_view;

        let ghost prog = code@.elems();
        let ghost whole = analyze_spec(t@, prog, self.st(), self.fuel as nat);
        let ghost fuel0 = self.fuel;
        let n = code.len();
        let mut i: usize = n;
        assert(prog.take(n as int) =~= prog);
        while i > 0
            invariant
                t.wf(),
                info_ok(bi@, t@),
                code@ is List,
                prog == code@.elems(),
                n == prog.len(),
                i <= n,
                all_syms_valid(prog, t@.len()),
                stack_syms_valid(self.st(), t@.len()),
                fuel0 == old(self).fuel,
                whole == analyze_spec(t@, prog, old(self).st(), old(self).fuel as nat),
                self.fuel <= fuel0,
                whole == analyze_spec(t@, prog.take(i as int), self.st(), self.fuel as nat),
            decreases i,
        {
            let ghost f = self.fuel;
            let ghost rest = prog.take(i as int);
            assert(rest.last() == prog[i - 1]);
            assert(rest.drop_last() =~= prog.take(i - 1));
            let step = code.nth(i - 1);
            assert(syms_valid(prog[i - 1], t@.len()));
            match step {
                Val::Sym(x) => {
                    let r = self.analyze_sym(t, bi, *x);
                    if r.is_err() {
                        return r;
                    }
                },
                _ => {
                    let ghost prev = self.virtual_stack@;
                    let v = VirtualVal::Concrete(step.copy());
                    self.virtual_stack.push(v);
                    proof {
                        lemma_virtuals_view_push(prev, v);
                    }
                },
            }
            i = i - 1;
        }
        Ok(())
    }

    /// Analyses a program, from its last value to its first.
    fn analyze_program(&mut self, t: &SymbolTable, bi: &HashMap<u64, BuiltinInfoEntry>, program: &Vals) -> (r: Result<(), AnalysisError>)
        requires
            t.wf(),
            info_ok(bi@, t@),
            all_syms_valid(vals_view(program@), t@.len()),
            stack_syms_valid(old(self).st(), t@.len()),
        ensures
            match analyze_spec(t@, vals_view(program@), old(self).st(), old(self).fuel as nat) {
                Ok((st, f)) => r is Ok && final(self).st() == st && final(self).fuel == f,
                Err(e) => r is Err && r->Err_0@ == e,
            },
    {
        broadcast use group_virtuals_view, group_vals_view;

        let ghost prog = vals_view(program@);
        let ghost whole = analyze_spec(t@, prog, self.st(), self.fuel as nat);
        let n = program.len();
        let mut i: usize = n;
        assert(prog.take(n as int) =~= prog);
        while i > 0
            invariant
                t.wf(),
                info_ok(bi@, t@),
                prog == vals_view(program@),
                whole == analyze_spec(t@, prog, old(self).st(), old(self).fuel as nat),
                n == prog.len(),
                i <= n,
                all_syms_valid(prog, t@.len()),
                stack_syms_valid(self.st(), t@.len()),
                whole == analyze_spec(t@, prog.take(i as int), self.st(), self.fuel as nat),
            decreases i,
        {
            let ghost rest = prog.take(i as int);
            assert(rest.last() == prog[i - 1]);
            assert(rest.drop_last() =~= prog.take(i - 1));
            let step = &program[i - 1];
            assert(step@ == prog[i - 1]);
            assert(syms_valid(prog[i - 1], t@.len()));
            match step {
                Val::Sym(x) => {
                    let r = self.analyze_sym(t, bi, *x);
                    if r.is_err() {
                        return r;
                    }
                },
                _ => {
                    let ghost prev = self.virtual_stack@;
                    let v = VirtualVal::Concrete(step.copy());
                    self.virtual_stack.push(v);
                    proof {
                        lemma_virtuals_view_push(prev, v);
                    }
                },
            }
            i = i - 1;
        }
        Ok(())
    }
}

/// Checks a program's stack effect without running it: the program runs
/// from its last value to its first on a stack that starts empty, each
/// constant pushed, and each symbol taking and leaving what its known effect
/// says (code that the stack holds concretely is followed into). Gives the
/// effect of the whole program, which takes nothing and leaves the values of
/// the final stack, or the first error.
pub fn analyze(t: &SymbolTable, program: &Vals) -> (r: Result<StackUsage, AnalysisError>)
    requires
        t.wf(),
        all_syms_valid(vals_view(program@), t@.len()),
    ensures
        match analyze_spec(t@, vals_view(program@), Seq::empty(), INLINE_FUEL as nat) {
            Ok((st, _)) => r is Ok && r->Ok_0@ == (
                Seq::<StackParam>::empty(),
                Seq::new(st.len(), |k: int| StackParam::Any),
            ),
            Err(e) => r is Err && r->Err_0@ == e,
        },
{
    let bi = builtin_info(t);
    let mut ctx = Ctx::new();
    match ctx.analyze_program(t, &bi, program) {
        Err(e) => Err(e),
        Ok(()) => Ok(StackUsage::from_in_out_sizes(0, ctx.virtual_stack.len())),
    }
}

} // verus!
