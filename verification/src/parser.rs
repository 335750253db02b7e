use vstd::prelude::*;
use std::collections::VecDeque;
use crate::val::{AVal, Val, Vals, SymbolTable, Sym, vals_view, interned, group_vals_view, str_to_string, chars_of, string_of};

verus! {

broadcast use group_vals_view;

/// A parsed value before its names are interned.
pub enum PVal {
    Int(i64),
    Sym(Seq<char>),
    Kw(Seq<char>),
    List(Seq<PVal>),
}

/// `char::is_whitespace`: the characters with the Unicode `White_Space`
/// property.
pub open spec fn spec_is_whitespace(c: char) -> bool {
    ||| '\u{9}' <= c <= '\u{d}'
    ||| c == ' '
    ||| c == '\u{85}'
    ||| c == '\u{a0}'
    ||| c == '\u{1680}'
    ||| '\u{2000}' <= c <= '\u{200a}'
    ||| c == '\u{2028}'
    ||| c == '\u{2029}'
    ||| c == '\u{202f}'
    ||| c == '\u{205f}'
    ||| c == '\u{3000}'
}

/// The characters that end an atom.
pub open spec fn is_delim(c: char) -> bool {
    spec_is_whitespace(c) || c == '{' || c == '}'
}

/// The end of the atom that starts at `i`: the first delimiter at or after
/// `i`, or the end of the input.
pub open spec fn token_end(cs: Seq<char>, i: int) -> int
    decreases cs.len() - i,
{
    if i < 0 || i >= cs.len() || is_delim(cs[i]) {
        i
    } else {
        token_end(cs, i + 1)
    }
}

pub open spec fn is_digit(c: char) -> bool {
    '0' <= c <= '9'
}

pub open spec fn all_digits(ds: Seq<char>) -> bool {
    forall|k: int| 0 <= k < ds.len() ==> is_digit(#[trigger] ds[k])
}

/// The number that a string of decimal digits writes.
pub open spec fn digits_value(ds: Seq<char>) -> int
    decreases ds.len(),
{
    if ds.len() == 0 {
        0
    } else {
        digits_value(ds.drop_last()) * 10 + (ds.last() as int - '0' as int)
    }
}

pub open spec fn too_large_msg() -> Seq<char> {
    "number too large to fit in target type"@
}

pub open spec fn too_small_msg() -> Seq<char> {
    "number too small to fit in target type"@
}

/// What an atom's text stands for: a keyword (after `:`), an integer (digits
/// with an optional leading `-`), or else a symbol.
pub open spec fn atom_value(buf: Seq<char>, kw: bool) -> Result<PVal, Seq<char>> {
    if buf.len() == 0 {
        Err("unexpected token"@)
    } else if kw {
        Ok(PVal::Kw(buf))
    } else {
        let neg = buf[0] == '-' && buf.len() > 1;
        let ds = if neg {
            buf.drop_first()
        } else {
            buf
        };
        if all_digits(ds) {
            let d = digits_value(ds);
            if neg {
                if -d < i64::MIN {
                    Err(too_small_msg() + buf)
                } else {
                    Ok(PVal::Int((-d) as i64))
                }
            } else {
                if d > i64::MAX {
                    Err(too_large_msg() + buf)
                } else {
                    Ok(PVal::Int(d as i64))
                }
            }
        } else {
            Ok(PVal::Sym(buf))
        }
    }
}

/// The names that a parsed value interns.
pub open spec fn pval_names(v: PVal) -> Seq<Seq<char>> {
    match v {
        PVal::Sym(n) => seq![n],
        PVal::Kw(n) => seq![n],
        _ => Seq::empty(),
    }
}

/// The outcome of parsing from a position: the values and the position after
/// them, or an error message.
pub type PSeqResult = Result<(Seq<PVal>, int), Seq<char>>;

/// Parses values from position `i` up to the end of the input or, inside a
/// quotation, up to its closing `}`. Also gives the atom names met, in order
/// (those that are interned, up to an error if there is one).
pub open spec fn parse_seq(cs: Seq<char>, i: int, nested: bool) -> (PSeqResult, Seq<Seq<char>>)
    decreases cs.len() - i,
{
    if i < 0 || i >= cs.len() {
        if nested {
            (Err("unclosed '{'"@), Seq::empty())
        } else {
            (Ok((Seq::empty(), i)), Seq::empty())
        }
    } else if cs[i] == '{' {
        let (r1, n1) = parse_seq(cs, i + 1, true);
        match r1 {
            Err(e) => (Err(e), n1),
            Ok((inner, j)) => {
                if i < j <= cs.len() {
                    let (r2, n2) = parse_seq(cs, j, nested);
                    match r2 {
                        Err(e) => (Err(e), n1 + n2),
                        Ok((rest, k)) => (Ok((seq![PVal::List(inner)] + rest, k)), n1 + n2),
                    }
                } else {
                    (Err(Seq::empty()), n1)
                }
            },
        }
    } else if cs[i] == '}' {
        if nested {
            (Ok((Seq::empty(), i + 1)), Seq::empty())
        } else {
            (Err("unexpected '}'"@), Seq::empty())
        }
    } else if spec_is_whitespace(cs[i]) {
        parse_seq(cs, i + 1, nested)
    } else {
        let kw = cs[i] == ':';
        let start = if kw {
            i + 1
        } else {
            i
        };
        let e = token_end(cs, start);
        match atom_value(cs.subrange(start, e), kw) {
            Err(msg) => (Err(msg), Seq::empty()),
            Ok(v) => {
                if i < e <= cs.len() {
                    let (r2, n2) = parse_seq(cs, e, nested);
                    match r2 {
                        Err(msg) => (Err(msg), pval_names(v) + n2),
                        Ok((rest, k)) => (Ok((seq![v] + rest, k)), pval_names(v) + n2),
                    }
                } else {
                    (Err(Seq::empty()), Seq::empty())
                }
            },
        }
    }
}

/// The table after interning `names` in order.
pub open spec fn intern_all(t: Seq<Seq<char>>, names: Seq<Seq<char>>) -> Seq<Seq<char>>
    decreases names.len(),
{
    if names.len() == 0 {
        t
    } else {
        intern_all(interned(t, names[0]), names.drop_first())
    }
}

/// `a` is what `p` means once its names are looked up in the table `t`.
pub open spec fn resolves(t: Seq<Seq<char>>, a: AVal, p: PVal) -> bool
    decreases p,
{
    match (a, p) {
        (AVal::Int(i), PVal::Int(j)) => i == j,
        (AVal::Sym(s), PVal::Sym(n)) => 1 <= s <= t.len() && t[s - 1] == n,
        (AVal::Kw(s), PVal::Kw(n)) => 1 <= s <= t.len() && t[s - 1] == n,
        (AVal::List(xs), PVal::List(ps)) => xs.len() == ps.len() && forall|k: int|
            0 <= k < ps.len() ==> resolves(t, #[trigger] xs[k], ps[k]),
        _ => false,
    }
}

pub open spec fn resolves_seq(t: Seq<Seq<char>>, xs: Seq<AVal>, ps: Seq<PVal>) -> bool {
    xs.len() == ps.len() && forall|k: int| 0 <= k < ps.len() ==> resolves(t, #[trigger] xs[k], ps[k])
}

/// What `parse` gives for `input`: the values, with names yet to intern, or
/// the error message.
pub open spec fn spec_parse(input: Seq<char>) -> Result<Seq<PVal>, Seq<char>> {
    match parse_seq(input, 0, false).0 {
        Ok((vs, _)) => Ok(vs),
        Err(e) => Err(e),
    }
}

pub(crate) proof fn lemma_token_end(cs: Seq<char>, i: int)
    requires
        0 <= i <= cs.len(),
    ensures
        i <= token_end(cs, i) <= cs.len(),
        forall|k: int| i <= k < token_end(cs, i) ==> !is_delim(#[trigger] cs[k]),
        token_end(cs, i) < cs.len() ==> is_delim(cs[token_end(cs, i)]),
    decreases cs.len() - i,
{
    if i < cs.len() && !is_delim(cs[i]) {
        lemma_token_end(cs, i + 1);
    }
}

/// Positions only move forward, and an enclosed parse ends past its `}`.
pub(crate) proof fn lemma_parse_seq_pos(cs: Seq<char>, i: int, nested: bool)
    requires
        0 <= i <= cs.len(),
    ensures
        parse_seq(cs, i, nested).0 matches Ok((_, j)) ==> i <= j <= cs.len() && (nested ==> i
            < j),
    decreases cs.len() - i,
{
    if i < cs.len() {
        if cs[i] == '{' {
            lemma_parse_seq_pos(cs, i + 1, true);
            let (r1, _) = parse_seq(cs, i + 1, true);
            if let Ok((_, j)) = r1 {
                lemma_parse_seq_pos(cs, j, nested);
            }
        } else if cs[i] == '}' {
        } else if spec_is_whitespace(cs[i]) {
            lemma_parse_seq_pos(cs, i + 1, nested);
        } else {
            let kw = cs[i] == ':';
            let start = if kw {
                i + 1
            } else {
                i
            };
            lemma_token_end(cs, start);
            let e = token_end(cs, start);
            if let Ok(v) = atom_value(cs.subrange(start, e), kw) {
                lemma_parse_seq_pos(cs, e, nested);
            }
        }
    }
}

pub(crate) proof fn lemma_intern_all_prefix(t: Seq<Seq<char>>, names: Seq<Seq<char>>)
    ensures
        t.len() <= intern_all(t, names).len(),
        forall|k: int| 0 <= k < t.len() ==> #[trigger] intern_all(t, names)[k] == t[k],
    decreases names.len(),
{
    if names.len() > 0 {
        lemma_intern_all_prefix(interned(t, names[0]), names.drop_first());
    }
}

pub(crate) proof fn lemma_intern_all_add(t: Seq<Seq<char>>, a: Seq<Seq<char>>, b: Seq<Seq<char>>)
    ensures
        intern_all(t, a + b) == intern_all(intern_all(t, a), b),
    decreases a.len(),
{
    if a.len() > 0 {
        assert((a + b).drop_first() =~= a.drop_first() + b);
        lemma_intern_all_add(interned(t, a[0]), a.drop_first(), b);
    } else {
        assert(a + b =~= b);
    }
}

/// Looking names up in a longer table gives the same meaning.
proof fn lemma_resolves_extend(t: Seq<Seq<char>>, t2: Seq<Seq<char>>, a: AVal, p: PVal)
    requires
        resolves(t, a, p),
        t.len() <= t2.len(),
        forall|k: int| 0 <= k < t.len() ==> t2[k] == t[k],
    ensures
        resolves(t2, a, p),
    decreases p,
{
    if let (AVal::List(xs), PVal::List(ps)) = (a, p) {
        assert forall|k: int| 0 <= k < ps.len() implies resolves(t2, #[trigger] xs[k], ps[k]) by {
            lemma_resolves_extend(t, t2, xs[k], ps[k]);
        }
    }
}

proof fn lemma_resolves_seq_extend(
    t: Seq<Seq<char>>,
    t2: Seq<Seq<char>>,
    xs: Seq<AVal>,
    ps: Seq<PVal>,
)
    requires
        resolves_seq(t, xs, ps),
        t.len() <= t2.len(),
        forall|k: int| 0 <= k < t.len() ==> t2[k] == t[k],
    ensures
        resolves_seq(t2, xs, ps),
{
    assert forall|k: int| 0 <= k < ps.len() implies resolves(t2, #[trigger] xs[k], ps[k]) by {
        lemma_resolves_extend(t, t2, xs[k], ps[k]);
    }
}

proof fn lemma_digits_value_push(ds: Seq<char>, c: char)
    ensures
        digits_value(ds.push(c)) == digits_value(ds) * 10 + (c as int - '0' as int),
{
    assert(ds.push(c).drop_last() =~= ds);
}

proof fn lemma_digits_value_mono(ds: Seq<char>, k: int)
    requires
        all_digits(ds),
        0 <= k <= ds.len(),
    ensures
        0 <= digits_value(ds.subrange(0, k)) <= digits_value(ds),
    decreases ds.len() - k,
{
    if k < ds.len() {
        lemma_digits_value_mono(ds, k + 1);
        assert(ds.subrange(0, k + 1) =~= ds.subrange(0, k).push(ds[k]));
        lemma_digits_value_push(ds.subrange(0, k), ds[k]);
        lemma_digits_value_nonneg(ds.subrange(0, k));
    } else {
        assert(ds.subrange(0, k) =~= ds);
        lemma_digits_value_nonneg(ds);
    }
}

proof fn lemma_digits_value_nonneg(ds: Seq<char>)
    requires
        all_digits(ds),
    ensures
        0 <= digits_value(ds),
    decreases ds.len(),
{
    if ds.len() > 0 {
        lemma_digits_value_nonneg(ds.drop_last());
    }
}

/// `char::is_whitespace`, for the characters that `spec_is_whitespace` lists.
pub fn is_whitespace(c: char) -> (r: bool)
    ensures
        r == spec_is_whitespace(c),
{
    ('\u{9}' <= c && c <= '\u{d}') || c == ' ' || c == '\u{85}' || c == '\u{a0}' || c
        == '\u{1680}' || ('\u{2000}' <= c && c <= '\u{200a}') || c == '\u{2028}' || c
        == '\u{2029}' || c == '\u{202f}' || c == '\u{205f}' || c == '\u{3000}'
}

fn is_delim_exec(c: char) -> (r: bool)
    ensures
        r == is_delim(c),
{
    is_whitespace(c) || c == '{' || c == '}'
}

/// The message of `str::parse::<i64>` for a number out of range, followed by
/// the number's text.
fn overflow_msg(buf: &Vec<char>, neg: bool) -> (m: String)
    ensures
        neg ==> m@ == too_small_msg() + buf@,
        !neg ==> m@ == too_large_msg() + buf@,
{
    let mut m = if neg {
        str_to_string("number too small to fit in target type")
    } else {
        str_to_string("number too large to fit in target type")
    };
    m.append(string_of(buf.as_slice()).as_str());
    m
}

/// The decimal value of `buf` (digits with an optional leading `-`), or the
/// error message that `str::parse::<i64>` gives for it, followed by `buf`.
fn parse_int(buf: &Vec<char>, neg: bool) -> (r: Result<i64, String>)
    requires
        neg ==> buf@.len() > 1 && buf@[0] == '-',
        !neg ==> buf@.len() > 0,
        all_digits(
            if neg {
                buf@.drop_first()
            } else {
                buf@
            },
        ),
    ensures
        neg && -digits_value(buf@.drop_first()) < i64::MIN ==> r is Err && r->Err_0@
            == too_small_msg() + buf@,
        neg && -digits_value(buf@.drop_first()) >= i64::MIN ==> r == Ok::<i64, String>(
            (-digits_value(buf@.drop_first())) as i64,
        ),
        !neg && digits_value(buf@) > i64::MAX ==> r is Err && r->Err_0@ == too_large_msg()
            + buf@,
        !neg && digits_value(buf@) <= i64::MAX ==> r == Ok::<i64, String>(
            digits_value(buf@) as i64,
        ),
{
    let ghost ds = if neg {
        buf@.drop_first()
    } else {
        buf@
    };
    let first: usize = if neg {
        1
    } else {
        0
    };
    let n = buf.len();
    let mut acc: i64 = 0;
    let mut k: usize = first;
    proof {
        assert(ds.subrange(0, 0) =~= Seq::<char>::empty());
        assert(ds =~= buf@.subrange(first as int, n as int));
    }
    while k < n
        invariant
            n == buf@.len(),
            first <= k <= n,
            ds == buf@.subrange(first as int, n as int),
            neg ==> ds == buf@.drop_first(),
            !neg ==> ds == buf@,
            first == (if neg { 1int } else { 0int }),
            all_digits(ds),
            neg ==> acc == -digits_value(ds.subrange(0, k - first)),
            !neg ==> acc == digits_value(ds.subrange(0, k - first)),
        decreases n - k,
    {
        let c = buf[k];
        assert(c == ds[k - first]);
        assert(is_digit(ds[k - first]));
        let d = (c as u32 - '0' as u32) as i64;
        assert(d == c as int - '0' as int);
        assert(0 <= d <= 9);
        proof {
            assert(ds.subrange(0, k + 1 - first) =~= ds.subrange(0, k - first).push(c));
            lemma_digits_value_push(ds.subrange(0, k - first), c);
            lemma_digits_value_mono(ds, k + 1 - first);
        }
        let next: Option<i64> = if neg {
            match acc.checked_mul(10) {
                Some(a) => a.checked_sub(d),
                None => None,
            }
        } else {
            match acc.checked_mul(10) {
                Some(a) => a.checked_add(d),
                None => None,
            }
        };
        match next {
            Some(b) => {
                acc = b;
            },
            None => {
                proof {
                    if neg {
                        assert(-digits_value(ds.subrange(0, k + 1 - first)) < i64::MIN);
                        assert(-digits_value(ds) < i64::MIN);
                    } else {
                        assert(digits_value(ds.subrange(0, k + 1 - first)) > i64::MAX);
                        assert(digits_value(ds) > i64::MAX);
                    }
                }
                assert(neg ==> -digits_value(buf@.drop_first()) < i64::MIN);
                assert(!neg ==> digits_value(buf@) > i64::MAX);
                return Err(overflow_msg(buf, neg));
            },
        }
        k = k + 1;
    }
    proof {
        assert(ds.subrange(0, n - first) =~= ds);
    }
    Ok(acc)
}

/// Prepends the values `acc` and the names `n0` to an outcome of `parse_seq`.
pub open spec fn prepend(acc: Seq<PVal>, n0: Seq<Seq<char>>, r: (PSeqResult, Seq<Seq<char>>)) -> (
    PSeqResult,
    Seq<Seq<char>>,
) {
    (
        match r.0 {
            Ok((vs, k)) => Ok((acc + vs, k)),
            Err(e) => Err(e),
        },
        n0 + r.1,
    )
}

proof fn lemma_prepend_empty(r: (PSeqResult, Seq<Seq<char>>))
    ensures
        prepend(Seq::empty(), Seq::empty(), r) == r,
{
    match r.0 {
        Ok((vs, k)) => {
            assert(Seq::<PVal>::empty() + vs =~= vs);
        },
        Err(e) => {},
    }
    assert(Seq::<Seq<char>>::empty() + r.1 =~= r.1);
}

proof fn lemma_prepend_assoc(
    a: Seq<PVal>,
    na: Seq<Seq<char>>,
    b: Seq<PVal>,
    nb: Seq<Seq<char>>,
    r: (PSeqResult, Seq<Seq<char>>),
)
    ensures
        prepend(a, na, prepend(b, nb, r)) == prepend(a + b, na + nb, r),
{
    match r.0 {
        Ok((vs, k)) => {
            assert(a + (b + vs) =~= (a + b) + vs);
        },
        Err(e) => {},
    }
    assert(na + (nb + r.1) =~= (na + nb) + r.1);
}

pub(crate) proof fn lemma_intern_all_len(t: Seq<Seq<char>>, names: Seq<Seq<char>>)
    ensures
        intern_all(t, names).len() <= t.len() + names.len(),
    decreases names.len(),
{
    if names.len() > 0 {
        lemma_intern_all_len(interned(t, names[0]), names.drop_first());
    }
}

pub(crate) proof fn lemma_intern_all_one(t: Seq<Seq<char>>, n: Seq<char>)
    ensures
        intern_all(t, seq![n]) == interned(t, n),
{
    assert(seq![n].drop_first() =~= Seq::<Seq<char>>::empty());
    assert(intern_all(interned(t, n), Seq::empty()) == interned(t, n));
}

/// Parses the atom that starts at `i` and interns its name.
fn parse_atom(cs: &Vec<char>, i: usize, t: &mut SymbolTable) -> (r: Result<(Val, usize), String>)
    requires
        i < cs@.len(),
        !is_delim(cs@[i as int]),
        old(t).wf(),
        old(t)@.len() + 1 < usize::MAX,
    ensures
        final(t).wf(),
        ({
            let kw = cs@[i as int] == ':';
            let start = if kw {
                i + 1
            } else {
                i as int
            };
            let e = token_end(cs@, start);
            match atom_value(cs@.subrange(start, e), kw) {
                Ok(v) => {
                    &&& r is Ok
                    &&& r->Ok_0.1 == e
                    &&& resolves(final(t)@, r->Ok_0.0@, v)
                    &&& final(t)@ == intern_all(old(t)@, pval_names(v))
                },
                Err(msg) => {
                    &&& r is Err
                    &&& r->Err_0@ == msg
                    &&& final(t)@ == old(t)@
                },
            }
        }),
{
    let n = cs.len();
    let kw = cs[i] == ':';
    let start: usize = if kw {
        i + 1
    } else {
        i
    };
    proof {
        lemma_token_end(cs@, start as int);
    }
    let mut buf: Vec<char> = Vec::new();
    let mut e = start;
    while e < n && !is_delim_exec(cs[e])
        invariant
            n == cs@.len(),
            start <= e <= n,
            token_end(cs@, start as int) == token_end(cs@, e as int),
            buf@ == cs@.subrange(start as int, e as int),
        decreases n - e,
    {
        buf.push(cs[e]);
        e = e + 1;
        proof {
            assert(buf@ =~= cs@.subrange(start as int, e as int));
        }
    }
    assert(token_end(cs@, e as int) == e);
    let ghost text = buf@;
    if buf.len() == 0 {
        proof {
            reveal_strlit("unexpected token");
        }
        return Err(str_to_string("unexpected token"));
    }
    if kw {
        let s = t.intern(string_of(buf.as_slice()));
        proof {
            lemma_intern_all_one(old(t)@, text);
        }
        return Ok((Val::Kw(s), e));
    }
    let neg = buf[0] == '-' && buf.len() > 1;
    let first: usize = if neg {
        1
    } else {
        0
    };
    let ghost ds = if neg {
        text.drop_first()
    } else {
        text
    };
    let blen = buf.len();
    let mut k = first;
    let mut digits = true;
    while k < blen
        invariant
            blen == buf@.len(),
            first <= k <= blen,
            ds == buf@.subrange(first as int, blen as int),
            digits == (forall|m: int| first <= m < k ==> is_digit(#[trigger] buf@[m])),
        decreases blen - k,
    {
        if !('0' <= buf[k] && buf[k] <= '9') {
            digits = false;
        }
        k = k + 1;
    }
    proof {
        assert(ds =~= buf@.subrange(first as int, blen as int));
        assert(digits == all_digits(ds)) by {
            if digits {
                assert forall|m: int| 0 <= m < ds.len() implies is_digit(#[trigger] ds[m]) by {
                    assert(ds[m] == buf@[m + first]);
                }
            } else {
                let m = choose|m: int| first <= m < blen && !is_digit(#[trigger] buf@[m]);
                assert(ds[m - first] == buf@[m]);
            }
        }
    }
    if digits {
        match parse_int(&buf, neg) {
            Ok(v) => {
                proof {
                    assert(intern_all(old(t)@, Seq::empty()) == old(t)@);
                }
                Ok((Val::Int(v), e))
            },
            Err(m) => Err(m),
        }
    } else {
        let s = t.intern(string_of(buf.as_slice()));
        proof {
            lemma_intern_all_one(old(t)@, text);
        }
        Ok((Val::Sym(s), e))
    }
}

/// What `parse_vals` promises: the outcome of `parse_seq`, with the names
/// interned into the table in the order met.
pub open spec fn parsed_as(
    r: Result<(Vals, usize), String>,
    spec_r: (PSeqResult, Seq<Seq<char>>),
    t0: Seq<Seq<char>>,
    t1: Seq<Seq<char>>,
) -> bool {
    &&& t1 == intern_all(t0, spec_r.1)
    &&& match spec_r.0 {
        Ok((ps, j)) => {
            &&& r is Ok
            &&& r->Ok_0.1 == j
            &&& resolves_seq(t1, vals_view(r->Ok_0.0@), ps)
        },
        Err(e) => {
            &&& r is Err
            &&& r->Err_0@ == e
        },
    }
}

/// Parses values from `pos` to the end of the input or, when `nested`, to
/// the `}` that closes the quotation.
fn parse_vals(cs: &Vec<char>, pos: usize, nested: bool, t: &mut SymbolTable) -> (r: Result<
    (Vals, usize),
    String,
>)
    requires
        pos <= cs@.len(),
        old(t).wf(),
        old(t)@.len() + (cs@.len() - pos) + 1 < usize::MAX,
    ensures
        final(t).wf(),
        parsed_as(r, parse_seq(cs@, pos as int, nested), old(t)@, final(t)@),
        final(t)@.len() <= old(t)@.len() + (cs@.len() - pos),
        r is Ok ==> final(t)@.len() <= old(t)@.len() + (r->Ok_0.1 - pos),
    decreases cs@.len() - pos,
{
    let n = cs.len();
    let mut vals: Vals = VecDeque::new();
    let mut i = pos;
    let ghost mut acc: Seq<PVal> = Seq::empty();
    let ghost mut nacc: Seq<Seq<char>> = Seq::empty();
    proof {
        lemma_prepend_empty(parse_seq(cs@, pos as int, nested));
        assert(intern_all(old(t)@, Seq::empty()) == old(t)@);
    }
    while i < n
        invariant
            n == cs@.len(),
            pos <= i <= n,
            t.wf(),
            t@ == intern_all(old(t)@, nacc),
            t@.len() <= old(t)@.len() + (i - pos),
            old(t)@.len() + (n - pos) + 1 < usize::MAX,
            resolves_seq(t@, vals_view(vals@), acc),
            parse_seq(cs@, pos as int, nested) == prepend(acc, nacc, parse_seq(cs@, i as int, nested)),
        decreases n - i,
    {
        let c = cs[i];
        if c == '{' {
            let ghost t_before = t@;
            proof {
                lemma_parse_seq_pos(cs@, i + 1, true);
            }
            let r1 = parse_vals(cs, i + 1, true, t);
            match r1 {
                Err(m) => {
                    proof {
                        let (sr1, n1) = parse_seq(cs@, i + 1, true);
                        lemma_intern_all_add(old(t)@, nacc, n1);
                    }
                    return Err(m);
                },
                Ok((inner, j)) => {
                    let ghost (sr1, n1) = parse_seq(cs@, i + 1, true);
                    let ghost inner_ps = sr1->Ok_0.0;
                    proof {
                        lemma_parse_seq_pos(cs@, j as int, nested);
                        lemma_intern_all_add(old(t)@, nacc, n1);
                        lemma_intern_all_prefix(t_before, n1);
                        lemma_resolves_seq_extend(t_before, t@, vals_view(vals@), acc);
                        lemma_prepend_assoc(acc, nacc, seq![PVal::List(inner_ps)], n1, parse_seq(cs@, j as int, nested));
                    }
                    let ghost old_vals = vals@;
                    vals.push_back(Val::List(inner));
                    proof {
                        acc = acc + seq![PVal::List(inner_ps)];
                        nacc = nacc + n1;
                        assert(resolves(t@, Val::List(inner)@, PVal::List(inner_ps)));
                        assert(resolves_seq(t@, vals_view(vals@), acc)) by {
                            assert(vals_view(vals@) =~= vals_view(old_vals).push(Val::List(inner)@));
                        }
                    }
                    i = j;
                },
            }
        } else if c == '}' {
            if nested {
                proof {
                    assert(acc + Seq::<PVal>::empty() =~= acc);
                    assert(nacc + Seq::<Seq<char>>::empty() =~= nacc);
                }
                return Ok((vals, i + 1));
            } else {
                proof {
                    reveal_strlit("unexpected '}'");
                    assert(nacc + Seq::<Seq<char>>::empty() =~= nacc);
                }
                return Err(str_to_string("unexpected '}'"));
            }
        } else if is_whitespace(c) {
            i = i + 1;
        } else {
            let ghost t_before = t@;
            let r = parse_atom(cs, i, t);
            let ghost kw = cs@[i as int] == ':';
            let ghost start = if kw { i + 1 } else { i as int };
            let ghost e = token_end(cs@, start);
            proof {
                lemma_token_end(cs@, start);
            }
            match r {
                Err(m) => {
                    proof {
                        assert(nacc + Seq::<Seq<char>>::empty() =~= nacc);
                    }
                    return Err(m);
                },
                Ok((v, j)) => {
                    let ghost pv = atom_value(cs@.subrange(start, e), kw)->Ok_0;
                    proof {
                        lemma_intern_all_add(old(t)@, nacc, pval_names(pv));
                        lemma_intern_all_prefix(t_before, pval_names(pv));
                        lemma_resolves_seq_extend(t_before, t@, vals_view(vals@), acc);
                        lemma_prepend_assoc(acc, nacc, seq![pv], pval_names(pv), parse_seq(cs@, j as int, nested));
                        lemma_intern_all_len(t_before, pval_names(pv));
                    }
                    let ghost old_vals = vals@;
                    let ghost vv = v@;
                    vals.push_back(v);
                    proof {
                        acc = acc + seq![pv];
                        nacc = nacc + pval_names(pv);
                        assert(resolves_seq(t@, vals_view(vals@), acc)) by {
                            assert(vals_view(vals@) =~= vals_view(old_vals).push(vv));
                        }
                    }
                    i = j;
                },
            }
        }
    }
    proof {
        if nested {
            reveal_strlit("unclosed '{'");
        }
        assert(acc + Seq::<PVal>::empty() =~= acc);
        assert(nacc + Seq::<Seq<char>>::empty() =~= nacc);
    }
    if nested {
        Err(str_to_string("unclosed '{'"))
    } else {
        Ok((vals, i))
    }
}

/// Parses a program: whitespace-separated atoms and `{...}` quotations.
/// Symbols and keywords are interned into `t` in the order they appear.
pub fn parse(input: &str, t: &mut SymbolTable) -> (r: Result<Vals, String>)
    requires
        old(t).wf(),
        old(t)@.len() + input@.len() + 1 < usize::MAX,
    ensures
        final(t).wf(),
        final(t)@ == intern_all(old(t)@, parse_seq(input@, 0, false).1),
        spec_parse(input@) matches Ok(ps) ==> r is Ok && resolves_seq(
            final(t)@,
            vals_view(r->Ok_0@),
            ps,
        ),
        spec_parse(input@) matches Err(e) ==> r is Err && r->Err_0@ == e,
{
    let cs = chars_of(input);
    match parse_vals(&cs, 0, false, t) {
        Ok((vs, _)) => Ok(vs),
        Err(e) => Err(e),
    }
}

} // verus!
