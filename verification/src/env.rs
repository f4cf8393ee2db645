//! The typed environment model: an ordered, duplicate-free list of PATH
//! entries and a key-sorted list of variables, with merge, a stable textual
//! codec and a 64-bit fingerprint.
//!
//! The codec escapes every character as six hex digits, so the escaped
//! texts are line-structured with no delimiter collisions; the escaped
//! texts are then compressed and base64-armoured through outside crates
//! behind trusted wrappers.

use crate::strutil::{
    chars_of, digit_val, find_char, is_digit, lemma_dec_roundtrip, lemma_find,
    lemma_find_concat, lemma_lex_connected, lemma_lex_trans, lemma_u64_dec_digits, lex_lt,
    lex_lt_str, no_char, spec_dec_val, spec_find, spec_u64_dec, str_eq, string_from_range,
    u64_to_dec,
};
use vstd::prelude::*;
use vstd::string::StringSliceAdditionalSpecFns;

verus! {

// ---------------------------------------------------------------------------
// Character escaping: six lowercase hex digits per character
// ---------------------------------------------------------------------------

pub open spec fn hex_digit(n: int) -> char {
    if n == 0 {
        '0'
    } else if n == 1 {
        '1'
    } else if n == 2 {
        '2'
    } else if n == 3 {
        '3'
    } else if n == 4 {
        '4'
    } else if n == 5 {
        '5'
    } else if n == 6 {
        '6'
    } else if n == 7 {
        '7'
    } else if n == 8 {
        '8'
    } else if n == 9 {
        '9'
    } else if n == 10 {
        'a'
    } else if n == 11 {
        'b'
    } else if n == 12 {
        'c'
    } else if n == 13 {
        'd'
    } else if n == 14 {
        'e'
    } else {
        'f'
    }
}

pub open spec fn is_hex_char(c: char) -> bool {
    ('0' <= c && c <= '9') || ('a' <= c && c <= 'f')
}

/// The value of a hex digit; 16 marks a non-digit.
pub open spec fn hex_val(c: char) -> int {
    if '0' <= c && c <= '9' {
        c as int - '0' as int
    } else if 'a' <= c && c <= 'f' {
        c as int - 'a' as int + 10
    } else {
        16
    }
}

pub proof fn lemma_hex_digit_val(n: int)
    requires
        0 <= n < 16,
    ensures
        hex_val(hex_digit(n)) == n,
        is_hex_char(hex_digit(n)),
        !crate::strutil::is_ws(hex_digit(n)),
        hex_digit(n) != '.',
        hex_digit(n) != ' ',
        hex_digit(n) != '\n',
{
}

pub open spec fn esc_char(c: char) -> Seq<char> {
    let v = c as u32;
    seq![
        hex_digit((v / 0x100000) as int),
        hex_digit(((v / 0x10000) % 16) as int),
        hex_digit(((v / 0x1000) % 16) as int),
        hex_digit(((v / 0x100) % 16) as int),
        hex_digit(((v / 0x10) % 16) as int),
        hex_digit((v % 16) as int),
    ]
}

pub open spec fn esc_str(s: Seq<char>) -> Seq<char>
    decreases s.len(),
{
    if s.len() == 0 {
        Seq::empty()
    } else {
        esc_char(s[0]) + esc_str(s.drop_first())
    }
}

/// Every character of an escaped string is a hex digit.
pub proof fn lemma_esc_hex(s: Seq<char>)
    ensures
        esc_str(s).len() == 6 * s.len(),
        forall|j: int| 0 <= j < esc_str(s).len() ==> is_hex_char(#[trigger] esc_str(s)[j]),
    decreases s.len(),
{
    if s.len() > 0 {
        lemma_esc_hex(s.drop_first());
        let v = s[0] as u32;
        vstd::utf8::char_is_scalar(s[0]);
        assert(v / 0x100000 < 16);
        assert forall|n: int| 0 <= n < 16 implies is_hex_char(hex_digit(n)) by {
            lemma_hex_digit_val(n);
        }
        assert(forall|j: int|
            0 <= j < esc_str(s).len() ==> esc_str(s)[j] == if j < 6 {
                esc_char(s[0])[j]
            } else {
                esc_str(s.drop_first())[j - 6]
            });
    }
}

pub proof fn lemma_esc_push(s: Seq<char>, c: char)
    ensures
        esc_str(s.push(c)) == esc_str(s) + esc_char(c),
    decreases s.len(),
{
    if s.len() == 0 {
        assert(s.push(c).drop_first() =~= Seq::<char>::empty());
        assert(s.push(c)[0] == c);
        assert(esc_str(s.push(c)) == esc_char(c) + esc_str(Seq::<char>::empty()));
        assert(esc_str(Seq::<char>::empty()) == Seq::<char>::empty());
        assert(esc_char(c) + Seq::<char>::empty() =~= esc_char(c));
        assert(esc_str(s) + esc_char(c) =~= esc_char(c));
    } else {
        lemma_esc_push(s.drop_first(), c);
        assert(s.push(c).drop_first() =~= s.drop_first().push(c));
        assert(s.push(c)[0] == s[0]);
        assert(esc_char(s[0]) + (esc_str(s.drop_first()) + esc_char(c)) =~= (esc_char(s[0])
            + esc_str(s.drop_first())) + esc_char(c));
    }
}

pub fn exec_hex_digit(n: u32) -> (r: char)
    requires
        n < 16,
    ensures
        r == hex_digit(n as int),
{
    match n {
        0 => '0',
        1 => '1',
        2 => '2',
        3 => '3',
        4 => '4',
        5 => '5',
        6 => '6',
        7 => '7',
        8 => '8',
        9 => '9',
        10 => 'a',
        11 => 'b',
        12 => 'c',
        13 => 'd',
        14 => 'e',
        _ => 'f',
    }
}

/// Append the escaped form of `s` to `out`.
pub fn esc_append(out: &mut String, s: &str)
    ensures
        final(out)@ == old(out)@ + esc_str(s@),
{
    let n = s.unicode_len();
    let mut i: usize = 0;
    proof {
        assert(s@.take(0) =~= Seq::<char>::empty());
        assert(old(out)@ + esc_str(s@.take(0)) =~= old(out)@);
    }
    while i < n
        invariant
            n == s@.len(),
            i <= n,
            out@ == old(out)@ + esc_str(s@.take(i as int)),
        decreases n - i,
    {
        let c = s.get_char(i);
        let v = c as u32;
        proof {
            vstd::utf8::char_is_scalar(c);
        }
        out.push(exec_hex_digit(v / 0x100000));
        out.push(exec_hex_digit((v / 0x10000) % 16));
        out.push(exec_hex_digit((v / 0x1000) % 16));
        out.push(exec_hex_digit((v / 0x100) % 16));
        out.push(exec_hex_digit((v / 0x10) % 16));
        out.push(exec_hex_digit(v % 16));
        proof {
            lemma_esc_push(s@.take(i as int), c);
            assert(s@.take(i + 1) =~= s@.take(i as int).push(s@[i as int]));
            assert(out@ =~= old(out)@ + esc_str(s@.take(i + 1)));
        }
        i = i + 1;
    }
    proof {
        assert(s@.take(n as int) =~= s@);
    }
}

pub fn exec_hex_val(c: char) -> (r: u32)
    ensures
        r == hex_val(c),
        r <= 16,
{
    let v = c as u32;
    if v >= 0x30 && v <= 0x39 {
        proof {
            assert('0' as u32 == 0x30);
            assert('9' as u32 == 0x39);
            vstd::utf8::char_u32_cast(c, v);
            assert('0' <= c && c <= '9');
        }
        v - 0x30
    } else if v >= 0x61 && v <= 0x66 {
        proof {
            vstd::utf8::char_u32_cast(c, v);
        }
        v - 0x61 + 10
    } else {
        proof {
            vstd::utf8::char_u32_cast(c, v);
        }
        16
    }
}

/// Reading an escaped text back: chunks of six hex digits, each a valid
/// scalar value.  `None` rejects anything else.
pub open spec fn spec_unesc(s: Seq<char>) -> Option<Seq<char>>
    decreases s.len(),
{
    if s.len() == 0 {
        Some(Seq::empty())
    } else if s.len() < 6 {
        None
    } else {
        let v = hex_val(s[0]) * 0x100000 + hex_val(s[1]) * 0x10000 + hex_val(s[2]) * 0x1000
            + hex_val(s[3]) * 0x100 + hex_val(s[4]) * 0x10 + hex_val(s[5]);
        if !(is_hex_char(s[0]) && is_hex_char(s[1]) && is_hex_char(s[2]) && is_hex_char(s[3])
            && is_hex_char(s[4]) && is_hex_char(s[5])) {
            None
        } else if !(v < 0xD800 || (0xE000 <= v && v <= 0x10FFFF)) {
            None
        } else {
            match spec_unesc(s.skip(6)) {
                Some(r) => Some(seq![(v as u32) as char] + r),
                None => None,
            }
        }
    }
}

/// Unescaping inverts escaping.
pub proof fn lemma_unesc_esc(s: Seq<char>)
    ensures
        spec_unesc(esc_str(s)) == Some(s),
    decreases s.len(),
{
    if s.len() == 0 {
    } else {
        let e = esc_str(s);
        let c = s[0];
        let v = c as u32;
        vstd::utf8::char_is_scalar(c);
        assert(e == esc_char(c) + esc_str(s.drop_first()));
        assert(e.len() >= 6);
        assert forall|j: int| 0 <= j < 6 implies e[j] == esc_char(c)[j] by {}
        assert(v / 0x100000 < 16);
        lemma_hex_digit_val((v / 0x100000) as int);
        lemma_hex_digit_val(((v / 0x10000) % 16) as int);
        lemma_hex_digit_val(((v / 0x1000) % 16) as int);
        lemma_hex_digit_val(((v / 0x100) % 16) as int);
        lemma_hex_digit_val(((v / 0x10) % 16) as int);
        lemma_hex_digit_val((v % 16) as int);
        let w = hex_val(e[0]) * 0x100000 + hex_val(e[1]) * 0x10000 + hex_val(e[2]) * 0x1000
            + hex_val(e[3]) * 0x100 + hex_val(e[4]) * 0x10 + hex_val(e[5]);
        assert(w == (v / 0x100000) * 0x100000 + ((v / 0x10000) % 16) * 0x10000 + ((v / 0x1000)
            % 16) * 0x1000 + ((v / 0x100) % 16) * 0x100 + ((v / 0x10) % 16) * 0x10 + v % 16);
        assert(v == (v / 0x100000) * 0x100000 + ((v / 0x10000) % 16) * 0x10000 + ((v / 0x1000)
            % 16) * 0x1000 + ((v / 0x100) % 16) * 0x100 + ((v / 0x10) % 16) * 0x10 + v % 16)
            by (bit_vector)
            requires
                v < 0x1000000,
        ;
        assert(w == v);
        assert(v < 0xD800 || (0xE000 <= v && v <= 0x10FFFF)) by {
            assert(vstd::utf8::is_scalar(v));
        }
        vstd::utf8::char_u32_cast(c, v);
        assert((v as u32) as char == c);
        lemma_unesc_esc(s.drop_first());
        assert(e.skip(6) =~= esc_str(s.drop_first()));
        assert(seq![c] + s.drop_first() =~= s);
    }
}

/// Unescape the window `[a, b)` of `cs`.
pub fn unesc_range(cs: &Vec<char>, a: usize, b: usize) -> (r: Option<String>)
    requires
        a <= b <= cs@.len(),
    ensures
        match r {
            Some(s) => spec_unesc(cs@.subrange(a as int, b as int)) == Some(s@),
            None => spec_unesc(cs@.subrange(a as int, b as int)) is None,
        },
{
    let ghost whole = cs@.subrange(a as int, b as int);
    let mut out = String::new();
    let mut p: usize = a;
    proof {
        assert(whole.skip(0) =~= whole);
    }
    while p < b
        invariant
            a <= p <= b <= cs@.len(),
            whole == cs@.subrange(a as int, b as int),
            spec_unesc(whole) is Some ==> (spec_unesc(cs@.subrange(p as int, b as int)) matches Some(
                r2,
            ) && spec_unesc(whole) == Some(out@ + r2)),
            spec_unesc(whole) is None ==> spec_unesc(cs@.subrange(p as int, b as int)) is None,
        decreases b - p,
    {
        let ghost rest = cs@.subrange(p as int, b as int);
        if b - p < 6 {
            proof {
                assert(rest.len() < 6 && rest.len() > 0);
                assert(spec_unesc(rest) is None);
            }
            return None;
        }
        let d0 = exec_hex_val(cs[p]);
        let d1 = exec_hex_val(cs[p + 1]);
        let d2 = exec_hex_val(cs[p + 2]);
        let d3 = exec_hex_val(cs[p + 3]);
        let d4 = exec_hex_val(cs[p + 4]);
        let d5 = exec_hex_val(cs[p + 5]);
        proof {
            assert(rest[0] == cs@[p as int]);
            assert(rest[1] == cs@[p + 1]);
            assert(rest[2] == cs@[p + 2]);
            assert(rest[3] == cs@[p + 3]);
            assert(rest[4] == cs@[p + 4]);
            assert(rest[5] == cs@[p + 5]);
        }
        if d0 == 16 || d1 == 16 || d2 == 16 || d3 == 16 || d4 == 16 || d5 == 16 {
            proof {
                assert(spec_unesc(rest) is None);
            }
            return None;
        }
        let v: u32 = d0 * 0x100000 + d1 * 0x10000 + d2 * 0x1000 + d3 * 0x100 + d4 * 0x10 + d5;
        match char::from_u32(v) {
            Some(c) => {
                proof {
                    vstd::utf8::char_u32_cast(c, v);
                    assert((v as u32) as char == c);
                    assert(rest.skip(6) =~= cs@.subrange(p + 6, b as int));
                    // One unfolding of spec_unesc on `rest`.
                    assert(spec_unesc(rest) == (match spec_unesc(rest.skip(6)) {
                        Some(r3) => Some(seq![c] + r3),
                        None => None,
                    }));
                    if spec_unesc(whole) is Some {
                        let r2 = spec_unesc(rest)->Some_0;
                        let r3 = spec_unesc(rest.skip(6))->Some_0;
                        assert(out@ + r2 =~= out@.push(c) + r3);
                    }
                }
                out.push(c);
                p = p + 6;
            },
            None => {
                proof {
                    assert(spec_unesc(rest) is None);
                }
                return None;
            },
        }
    }
    proof {
        assert(cs@.subrange(p as int, b as int).len() == 0);
        assert(spec_unesc(cs@.subrange(p as int, b as int)) == Some(Seq::<char>::empty()));
    }
    Some(out)
}

// ---------------------------------------------------------------------------
// The environment model
// ---------------------------------------------------------------------------

#[verifier::ext_equal]
pub struct EnvView {
    pub path: Seq<Seq<char>>,
    pub vars: Seq<(Seq<char>, Seq<char>)>,
}

/// Errors of the environment codec.
#[derive(Debug, Clone, PartialEq, Eq)]
pub enum EnvError {
    InvalidEnvString,
    InvalidString(String),
    DecodeFailed(String),
    Io(String),
}

pub enum EnvErrorView {
    InvalidEnvString,
    InvalidString(Seq<char>),
    DecodeFailed(Seq<char>),
    Io(Seq<char>),
}

impl View for EnvError {
    type V = EnvErrorView;

    open spec fn view(&self) -> EnvErrorView {
        match self {
            EnvError::InvalidEnvString => EnvErrorView::InvalidEnvString,
            EnvError::InvalidString(s) => EnvErrorView::InvalidString(s@),
            EnvError::DecodeFailed(s) => EnvErrorView::DecodeFailed(s@),
            EnvError::Io(s) => EnvErrorView::Io(s@),
        }
    }
}

pub open spec fn paths_view(p: Seq<String>) -> Seq<Seq<char>> {
    p.map_values(|s: String| s@)
}

pub open spec fn vars_view(v: Seq<(String, String)>) -> Seq<(Seq<char>, Seq<char>)> {
    v.map_values(|e: (String, String)| (e.0@, e.1@))
}

/// Well-formedness: PATH entries are pairwise distinct and variables are
/// strictly sorted by key.
pub open spec fn env_wf(e: EnvView) -> bool {
    &&& (forall|i: int, j: int|
        0 <= i < j < e.path.len() ==> (#[trigger] e.path[i]) != (#[trigger] e.path[j]))
    &&& (forall|i: int, j: int|
        0 <= i < j < e.vars.len() ==> lex_lt(
            (#[trigger] e.vars[i]).0,
            (#[trigger] e.vars[j]).0,
        ))
}

/// An environment: PATH entries in insertion order without duplicates, and
/// variables sorted by name.
#[derive(Debug, PartialEq)]
pub struct Env {
    pub path: Vec<String>,
    pub vars: Vec<(String, String)>,
}

impl View for Env {
    type V = EnvView;

    open spec fn view(&self) -> EnvView {
        EnvView { path: paths_view(self.path@), vars: vars_view(self.vars@) }
    }
}

pub open spec fn empty_env() -> EnvView {
    EnvView { path: Seq::empty(), vars: Seq::empty() }
}

/// Append a PATH entry unless it is already present.
pub open spec fn spec_add_path(p: Seq<Seq<char>>, e: Seq<char>) -> Seq<Seq<char>> {
    if p.contains(e) {
        p
    } else {
        p.push(e)
    }
}

pub open spec fn spec_paths_merge(p: Seq<Seq<char>>, q: Seq<Seq<char>>) -> Seq<Seq<char>>
    decreases q.len(),
{
    if q.len() == 0 {
        p
    } else {
        spec_paths_merge(spec_add_path(p, q[0]), q.drop_first())
    }
}

/// Sorted insert of a variable, overwriting an equal key.
pub open spec fn spec_set_var(
    vs: Seq<(Seq<char>, Seq<char>)>,
    k: Seq<char>,
    v: Seq<char>,
) -> Seq<(Seq<char>, Seq<char>)>
    decreases vs.len(),
{
    if vs.len() == 0 {
        seq![(k, v)]
    } else if k == vs[0].0 {
        seq![(k, v)] + vs.drop_first()
    } else if lex_lt(k, vs[0].0) {
        seq![(k, v)] + vs
    } else {
        seq![vs[0]] + spec_set_var(vs.drop_first(), k, v)
    }
}

pub open spec fn spec_vars_merge(
    a: Seq<(Seq<char>, Seq<char>)>,
    b: Seq<(Seq<char>, Seq<char>)>,
) -> Seq<(Seq<char>, Seq<char>)>
    decreases b.len(),
{
    if b.len() == 0 {
        a
    } else {
        spec_vars_merge(spec_set_var(a, b[0].0, b[0].1), b.drop_first())
    }
}

/// Merge: union of PATH entries (first occurrence wins the position) and
/// value-wise overwrite of variables.
pub open spec fn spec_env_merge(a: EnvView, b: EnvView) -> EnvView {
    EnvView { path: spec_paths_merge(a.path, b.path), vars: spec_vars_merge(a.vars, b.vars) }
}

/// The first value bound to `k`.
pub open spec fn spec_vars_lookup(vs: Seq<(Seq<char>, Seq<char>)>, k: Seq<char>) -> Option<
    Seq<char>,
>
    decreases vs.len(),
{
    if vs.len() == 0 {
        None
    } else if vs[0].0 == k {
        Some(vs[0].1)
    } else {
        spec_vars_lookup(vs.drop_first(), k)
    }
}

/// Sorted insert keeps the strict order.
pub proof fn lemma_set_var_sorted(vs: Seq<(Seq<char>, Seq<char>)>, k: Seq<char>, v: Seq<char>)
    requires
        forall|i: int, j: int|
            0 <= i < j < vs.len() ==> lex_lt((#[trigger] vs[i]).0, (#[trigger] vs[j]).0),
    ensures
        ({
            let r = spec_set_var(vs, k, v);
            forall|i: int, j: int|
                0 <= i < j < r.len() ==> lex_lt((#[trigger] r[i]).0, (#[trigger] r[j]).0)
        }),
    decreases vs.len(),
{
    let r = spec_set_var(vs, k, v);
    if vs.len() == 0 {
    } else if k == vs[0].0 {
        assert forall|i: int, j: int| 0 <= i < j < r.len() implies lex_lt(
            (#[trigger] r[i]).0,
            (#[trigger] r[j]).0,
        ) by {
            assert(r[j] == vs[j]);
            if i > 0 {
                assert(r[i] == vs[i]);
            }
        }
    } else if lex_lt(k, vs[0].0) {
        assert forall|i: int, j: int| 0 <= i < j < r.len() implies lex_lt(
            (#[trigger] r[i]).0,
            (#[trigger] r[j]).0,
        ) by {
            assert(r[j] == vs[j - 1]);
            if i > 0 {
                assert(r[i] == vs[i - 1]);
            } else {
                if j >= 2 {
                    lemma_lex_trans(k, vs[0].0, vs[j - 1].0);
                }
            }
        }
    } else {
        assert(forall|i: int, j: int|
            0 <= i < j < vs.drop_first().len() ==> lex_lt(
                (#[trigger] vs.drop_first()[i]).0,
                (#[trigger] vs.drop_first()[j]).0,
            )) by {
            assert(forall|i: int|
                0 <= i < vs.drop_first().len() ==> (#[trigger] vs.drop_first()[i]) == vs[i + 1]);
        }
        lemma_set_var_sorted(vs.drop_first(), k, v);
        let r2 = spec_set_var(vs.drop_first(), k, v);
        // The head is below `k` and below every key of the tail, hence
        // below everything in the recursive result.
        lemma_lex_connected(k, vs[0].0);
        assert(lex_lt(vs[0].0, k));
        assert forall|i: int, j: int| 0 <= i < j < r.len() implies lex_lt(
            (#[trigger] r[i]).0,
            (#[trigger] r[j]).0,
        ) by {
            if i == 0 {
                assert(r[j] == r2[j - 1]);
                lemma_set_var_member(vs.drop_first(), k, v, j - 1);
                if r2[j - 1].0 == k {
                } else {
                    let w = choose|w: int|
                        0 <= w < vs.drop_first().len() && vs.drop_first()[w] == r2[j - 1];
                    assert(vs.drop_first()[w] == vs[w + 1]);
                    assert(lex_lt(vs[0].0, vs[w + 1].0));
                }
            } else {
                assert(r[i] == r2[i - 1] && r[j] == r2[j - 1]);
            }
        }
    }
}

/// Every entry of a sorted insert is the new pair or an original entry.
pub proof fn lemma_set_var_member(
    vs: Seq<(Seq<char>, Seq<char>)>,
    k: Seq<char>,
    v: Seq<char>,
    i: int,
)
    requires
        0 <= i < spec_set_var(vs, k, v).len(),
    ensures
        spec_set_var(vs, k, v)[i].0 == k || exists|w: int|
            0 <= w < vs.len() && vs[w] == spec_set_var(vs, k, v)[i],
    decreases vs.len(),
{
    let r = spec_set_var(vs, k, v);
    if vs.len() == 0 {
    } else if k == vs[0].0 {
        if i > 0 {
            assert(r[i] == vs[i]);
        }
    } else if lex_lt(k, vs[0].0) {
        if i > 0 {
            assert(r[i] == vs[i - 1]);
        }
    } else {
        if i > 0 {
            lemma_set_var_member(vs.drop_first(), k, v, i - 1);
            if spec_set_var(vs.drop_first(), k, v)[i - 1].0 != k {
                let w = choose|w: int|
                    0 <= w < vs.drop_first().len() && vs.drop_first()[w] == spec_set_var(
                        vs.drop_first(),
                        k,
                        v,
                    )[i - 1];
                assert(vs[w + 1] == r[i]);
            }
        } else {
            assert(r[0] == vs[0]);
        }
    }
}

/// Inserting a pair that is already present in a sorted list is a no-op.
pub proof fn lemma_set_var_present(vs: Seq<(Seq<char>, Seq<char>)>, i: int)
    requires
        forall|x: int, y: int|
            0 <= x < y < vs.len() ==> lex_lt((#[trigger] vs[x]).0, (#[trigger] vs[y]).0),
        0 <= i < vs.len(),
    ensures
        spec_set_var(vs, vs[i].0, vs[i].1) == vs,
    decreases vs.len(),
{
    let k = vs[i].0;
    let v = vs[i].1;
    if i == 0 {
        assert(spec_set_var(vs, k, v) == seq![(k, v)] + vs.drop_first());
        assert(seq![(k, v)] + vs.drop_first() =~= vs);
    } else {
        assert(lex_lt(vs[0].0, k));
        lemma_lex_connected(k, vs[0].0);
        assert(k != vs[0].0);
        assert(!lex_lt(k, vs[0].0));
        assert(forall|x: int|
            0 <= x < vs.drop_first().len() ==> (#[trigger] vs.drop_first()[x]) == vs[x + 1]);
        lemma_set_var_present(vs.drop_first(), i - 1);
        assert(seq![vs[0]] + vs.drop_first() =~= vs);
    }
}

pub open spec fn pair_in(a: Seq<(Seq<char>, Seq<char>)>, p: (Seq<char>, Seq<char>)) -> bool {
    exists|w: int| 0 <= w < a.len() && a[w] == p
}

/// Merging a list whose every entry already occurs in the sorted base
/// leaves the base unchanged.
pub proof fn lemma_vars_merge_absorb(
    a: Seq<(Seq<char>, Seq<char>)>,
    b: Seq<(Seq<char>, Seq<char>)>,
)
    requires
        forall|x: int, y: int|
            0 <= x < y < a.len() ==> lex_lt((#[trigger] a[x]).0, (#[trigger] a[y]).0),
        forall|x: int| 0 <= x < b.len() ==> pair_in(a, #[trigger] b[x]),
    ensures
        spec_vars_merge(a, b) == a,
    decreases b.len(),
{
    if b.len() > 0 {
        assert(pair_in(a, b[0]));
        let w = choose|w: int| 0 <= w < a.len() && a[w] == b[0];
        lemma_set_var_present(a, w);
        assert(spec_set_var(a, b[0].0, b[0].1) == a);
        assert forall|x: int| 0 <= x < b.drop_first().len() implies pair_in(
            a,
            #[trigger] b.drop_first()[x],
        ) by {
            assert(b.drop_first()[x] == b[x + 1]);
        }
        lemma_vars_merge_absorb(a, b.drop_first());
    }
}

pub proof fn lemma_paths_merge_absorb(p: Seq<Seq<char>>, q: Seq<Seq<char>>)
    requires
        forall|x: int| 0 <= x < q.len() ==> p.contains(#[trigger] q[x]),
    ensures
        spec_paths_merge(p, q) == p,
    decreases q.len(),
{
    if q.len() > 0 {
        assert(p.contains(q[0]));
        assert(spec_add_path(p, q[0]) == p);
        assert(forall|x: int|
            0 <= x < q.drop_first().len() ==> (#[trigger] q.drop_first()[x]) == q[x + 1]);
        lemma_paths_merge_absorb(p, q.drop_first());
    }
}

/// Merging an environment with itself changes nothing, and merging with
/// the empty environment changes nothing.
pub proof fn lemma_merge_idempotent(e: EnvView)
    requires
        env_wf(e),
    ensures
        spec_env_merge(e, e) == e,
{
    assert(forall|x: int| 0 <= x < e.path.len() ==> e.path.contains(#[trigger] e.path[x]));
    lemma_paths_merge_absorb(e.path, e.path);
    assert forall|x: int| 0 <= x < e.vars.len() implies pair_in(e.vars, #[trigger] e.vars[x]) by {
        let w = x;
        assert(0 <= w < e.vars.len() && e.vars[w] == e.vars[x]);
    }
    lemma_vars_merge_absorb(e.vars, e.vars);
}

pub proof fn lemma_merge_empty(e: EnvView)
    ensures
        spec_env_merge(e, empty_env()) == e,
{
}

/// Merging keeps PATH entries distinct.
pub proof fn lemma_paths_merge_distinct(p: Seq<Seq<char>>, q: Seq<Seq<char>>)
    requires
        forall|i: int, j: int| 0 <= i < j < p.len() ==> (#[trigger] p[i]) != (#[trigger] p[j]),
    ensures
        ({
            let r = spec_paths_merge(p, q);
            forall|i: int, j: int| 0 <= i < j < r.len() ==> (#[trigger] r[i]) != (#[trigger] r[j])
        }),
    decreases q.len(),
{
    if q.len() == 0 {
        assert(spec_paths_merge(p, q) == p);
    } else {
        let p2 = spec_add_path(p, q[0]);
        assert(forall|i: int, j: int|
            0 <= i < j < p2.len() ==> (#[trigger] p2[i]) != (#[trigger] p2[j])) by {
            if !p.contains(q[0]) {
                assert forall|i: int, j: int| 0 <= i < j < p2.len() implies (#[trigger] p2[i])
                    != (#[trigger] p2[j]) by {
                    if j == p2.len() - 1 {
                        assert(p2[i] == p[i]);
                        assert(p2[j] == q[0]);
                        if p[i] == q[0] {
                            assert(p.contains(q[0]));
                        }
                    } else {
                        assert(p2[i] == p[i] && p2[j] == p[j]);
                    }
                }
            }
        }
        lemma_paths_merge_distinct(p2, q.drop_first());
        assert(spec_paths_merge(p, q) == spec_paths_merge(p2, q.drop_first()));
    }
}

/// Merging keeps variables sorted.
pub proof fn lemma_vars_merge_sorted(
    a: Seq<(Seq<char>, Seq<char>)>,
    b: Seq<(Seq<char>, Seq<char>)>,
)
    requires
        forall|i: int, j: int|
            0 <= i < j < a.len() ==> lex_lt((#[trigger] a[i]).0, (#[trigger] a[j]).0),
    ensures
        ({
            let r = spec_vars_merge(a, b);
            forall|i: int, j: int|
                0 <= i < j < r.len() ==> lex_lt((#[trigger] r[i]).0, (#[trigger] r[j]).0)
        }),
    decreases b.len(),
{
    if b.len() == 0 {
        assert(spec_vars_merge(a, b) == a);
    } else {
        lemma_set_var_sorted(a, b[0].0, b[0].1);
        lemma_vars_merge_sorted(spec_set_var(a, b[0].0, b[0].1), b.drop_first());
        assert(spec_vars_merge(a, b) == spec_vars_merge(
            spec_set_var(a, b[0].0, b[0].1),
            b.drop_first(),
        ));
    }
}

/// A merge into a well-formed environment is well-formed.
pub proof fn lemma_merge_wf(a: EnvView, b: EnvView)
    requires
        env_wf(a),
    ensures
        env_wf(spec_env_merge(a, b)),
{
    lemma_paths_merge_distinct(a.path, b.path);
    lemma_vars_merge_sorted(a.vars, b.vars);
}

impl Default for Env {
    /// The empty environment.
    fn default() -> (r: Env)
        ensures
            r@ == empty_env(),
            env_wf(r@),
    {
        let r = Env { path: Vec::new(), vars: Vec::new() };
        proof {
            assert(r@.path =~= empty_env().path);
            assert(r@.vars =~= empty_env().vars);
        }
        r
    }
}

impl Env {
    pub fn new() -> (r: Env)
        ensures
            r@ == empty_env(),
            env_wf(r@),
    {
        Env::default()
    }

    /// Append a PATH entry unless already present.
    pub fn add_path(&mut self, entry: String)
        ensures
            final(self)@.path == spec_add_path(old(self)@.path, entry@),
            final(self)@.vars == old(self)@.vars,
    {
        let ghost p = self@.path;
        let mut i: usize = 0;
        while i < self.path.len()
            invariant
                self@ == old(self)@,
                p == self@.path,
                i <= self.path.len(),
                forall|j: int| 0 <= j < i ==> (#[trigger] p[j]) != entry@,
            decreases self.path.len() - i,
        {
            if str_eq(self.path[i].as_str(), entry.as_str()) {
                proof {
                    assert(p[i as int] == entry@);
                    assert(p.contains(entry@));
                }
                return ;
            }
            i = i + 1;
        }
        proof {
            if p.contains(entry@) {
                let w = choose|w: int| 0 <= w < p.len() && p[w] == entry@;
                assert(false);
            }
        }
        self.path.push(entry);
        proof {
            assert(self@.path =~= p.push(entry@));
            assert(self@.vars =~= old(self)@.vars);
        }
    }

    /// Bind `key` to `val`, keeping the variables sorted by key.
    pub fn set_var(&mut self, key: String, val: String)
        ensures
            final(self)@.vars == spec_set_var(old(self)@.vars, key@, val@),
            final(self)@.path == old(self)@.path,
    {
        let ghost vs = self@.vars;
        let mut i: usize = 0;
        while i < self.vars.len()
            invariant
                self@ == old(self)@,
                vs == self@.vars,
                i <= self.vars.len(),
                forall|j: int| 0 <= j < i ==> lex_lt((#[trigger] vs[j]).0, key@),
            decreases self.vars.len() - i,
        {
            let cur_lt = lex_lt_str(self.vars[i].0.as_str(), key.as_str());
            if !cur_lt {
                if str_eq(self.vars[i].0.as_str(), key.as_str()) {
                    proof {
                        lemma_set_var_split(vs, key@, val@, i as int, true);
                    }
                    self.vars.set(i, (key, val));
                    proof {
                        assert(self@.vars =~~= vs.update(i as int, (key@, val@)));
                        assert(self@.path =~= old(self)@.path);
                    }
                    return ;
                }
                proof {
                    lemma_lex_connected(key@, vs[i as int].0);
                    lemma_set_var_split(vs, key@, val@, i as int, false);
                }
                self.vars.insert(i, (key, val));
                proof {
                    assert(self@.vars =~~= vs.insert(i as int, (key@, val@)));
                    assert(self@.path =~= old(self)@.path);
                }
                return ;
            }
            i = i + 1;
        }
        proof {
            lemma_set_var_split(vs, key@, val@, vs.len() as int, false);
        }
        self.vars.push((key, val));
        proof {
            assert(self@.vars =~~= vs.insert(vs.len() as int, (key@, val@)));
            assert(self@.path =~= old(self)@.path);
        }
    }

    /// Merge `other` into `self`: union the PATH entries, overwrite the
    /// variables value-wise.
    pub fn merge(&mut self, other: Env)
        ensures
            final(self)@ == spec_env_merge(old(self)@, other@),
    {
        let ghost a = self@;
        let ghost b = other@;
        let Env { path: opath, vars: ovars } = other;
        let ghost bv = b.vars;
        let mut k: usize = 0;
        proof {
            assert(bv.skip(0) =~= bv);
        }
        while k < ovars.len()
            invariant
                k <= ovars.len(),
                bv == vars_view(ovars@),
                self@.path == a.path,
                spec_vars_merge(a.vars, bv) == spec_vars_merge(self@.vars, bv.skip(k as int)),
            decreases ovars.len() - k,
        {
            let key = ovars[k].0.clone();
            let val = ovars[k].1.clone();
            proof {
                assert(bv.skip(k as int)[0] == bv[k as int]);
                assert(bv[k as int] == (key@, val@));
                assert(bv.skip(k as int).drop_first() =~= bv.skip(k + 1));
            }
            let ghost before = self@.vars;
            self.set_var(key, val);
            proof {
                assert(spec_vars_merge(before, bv.skip(k as int)) == spec_vars_merge(
                    self@.vars,
                    bv.skip(k + 1),
                ));
            }
            k = k + 1;
        }
        proof {
            assert(bv.skip(bv.len() as int) =~= Seq::<(Seq<char>, Seq<char>)>::empty());
            assert(self@.vars == spec_vars_merge(a.vars, b.vars));
        }
        let ghost bp = b.path;
        let mut q: usize = 0;
        proof {
            assert(bp.skip(0) =~= bp);
        }
        while q < opath.len()
            invariant
                q <= opath.len(),
                bp == paths_view(opath@),
                self@.vars == spec_vars_merge(a.vars, b.vars),
                spec_paths_merge(a.path, bp) == spec_paths_merge(self@.path, bp.skip(q as int)),
            decreases opath.len() - q,
        {
            let entry = opath[q].clone();
            proof {
                assert(bp.skip(q as int)[0] == bp[q as int]);
                assert(bp[q as int] == entry@);
                assert(bp.skip(q as int).drop_first() =~= bp.skip(q + 1));
            }
            let ghost before = self@.path;
            self.add_path(entry);
            proof {
                assert(spec_paths_merge(before, bp.skip(q as int)) == spec_paths_merge(
                    self@.path,
                    bp.skip(q + 1),
                ));
            }
            q = q + 1;
        }
        proof {
            assert(bp.skip(bp.len() as int) =~= Seq::<Seq<char>>::empty());
        }
    }
}

// ---------------------------------------------------------------------------
// Textual form of an environment
// ---------------------------------------------------------------------------

pub proof fn lemma_concat_assoc(a: Seq<char>, b: Seq<char>, c: Seq<char>)
    ensures
        (a + b) + c == a + (b + c),
{
    assert((a + b) + c =~= a + (b + c));
}

pub proof fn lemma_concat_empty(a: Seq<char>)
    ensures
        a + Seq::<char>::empty() == a,
        Seq::<char>::empty() + a == a,
{
    assert(a + Seq::<char>::empty() =~= a);
    assert(Seq::<char>::empty() + a =~= a);
}

/// One variable line: escaped key, a space, escaped value, a newline.
pub open spec fn pair_line(k: Seq<char>, v: Seq<char>) -> Seq<char> {
    esc_str(k) + seq![' '] + esc_str(v) + seq!['\n']
}

pub open spec fn vars_text_of(vars: Seq<(Seq<char>, Seq<char>)>) -> Seq<char>
    decreases vars.len(),
{
    if vars.len() == 0 {
        Seq::empty()
    } else {
        pair_line(vars[0].0, vars[0].1) + vars_text_of(vars.drop_first())
    }
}

pub open spec fn path_text_of(path: Seq<Seq<char>>) -> Seq<char>
    decreases path.len(),
{
    if path.len() == 0 {
        Seq::empty()
    } else {
        esc_str(path[0]) + seq!['\n'] + path_text_of(path.drop_first())
    }
}

pub proof fn lemma_vars_text_push(vars: Seq<(Seq<char>, Seq<char>)>, k: Seq<char>, v: Seq<char>)
    ensures
        vars_text_of(vars.push((k, v))) == vars_text_of(vars) + pair_line(k, v),
    decreases vars.len(),
{
    if vars.len() == 0 {
        assert(vars.push((k, v))[0] == (k, v));
        assert(vars.push((k, v)).drop_first() =~= Seq::<(Seq<char>, Seq<char>)>::empty());
        assert(vars_text_of(vars.push((k, v))) == pair_line(k, v) + vars_text_of(
            Seq::<(Seq<char>, Seq<char>)>::empty(),
        ));
        assert(vars_text_of(Seq::<(Seq<char>, Seq<char>)>::empty()) == Seq::<char>::empty());
        lemma_concat_empty(pair_line(k, v));
    } else {
        lemma_vars_text_push(vars.drop_first(), k, v);
        assert(vars.push((k, v)).drop_first() =~= vars.drop_first().push((k, v)));
        assert(vars.push((k, v))[0] == vars[0]);
        let hl = pair_line(vars[0].0, vars[0].1);
        assert(vars_text_of(vars.push((k, v))) == hl + vars_text_of(vars.drop_first().push((k, v))));
        assert(vars_text_of(vars) == hl + vars_text_of(vars.drop_first()));
        lemma_concat_assoc(hl, vars_text_of(vars.drop_first()), pair_line(k, v));
    }
}

pub proof fn lemma_path_text_push(path: Seq<Seq<char>>, e: Seq<char>)
    ensures
        path_text_of(path.push(e)) == path_text_of(path) + esc_str(e) + seq!['\n'],
    decreases path.len(),
{
    if path.len() == 0 {
        assert(path.push(e)[0] == e);
        assert(path.push(e).drop_first() =~= Seq::<Seq<char>>::empty());
        assert(path_text_of(path.push(e)) == esc_str(e) + seq!['\n'] + path_text_of(
            Seq::<Seq<char>>::empty(),
        ));
        assert(path_text_of(Seq::<Seq<char>>::empty()) == Seq::<char>::empty());
        lemma_concat_empty(esc_str(e) + seq!['\n']);
        lemma_concat_empty(esc_str(e));
    } else {
        lemma_path_text_push(path.drop_first(), e);
        assert(path.push(e).drop_first() =~= path.drop_first().push(e));
        assert(path.push(e)[0] == path[0]);
        let hl = esc_str(path[0]) + seq!['\n'];
        let pd = path_text_of(path.drop_first());
        let ee = esc_str(e);
        let nl = seq!['\n'];
        assert(path_text_of(path.push(e)) == hl + path_text_of(path.drop_first().push(e)));
        assert(path_text_of(path) == hl + pd);
        lemma_concat_assoc(hl, pd + ee, nl);
        lemma_concat_assoc(hl, pd, ee);
    }
}

pub fn build_vars_text(vars: &Vec<(String, String)>) -> (r: String)
    ensures
        r@ == vars_text_of(vars_view(vars@)),
{
    let ghost vs = vars_view(vars@);
    let mut r = String::new();
    proof {
        assert(vs.take(0) =~= Seq::<(Seq<char>, Seq<char>)>::empty());
    }
    let mut i: usize = 0;
    while i < vars.len()
        invariant
            vs == vars_view(vars@),
            i <= vars.len(),
            r@ == vars_text_of(vs.take(i as int)),
        decreases vars.len() - i,
    {
        esc_append(&mut r, vars[i].0.as_str());
        r.push(' ');
        esc_append(&mut r, vars[i].1.as_str());
        r.push('\n');
        proof {
            assert(vs.take(i + 1) =~= vs.take(i as int).push(vs[i as int]));
            lemma_vars_text_push(vs.take(i as int), vs[i as int].0, vs[i as int].1);
            assert(vs[i as int] == (vars@[i as int].0@, vars@[i as int].1@));
            assert(r@ =~= vars_text_of(vs.take(i as int)) + pair_line(
                vs[i as int].0,
                vs[i as int].1,
            ));
        }
        i = i + 1;
    }
    proof {
        assert(vs.take(vars@.len() as int) =~= vs);
    }
    r
}

pub fn build_path_text(path: &Vec<String>) -> (r: String)
    ensures
        r@ == path_text_of(paths_view(path@)),
{
    let ghost ps = paths_view(path@);
    let mut r = String::new();
    proof {
        assert(ps.take(0) =~= Seq::<Seq<char>>::empty());
    }
    let mut i: usize = 0;
    while i < path.len()
        invariant
            ps == paths_view(path@),
            i <= path.len(),
            r@ == path_text_of(ps.take(i as int)),
        decreases path.len() - i,
    {
        esc_append(&mut r, path[i].as_str());
        r.push('\n');
        proof {
            assert(ps.take(i + 1) =~= ps.take(i as int).push(ps[i as int]));
            lemma_path_text_push(ps.take(i as int), ps[i as int]);
            assert(ps[i as int] == path@[i as int]@);
            assert(r@ =~= path_text_of(ps.take(i as int)) + esc_str(ps[i as int]) + seq!['\n']);
        }
        i = i + 1;
    }
    proof {
        assert(ps.take(path@.len() as int) =~= ps);
    }
    r
}

/// Reading a variables text back, line by line.
pub open spec fn spec_parse_pairs(t: Seq<char>) -> Option<Seq<(Seq<char>, Seq<char>)>>
    decreases t.len(),
{
    if t.len() == 0 {
        Some(Seq::empty())
    } else {
        let i = spec_find(t, '\n');
        if i < 0 || i >= t.len() {
            None
        } else {
            let line = t.take(i);
            let j = spec_find(line, ' ');
            if j < 0 {
                None
            } else {
                match (spec_unesc(line.take(j)), spec_unesc(line.skip(j + 1))) {
                    (Some(k), Some(v)) => match spec_parse_pairs(t.skip(i + 1)) {
                        Some(r) => Some(seq![(k, v)] + r),
                        None => None,
                    },
                    _ => None,
                }
            }
        }
    }
}

pub open spec fn spec_parse_paths(t: Seq<char>) -> Option<Seq<Seq<char>>>
    decreases t.len(),
{
    if t.len() == 0 {
        Some(Seq::empty())
    } else {
        let i = spec_find(t, '\n');
        if i < 0 || i >= t.len() {
            None
        } else {
            match spec_unesc(t.take(i)) {
                Some(e) => match spec_parse_paths(t.skip(i + 1)) {
                    Some(r) => Some(seq![e] + r),
                    None => None,
                },
                None => None,
            }
        }
    }
}

/// An escaped text contains hex digits only, so it is free of the
/// delimiters.
pub proof fn lemma_esc_free(s: Seq<char>, c: char)
    requires
        !is_hex_char(c),
    ensures
        no_char(esc_str(s), c),
{
    lemma_esc_hex(s);
}

/// Parsing the built variables text recovers the variables.
pub proof fn lemma_parse_pairs_of_text(vs: Seq<(Seq<char>, Seq<char>)>)
    ensures
        spec_parse_pairs(vars_text_of(vs)) == Some(vs),
    decreases vs.len(),
{
    if vs.len() == 0 {
    } else {
        let k = vs[0].0;
        let v = vs[0].1;
        let rest = vars_text_of(vs.drop_first());
        let t = vars_text_of(vs);
        let line = esc_str(k) + seq![' '] + esc_str(v);
        assert(t == pair_line(k, v) + rest);
        assert(t =~= line + seq!['\n'] + rest);
        lemma_esc_free(k, '\n');
        lemma_esc_free(v, '\n');
        lemma_esc_free(k, ' ');
        assert(no_char(line, '\n')) by {
            lemma_esc_hex(k);
            lemma_esc_hex(v);
        }
        lemma_find_concat(line, rest, '\n');
        lemma_find(t, '\n');
        assert(t.take(line.len() as int) =~= line);
        assert(t.skip(line.len() as int + 1) =~= rest);
        lemma_find_concat(esc_str(k), esc_str(v), ' ');
        assert(line == esc_str(k) + seq![' '] + esc_str(v));
        assert(line.take(esc_str(k).len() as int) =~= esc_str(k));
        assert(line.skip(esc_str(k).len() as int + 1) =~= esc_str(v));
        lemma_unesc_esc(k);
        lemma_unesc_esc(v);
        lemma_parse_pairs_of_text(vs.drop_first());
        assert(seq![(k, v)] + vs.drop_first() =~= vs);
    }
}

pub proof fn lemma_parse_paths_of_text(ps: Seq<Seq<char>>)
    ensures
        spec_parse_paths(path_text_of(ps)) == Some(ps),
    decreases ps.len(),
{
    if ps.len() == 0 {
    } else {
        let e = ps[0];
        let rest = path_text_of(ps.drop_first());
        let t = path_text_of(ps);
        assert(t == esc_str(e) + seq!['\n'] + rest);
        lemma_esc_free(e, '\n');
        lemma_find_concat(esc_str(e), rest, '\n');
        lemma_find(t, '\n');
        assert(t.take(esc_str(e).len() as int) =~= esc_str(e));
        assert(t.skip(esc_str(e).len() as int + 1) =~= rest);
        lemma_unesc_esc(e);
        lemma_parse_paths_of_text(ps.drop_first());
        assert(seq![e] + ps.drop_first() =~= ps);
    }
}

/// Parse a variables text, executable form.
pub fn parse_pairs(cs: &Vec<char>, a: usize, b: usize) -> (r: Option<Vec<(String, String)>>)
    requires
        a <= b <= cs@.len(),
    ensures
        match r {
            Some(out) => spec_parse_pairs(cs@.subrange(a as int, b as int)) == Some(
                vars_view(out@),
            ),
            None => spec_parse_pairs(cs@.subrange(a as int, b as int)) is None,
        },
{
    let ghost whole = cs@.subrange(a as int, b as int);
    let mut out: Vec<(String, String)> = Vec::new();
    let mut p: usize = a;
    proof {
        assert(whole.skip(0) =~= whole);
        assert(vars_view(out@) =~= Seq::<(Seq<char>, Seq<char>)>::empty());
    }
    while p < b
        invariant
            a <= p <= b <= cs@.len(),
            whole == cs@.subrange(a as int, b as int),
            spec_parse_pairs(whole) is Some ==> (spec_parse_pairs(
                cs@.subrange(p as int, b as int),
            ) matches Some(r2) && spec_parse_pairs(whole) == Some(vars_view(out@) + r2)),
            spec_parse_pairs(whole) is None ==> spec_parse_pairs(
                cs@.subrange(p as int, b as int),
            ) is None,
        decreases b - p,
    {
        let ghost rest = cs@.subrange(p as int, b as int);
        let nl = match find_char(cs, p, b, '\n') {
            Some(x) => x,
            None => {
                proof {
                    assert(spec_parse_pairs(rest) is None);
                }
                return None;
            },
        };
        let ghost line = rest.take(spec_find(rest, '\n'));
        proof {
            lemma_find(rest, '\n');
            assert(line =~= cs@.subrange(p as int, nl as int));
        }
        let sp = match find_char(cs, p, nl, ' ') {
            Some(x) => x,
            None => {
                proof {
                    assert(spec_parse_pairs(rest) is None);
                }
                return None;
            },
        };
        proof {
            lemma_find(line, ' ');
            assert(line.take(spec_find(line, ' ')) =~= cs@.subrange(p as int, sp as int));
            assert(line.skip(spec_find(line, ' ') + 1) =~= cs@.subrange(sp + 1, nl as int));
        }
        let k = match unesc_range(cs, p, sp) {
            Some(x) => x,
            None => {
                proof {
                    assert(spec_parse_pairs(rest) is None);
                }
                return None;
            },
        };
        let v = match unesc_range(cs, sp + 1, nl) {
            Some(x) => x,
            None => {
                proof {
                    assert(spec_parse_pairs(rest) is None);
                }
                return None;
            },
        };
        proof {
            assert(rest.skip(spec_find(rest, '\n') + 1) =~= cs@.subrange(nl + 1, b as int));
        }
        let ghost out0 = vars_view(out@);
        out.push((k, v));
        proof {
            assert(vars_view(out@) =~= out0.push((k@, v@)));
            if spec_parse_pairs(whole) is Some {
                let r2 = spec_parse_pairs(rest)->Some_0;
                let r3 = spec_parse_pairs(cs@.subrange(nl + 1, b as int))->Some_0;
                assert(r2 == seq![(k@, v@)] + r3);
                assert(out0 + r2 =~= vars_view(out@) + r3);
            }
        }
        p = nl + 1;
    }
    proof {
        assert(cs@.subrange(p as int, b as int).len() == 0);
        assert(spec_parse_pairs(cs@.subrange(p as int, b as int)) == Some(Seq::<(
            Seq<char>,
            Seq<char>,
        )>::empty()));
        if spec_parse_pairs(whole) is Some {
            assert(vars_view(out@) + Seq::<(Seq<char>, Seq<char>)>::empty() =~= vars_view(out@));
        }
    }
    Some(out)
}

/// Parse a PATH text, executable form.
pub fn parse_paths(cs: &Vec<char>, a: usize, b: usize) -> (r: Option<Vec<String>>)
    requires
        a <= b <= cs@.len(),
    ensures
        match r {
            Some(out) => spec_parse_paths(cs@.subrange(a as int, b as int)) == Some(
                paths_view(out@),
            ),
            None => spec_parse_paths(cs@.subrange(a as int, b as int)) is None,
        },
{
    let ghost whole = cs@.subrange(a as int, b as int);
    let mut out: Vec<String> = Vec::new();
    let mut p: usize = a;
    proof {
        assert(whole.skip(0) =~= whole);
        assert(paths_view(out@) =~= Seq::<Seq<char>>::empty());
    }
    while p < b
        invariant
            a <= p <= b <= cs@.len(),
            whole == cs@.subrange(a as int, b as int),
            spec_parse_paths(whole) is Some ==> (spec_parse_paths(
                cs@.subrange(p as int, b as int),
            ) matches Some(r2) && spec_parse_paths(whole) == Some(paths_view(out@) + r2)),
            spec_parse_paths(whole) is None ==> spec_parse_paths(
                cs@.subrange(p as int, b as int),
            ) is None,
        decreases b - p,
    {
        let ghost rest = cs@.subrange(p as int, b as int);
        let nl = match find_char(cs, p, b, '\n') {
            Some(x) => x,
            None => {
                proof {
                    assert(spec_parse_paths(rest) is None);
                }
                return None;
            },
        };
        proof {
            lemma_find(rest, '\n');
            assert(rest.take(spec_find(rest, '\n')) =~= cs@.subrange(p as int, nl as int));
        }
        let e = match unesc_range(cs, p, nl) {
            Some(x) => x,
            None => {
                proof {
                    assert(spec_parse_paths(rest) is None);
                }
                return None;
            },
        };
        proof {
            assert(rest.skip(spec_find(rest, '\n') + 1) =~= cs@.subrange(nl + 1, b as int));
        }
        let ghost out0 = paths_view(out@);
        out.push(e);
        proof {
            assert(paths_view(out@) =~= out0.push(out@[out@.len() - 1]@));
            if spec_parse_paths(whole) is Some {
                let r2 = spec_parse_paths(rest)->Some_0;
                let r3 = spec_parse_paths(cs@.subrange(nl + 1, b as int))->Some_0;
                assert(out0 + r2 =~= paths_view(out@) + r3);
            }
        }
        p = nl + 1;
    }
    proof {
        assert(cs@.subrange(p as int, b as int).len() == 0);
        assert(spec_parse_paths(cs@.subrange(p as int, b as int)) == Some(Seq::<Seq<char>>::empty()));
        if spec_parse_paths(whole) is Some {
            assert(paths_view(out@) + Seq::<Seq<char>>::empty() =~= paths_view(out@));
        }
    }
    Some(out)
}

// ---------------------------------------------------------------------------
// Trusted codec wrappers
// ---------------------------------------------------------------------------

/// What Snappy compression returns for the UTF-8 bytes of a text; a
/// function of the text alone.
pub uninterp spec fn compressed_of(s: Seq<char>) -> Seq<u8>;

/// What standard base64 encoding returns for a byte string.
pub uninterp spec fn base64_of(b: Seq<u8>) -> Seq<char>;

/// The 64-bit xxHash of the UTF-8 bytes of a text, with seed 0.
pub uninterp spec fn xxh64_of(s: Seq<char>) -> u64;

/// Relies on `snap::raw::Encoder::compress_vec`: deterministic Snappy
/// compression of the given bytes.  Per its source it fails exactly when
/// `max_compress_len` is zero, that is when the worst-case compressed
/// size `32 + n + n/6` would exceed 2^32 - 1 (so for every input of at
/// most 3 681 400 511 bytes it succeeds), and the output stays within
/// that worst-case size.
#[verifier::external_body]
fn snap_compress(s: &str) -> (r: Result<Vec<u8>, EnvError>)
    ensures
        r matches Ok(v) ==> v@ == compressed_of(s@) && v@.len() <= 32 + s.spec_bytes().len()
            + s.spec_bytes().len() / 6,
        s.spec_bytes().len() <= 3681400511 ==> r is Ok,
{
    match snap::raw::Encoder::new().compress_vec(s.as_bytes()) {
        Ok(v) => Ok(v),
        Err(e) => Err(EnvError::Io(e.to_string())),
    }
}

/// The decompressor inverts the compressor: if the input is the
/// compressed form of some text, the call returns exactly that text.
pub open spec fn decompresses_to(data: Seq<u8>, r: Result<String, EnvError>) -> bool {
    forall|x: Seq<char>| data == compressed_of(x) ==> (r matches Ok(v) && v@ == x)
}

/// The base64 decoder inverts the encoder: if the input is the encoding
/// of some bytes, the call returns exactly those bytes.
pub open spec fn base64_decodes_to(s: Seq<char>, r: Result<Vec<u8>, EnvError>) -> bool {
    forall|x: Seq<u8>| s == base64_of(x) ==> (r matches Ok(v) && v@ == x)
}

/// Relies on `snap::raw::Decoder::decompress_vec`: decompressing the
/// compressor's output returns the original bytes, here converted back to
/// the original text.
#[verifier::external_body]
fn snap_decompress(data: &Vec<u8>) -> (r: Result<String, EnvError>)
    ensures
        decompresses_to(data@, r),
{
    match snap::raw::Decoder::new().decompress_vec(data.as_slice()) {
        Ok(b) => match String::from_utf8(b) {
            Ok(s) => Ok(s),
            Err(e) => Err(EnvError::InvalidString(e.to_string())),
        },
        Err(e) => Err(EnvError::Io(e.to_string())),
    }
}

/// A character of the standard base64 alphabet, including the padding.
pub open spec fn is_base64_char(c: char) -> bool {
    ||| ('A' <= c && c <= 'Z')
    ||| ('a' <= c && c <= 'z')
    ||| ('0' <= c && c <= '9')
    ||| c == '+'
    ||| c == '/'
    ||| c == '='
}

/// Relies on `base64::encode` (standard alphabet, padded): the result
/// holds base64 characters only.  The length bound keeps the encoder's
/// buffer-size computation from overflowing on any pointer width.
#[verifier::external_body]
fn base64_encode(data: &Vec<u8>) -> (r: String)
    requires
        data@.len() < 0x80000000,
    ensures
        r@ == base64_of(data@),
        forall|j: int| 0 <= j < r@.len() ==> is_base64_char(#[trigger] r@[j]),
{
    base64::encode(data.as_slice())
}

/// Relies on `base64::decode`: decoding an encoded string returns the
/// original bytes.
#[verifier::external_body]
fn base64_decode(s: &str) -> (r: Result<Vec<u8>, EnvError>)
    ensures
        base64_decodes_to(s@, r),
{
    match base64::decode(s) {
        Ok(v) => Ok(v),
        Err(e) => Err(EnvError::DecodeFailed(e.to_string())),
    }
}

/// Relies on `twox_hash::XxHash64::oneshot` with seed 0 over the UTF-8
/// bytes: a pure function of its input.
#[verifier::external_body]
fn xxhash64_str(s: &str) -> (r: u64)
    ensures
        r == xxh64_of(s@),
{
    twox_hash::XxHash64::oneshot(0, s.as_bytes())
}

// ---------------------------------------------------------------------------
// Serialisation
// ---------------------------------------------------------------------------

/// The serialized blob: the decimal length of the armoured variables part,
/// a dot, then the armoured variables and PATH parts.
pub open spec fn spec_env_blob(e: EnvView) -> Seq<char> {
    let bv = base64_of(compressed_of(vars_text_of(e.vars)));
    let bp = base64_of(compressed_of(path_text_of(e.path)));
    spec_u64_dec(bv.len()) + seq!['.'] + bv + bp
}

/// Every character of a serialized blob is a base64 character or the
/// single dot that separates the length prefix from the armoured parts —
/// no whitespace, quotes or separators, so the blob is safe to stash in a
/// shell variable.
pub open spec fn blob_chars_ok(s: Seq<char>) -> bool {
    forall|j: int| 0 <= j < s.len() ==> is_base64_char(#[trigger] s[j]) || s[j] == '.'
}

/// The environment fingerprint: the hash of the variables text followed by
/// the PATH text.
pub open spec fn spec_env_hash(e: EnvView) -> u64 {
    xxh64_of(vars_text_of(e.vars) + path_text_of(e.path))
}

/// Shape facts about a serialized blob, for locating its parts.
proof fn lemma_blob_shape(m: EnvView, t: Seq<char>)
    requires
        t == spec_env_blob(m),
    ensures
        ({
            let bv = base64_of(compressed_of(vars_text_of(m.vars)));
            let bp = base64_of(compressed_of(path_text_of(m.path)));
            let dec = spec_u64_dec(bv.len());
            &&& t.len() == dec.len() + 1 + bv.len() + bp.len()
            &&& dec.len() >= 1
            &&& spec_find(t, '.') == dec.len()
            &&& t.subrange(0, dec.len() as int) == dec
            &&& t.subrange(dec.len() as int + 1, dec.len() as int + 1 + bv.len() as int) == bv
            &&& t.subrange(dec.len() as int + 1 + bv.len() as int, t.len() as int) == bp
        }),
{
    let bv = base64_of(compressed_of(vars_text_of(m.vars)));
    let bp = base64_of(compressed_of(path_text_of(m.path)));
    let dec = spec_u64_dec(bv.len());
    lemma_u64_dec_digits(bv.len());
    assert(no_char(dec, '.')) by {
        assert forall|j: int| 0 <= j < dec.len() implies dec[j] != '.' by {
            assert(is_digit(dec[j]));
        }
    }
    assert(t =~= dec + seq!['.'] + (bv + bp));
    lemma_find_concat(dec, bv + bp, '.');
    assert(t.subrange(0, dec.len() as int) =~= dec);
    assert(t.subrange(dec.len() as int + 1, dec.len() as int + 1 + bv.len() as int) =~= bv);
    assert(t.subrange(dec.len() as int + 1 + bv.len() as int, t.len() as int) =~= bp);
}

/// Digit sequences have non-negative values that grow with the prefix.
proof fn lemma_dec_val_prefix(s: Seq<char>, i: int)
    requires
        0 <= i <= s.len(),
        forall|j: int| 0 <= j < s.len() ==> is_digit(#[trigger] s[j]),
    ensures
        0 <= spec_dec_val(s.take(i)),
        spec_dec_val(s.take(i)) <= spec_dec_val(s),
    decreases s.len() - i,
{
    lemma_dec_val_nonneg(s.take(i));
    if i == s.len() {
        assert(s.take(i) =~= s);
    } else {
        lemma_dec_val_prefix(s, i + 1);
        assert(s.take(i + 1).drop_last() =~= s.take(i));
        assert(s.take(i + 1).last() == s[i]);
        assert(spec_dec_val(s.take(i + 1)) == spec_dec_val(s.take(i)) * 10 + digit_val(s[i]));
        assert(digit_val(s[i]) >= 0);
    }
}

proof fn lemma_dec_val_nonneg(s: Seq<char>)
    requires
        forall|j: int| 0 <= j < s.len() ==> is_digit(#[trigger] s[j]),
    ensures
        spec_dec_val(s) >= 0,
    decreases s.len(),
{
    if s.len() > 0 {
        assert(forall|j: int|
            0 <= j < s.drop_last().len() ==> (#[trigger] s.drop_last()[j]) == s[j]);
        lemma_dec_val_nonneg(s.drop_last());
    }
}

/// Adjacent order on keys gives pairwise order.
proof fn lemma_sorted_pair(vs: Seq<(Seq<char>, Seq<char>)>, i: int, j: int)
    requires
        forall|x: int|
            0 <= x < vs.len() - 1 ==> lex_lt((#[trigger] vs[x]).0, vs[x + 1].0),
        0 <= i < j < vs.len(),
    ensures
        lex_lt(vs[i].0, vs[j].0),
    decreases j - i,
{
    if j == i + 1 {
        assert(lex_lt(vs[i].0, vs[i + 1].0));
    } else {
        lemma_sorted_pair(vs, i, j - 1);
        assert(lex_lt(vs[j - 1].0, vs[j].0));
        lemma_lex_trans(vs[i].0, vs[j - 1].0, vs[j].0);
    }
}

fn exec_digit_val(c: char) -> (r: u32)
    ensures
        is_digit(c) ==> r == digit_val(c),
        !is_digit(c) ==> r == 10,
        r <= 10,
{
    let v = c as u32;
    if v >= 0x30 && v <= 0x39 {
        proof {
            vstd::utf8::char_u32_cast(c, v);
        }
        v - 0x30
    } else {
        proof {
            vstd::utf8::char_u32_cast(c, v);
        }
        10
    }
}

impl Env {
    /// Turn the environment into an opaque textual blob, safe to stash in
    /// a shell variable.  Fails only when a part outgrows the compressor's
    /// input limit.
    pub fn serialize(&self) -> (r: Result<String, EnvError>)
        ensures
            r matches Ok(s) ==> s@ == spec_env_blob(self@) && blob_chars_ok(s@),
            vstd::utf8::encode_utf8(vars_text_of(self@.vars)).len() <= 0x60000000
                && vstd::utf8::encode_utf8(path_text_of(self@.path)).len() <= 0x60000000
                ==> r is Ok,
    {
        let vt = build_vars_text(&self.vars);
        let pt = build_path_text(&self.path);
        let cv = match snap_compress(vt.as_str()) {
            Ok(v) => v,
            Err(e) => {
                return Err(e);
            },
        };
        let cp = match snap_compress(pt.as_str()) {
            Ok(v) => v,
            Err(e) => {
                return Err(e);
            },
        };
        if cv.len() >= 0x80000000 || cp.len() >= 0x80000000 {
            return Err(EnvError::Io("environment too large to serialize".to_owned()));
        }
        let bv = base64_encode(&cv);
        let bp = base64_encode(&cp);
        let n = bv.as_str().unicode_len();
        let mut out = u64_to_dec(n as u64);
        out.push('.');
        out.append(bv.as_str());
        out.append(bp.as_str());
        proof {
            assert(out@ =~= spec_u64_dec(bv@.len()) + seq!['.'] + bv@ + bp@);
            let dec = spec_u64_dec(bv@.len());
            lemma_u64_dec_digits(bv@.len());
            assert forall|j: int| 0 <= j < out@.len() implies is_base64_char(#[trigger] out@[j])
                || out@[j] == '.' by {
                if j < dec.len() {
                    assert(out@[j] == dec[j]);
                    assert(is_digit(dec[j]));
                } else if j == dec.len() {
                    assert(out@[j] == '.');
                } else if j < dec.len() + 1 + bv@.len() {
                    assert(out@[j] == bv@[j - dec.len() - 1]);
                } else {
                    assert(out@[j] == bp@[j - dec.len() - 1 - bv@.len()]);
                }
            }
        }
        Ok(out)
    }

    /// The 64-bit fingerprint of the environment.
    pub fn hash(&self) -> (r: u64)
        ensures
            r == spec_env_hash(self@),
    {
        let mut t = build_vars_text(&self.vars);
        let pt = build_path_text(&self.path);
        t.append(pt.as_str());
        xxhash64_str(t.as_str())
    }

    /// Decode a blob produced by `serialize`.  Decoding any serialized
    /// well-formed environment gives that environment back; every accepted
    /// blob yields a well-formed environment.
    #[verifier::loop_isolation(false)]
    #[verifier::rlimit(80)]
    pub fn deserialize(from: &str) -> (r: Result<Env, EnvError>)
        ensures
            r matches Ok(e) ==> env_wf(e@),
            forall|m: EnvView|
                env_wf(m) && from@ == spec_env_blob(m) ==> (r matches Ok(e) && e@ == m),
    {
        let cs = chars_of(from);
        let len = cs.len();
        // Locate the dot after the decimal length prefix.
        let dot = match find_char(&cs, 0, len, '.') {
            Some(d) => d,
            None => {
                proof {
                    assert forall|m: EnvView|
                        env_wf(m) && from@ == spec_env_blob(m) implies false by {
                        lemma_blob_shape(m, from@);
                        assert(cs@.subrange(0, len as int) =~= from@);
                    }
                }
                return Err(EnvError::InvalidEnvString);
            },
        };
        proof {
            assert(cs@.subrange(0, len as int) =~= from@);
        }
        let ghost decw = from@.subrange(0, dot as int);
        // Parse the decimal length.
        let mut value: u64 = 0;
        let mut i: usize = 0;
        proof {
            assert(decw.take(0) =~= Seq::<char>::empty());
        }
        while i < dot
            invariant
                i <= dot < len,
                len == cs@.len(),
                cs@ == from@,
                decw == from@.subrange(0, dot as int),
                spec_find(from@, '.') == dot,
                forall|j: int| 0 <= j < i ==> is_digit(#[trigger] decw[j]),
                value == spec_dec_val(decw.take(i as int)),
            decreases dot - i,
        {
            let d = exec_digit_val(cs[i]);
            proof {
                assert(decw[i as int] == from@[i as int]);
            }
            if d == 10 {
                proof {
                    assert forall|m: EnvView|
                        env_wf(m) && from@ == spec_env_blob(m) implies false by {
                        lemma_blob_shape(m, from@);
                        let bv = base64_of(compressed_of(vars_text_of(m.vars)));
                        let dec = spec_u64_dec(bv.len());
                        lemma_u64_dec_digits(bv.len());
                        assert(decw =~= dec);
                        assert(is_digit(dec[i as int]));
                    }
                }
                return Err(EnvError::InvalidEnvString);
            }
            let overflow = value > 1844674407370955161 || (value == 1844674407370955161 && d > 5);
            if overflow {
                proof {
                    assert forall|m: EnvView|
                        env_wf(m) && from@ == spec_env_blob(m) implies false by {
                        lemma_blob_shape(m, from@);
                        let bv = base64_of(compressed_of(vars_text_of(m.vars)));
                        let dec = spec_u64_dec(bv.len());
                        lemma_u64_dec_digits(bv.len());
                        assert(decw =~= dec);
                        lemma_dec_roundtrip(bv.len());
                        assert(bv.len() <= from@.len());
                        lemma_dec_val_prefix(dec, i + 1);
                        assert(dec.take(i + 1).drop_last() =~= dec.take(i as int));
                        assert(dec.take(i + 1).last() == dec[i as int]);
                        assert(spec_dec_val(dec.take(i + 1)) == value * 10 + digit_val(
                            dec[i as int],
                        ));
                        assert(value * 10 + d <= bv.len());
                    }
                }
                return Err(EnvError::InvalidEnvString);
            }
            proof {
                assert(decw.take(i + 1).drop_last() =~= decw.take(i as int));
                assert(decw.take(i + 1).last() == decw[i as int]);
            }
            value = value * 10 + (d as u64);
            i = i + 1;
        }
        proof {
            assert(decw.take(dot as int) =~= decw);
        }
        // The remainder splits at the stored length.
        let rest_len = len - dot - 1;
        if value > rest_len as u64 {
            proof {
                assert forall|m: EnvView|
                    env_wf(m) && from@ == spec_env_blob(m) implies false by {
                    lemma_blob_shape(m, from@);
                    let bv = base64_of(compressed_of(vars_text_of(m.vars)));
                    let dec = spec_u64_dec(bv.len());
                    assert(decw =~= dec);
                    lemma_dec_roundtrip(bv.len());
                }
            }
            return Err(EnvError::InvalidEnvString);
        }
        let n = value as usize;
        let vstart = dot + 1;
        let vend = vstart + n;
        let b64v = string_from_range(&cs, vstart, vend);
        let b64p = string_from_range(&cs, vend, len);
        // Decode and decompress both parts.
        let vbytes = match base64_decode(b64v.as_str()) {
            Ok(v) => v,
            Err(e) => {
                proof {
                    deserialize_part_facts(from@, decw, dot as int, n as int, b64v@, b64p@);
                }
                return Err(e);
            },
        };
        let vtext = match snap_decompress(&vbytes) {
            Ok(v) => v,
            Err(e) => {
                proof {
                    deserialize_part_facts(from@, decw, dot as int, n as int, b64v@, b64p@);
                }
                return Err(e);
            },
        };
        let pbytes = match base64_decode(b64p.as_str()) {
            Ok(v) => v,
            Err(e) => {
                proof {
                    deserialize_part_facts(from@, decw, dot as int, n as int, b64v@, b64p@);
                }
                return Err(e);
            },
        };
        let ptext = match snap_decompress(&pbytes) {
            Ok(v) => v,
            Err(e) => {
                proof {
                    deserialize_part_facts(from@, decw, dot as int, n as int, b64v@, b64p@);
                }
                return Err(e);
            },
        };
        // Parse both texts.
        let vcs = chars_of(vtext.as_str());
        let vlen = vcs.len();
        proof {
            assert(vcs@.subrange(0, vlen as int) =~= vtext@);
        }
        let pairs = match parse_pairs(&vcs, 0, vlen) {
            Some(p) => p,
            None => {
                proof {
                    deserialize_part_facts(from@, decw, dot as int, n as int, b64v@, b64p@);
                    assert forall|m: EnvView|
                        env_wf(m) && from@ == spec_env_blob(m) implies false by {
                        lemma_parse_pairs_of_text(m.vars);
                    }
                }
                return Err(EnvError::InvalidEnvString);
            },
        };
        let pcs = chars_of(ptext.as_str());
        let plen = pcs.len();
        proof {
            assert(pcs@.subrange(0, plen as int) =~= ptext@);
        }
        let paths = match parse_paths(&pcs, 0, plen) {
            Some(p) => p,
            None => {
                proof {
                    deserialize_part_facts(from@, decw, dot as int, n as int, b64v@, b64p@);
                    assert forall|m: EnvView|
                        env_wf(m) && from@ == spec_env_blob(m) implies false by {
                        lemma_parse_paths_of_text(m.path);
                    }
                }
                return Err(EnvError::InvalidEnvString);
            },
        };
        // The variables must be strictly sorted.
        let mut si: usize = 1;
        while si < pairs.len()
            invariant
                1 <= si <= pairs.len() || pairs.len() == 0,
                forall|x: int|
                    0 <= x < si - 1 && x < pairs@.len() - 1 ==> lex_lt(
                        (#[trigger] vars_view(pairs@)[x]).0,
                        vars_view(pairs@)[x + 1].0,
                    ),
            decreases pairs.len() - si,
        {
            if !lex_lt_str(pairs[si - 1].0.as_str(), pairs[si].0.as_str()) {
                proof {
                    deserialize_part_facts(from@, decw, dot as int, n as int, b64v@, b64p@);
                    assert forall|m: EnvView|
                        env_wf(m) && from@ == spec_env_blob(m) implies false by {
                        lemma_parse_pairs_of_text(m.vars);
                        assert(vars_view(pairs@) == m.vars);
                        assert(lex_lt(m.vars[si - 1].0, m.vars[si as int].0));
                    }
                }
                return Err(EnvError::InvalidEnvString);
            }
            si = si + 1;
        }
        // The PATH entries must be pairwise distinct.
        let mut pi: usize = 0;
        while pi < paths.len()
            invariant
                pi <= paths.len(),
                forall|x: int, y: int|
                    0 <= x < y < pi ==> (#[trigger] paths_view(paths@)[x]) != (#[trigger] paths_view(
                        paths@,
                    )[y]),
            decreases paths.len() - pi,
        {
            let mut pj: usize = 0;
            while pj < pi
                invariant
                    pj <= pi < paths.len(),
                    forall|x: int, y: int|
                        0 <= x < y < pi ==> (#[trigger] paths_view(paths@)[x])
                            != (#[trigger] paths_view(paths@)[y]),
                    forall|x: int|
                        0 <= x < pj ==> (#[trigger] paths_view(paths@)[x]) != paths_view(
                            paths@,
                        )[pi as int],
                decreases pi - pj,
            {
                if str_eq(paths[pj].as_str(), paths[pi].as_str()) {
                    proof {
                        deserialize_part_facts(from@, decw, dot as int, n as int, b64v@, b64p@);
                        assert forall|m: EnvView|
                            env_wf(m) && from@ == spec_env_blob(m) implies false by {
                            lemma_parse_paths_of_text(m.path);
                            assert(paths_view(paths@) == m.path);
                            assert(m.path[pj as int] != m.path[pi as int]);
                        }
                    }
                    return Err(EnvError::InvalidEnvString);
                }
                pj = pj + 1;
            }
            pi = pi + 1;
        }
        let result = Env { path: paths, vars: pairs };
        proof {
            // Accepted blobs decode to well-formed environments.
            assert(env_wf(result@)) by {
                assert forall|x: int, y: int|
                    0 <= x < y < result@.vars.len() implies lex_lt(
                    (#[trigger] result@.vars[x]).0,
                    (#[trigger] result@.vars[y]).0,
                ) by {
                    lemma_sorted_pair(vars_view(pairs@), x, y);
                }
            }
            assert forall|m: EnvView|
                env_wf(m) && from@ == spec_env_blob(m) implies result@ == m by {
                deserialize_part_facts(from@, decw, dot as int, n as int, b64v@, b64p@);
                lemma_parse_pairs_of_text(m.vars);
                lemma_parse_paths_of_text(m.path);
                assert(vars_view(pairs@) == m.vars);
                assert(paths_view(paths@) == m.path);
            }
        }
        Ok(result)
    }
}

/// Under the hypothesis that `t` serializes some well-formed environment,
/// the windows computed by `deserialize` are exactly the blob's parts.
/// This is a pure statement shared by the proof at every exit.
proof fn deserialize_part_facts(
    t: Seq<char>,
    decw: Seq<char>,
    dot: int,
    n: int,
    b64v: Seq<char>,
    b64p: Seq<char>,
)
    requires
        0 <= dot < t.len(),
        decw == t.subrange(0, dot),
        spec_find(t, '.') == dot,
        0 <= n <= t.len() - dot - 1,
        b64v == t.subrange(dot + 1, dot + 1 + n),
        b64p == t.subrange(dot + 1 + n, t.len() as int),
        forall|j: int| 0 <= j < decw.len() ==> is_digit(#[trigger] decw[j]),
        spec_dec_val(decw) == n,
    ensures
        forall|m: EnvView|
            t == spec_env_blob(m) ==> b64v == base64_of(
                compressed_of(vars_text_of(m.vars)),
            ) && b64p == base64_of(compressed_of(path_text_of(m.path))),
{
    assert forall|m: EnvView| t == spec_env_blob(m) implies b64v == base64_of(
        compressed_of(vars_text_of(m.vars)),
    ) && b64p == base64_of(compressed_of(path_text_of(m.path))) by {
        lemma_blob_shape(m, t);
        let bv = base64_of(compressed_of(vars_text_of(m.vars)));
        let dec = spec_u64_dec(bv.len());
        assert(dot == dec.len());
        assert(decw =~= dec);
        lemma_dec_roundtrip(bv.len());
        assert(n == bv.len());
    }
}

/// How a sorted insert relates to update/insert at the found position.
pub proof fn lemma_set_var_split(
    vs: Seq<(Seq<char>, Seq<char>)>,
    k: Seq<char>,
    v: Seq<char>,
    i: int,
    found: bool,
)
    requires
        0 <= i <= vs.len(),
        forall|j: int| 0 <= j < i ==> lex_lt((#[trigger] vs[j]).0, k),
        found ==> i < vs.len() && vs[i].0 == k,
        !found ==> (i == vs.len() || (!lex_lt(vs[i].0, k) && vs[i].0 != k)),
    ensures
        found ==> spec_set_var(vs, k, v) == vs.update(i, (k, v)),
        !found ==> spec_set_var(vs, k, v) == vs.insert(i, (k, v)),
    decreases vs.len(),
{
    if i == 0 {
        if found {
            assert(spec_set_var(vs, k, v) == seq![(k, v)] + vs.drop_first());
            assert(seq![(k, v)] + vs.drop_first() =~= vs.update(0, (k, v)));
        } else {
            if vs.len() == 0 {
                assert(seq![(k, v)] =~= vs.insert(0, (k, v)));
            } else {
                lemma_lex_connected(k, vs[0].0);
                assert(lex_lt(k, vs[0].0));
                assert(seq![(k, v)] + vs =~= vs.insert(0, (k, v)));
            }
        }
    } else {
        assert(lex_lt(vs[0].0, k));
        lemma_lex_connected(k, vs[0].0);
        assert(k != vs[0].0);
        assert(!lex_lt(k, vs[0].0));
        assert(forall|j: int|
            0 <= j < vs.drop_first().len() ==> (#[trigger] vs.drop_first()[j]) == vs[j + 1]);
        lemma_set_var_split(vs.drop_first(), k, v, i - 1, found);
        if found {
            assert(seq![vs[0]] + vs.drop_first().update(i - 1, (k, v)) =~= vs.update(i, (k, v)));
        } else {
            assert(seq![vs[0]] + vs.drop_first().insert(i - 1, (k, v)) =~= vs.insert(i, (k, v)));
        }
    }
}

} // verus!
