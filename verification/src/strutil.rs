//! Character-sequence helpers shared by the parsing and rendering code:
//! searching, splitting, joining, trimming, lexicographic order and decimal
//! rendering, each with an executable form proved against a spec function.

use vstd::prelude::*;

verus! {

/// Relies on `alloc::string::String::push`: appends one character at the end.
pub assume_specification[ String::push ](s: &mut String, c: char)
    ensures
        final(s)@ == old(s)@.push(c),
;

/// Relies on `char::from_u32`: `Some` exactly for valid Unicode scalar
/// values, and the returned character has the given code point.
pub assume_specification[ char::from_u32 ](v: u32) -> (r: Option<char>)
    ensures
        r is Some <==> (v < 0xD800 || (0xE000 <= v && v <= 0x10FFFF)),
        r matches Some(c) ==> c as u32 == v,
;

pub fn chars_of(s: &str) -> (r: Vec<char>)
    ensures
        r@ == s@,
{
    let n = s.unicode_len();
    let mut r: Vec<char> = Vec::new();
    let mut i: usize = 0;
    while i < n
        invariant
            n == s@.len(),
            i <= n,
            r@ == s@.take(i as int),
        decreases n - i,
    {
        let c = s.get_char(i);
        r.push(c);
        i = i + 1;
        assert(s@.take(i as int) =~= s@.take(i - 1).push(s@[i - 1]));
    }
    assert(s@.take(n as int) =~= s@);
    r
}

pub fn string_from_range(cs: &Vec<char>, a: usize, b: usize) -> (r: String)
    requires
        a <= b <= cs@.len(),
    ensures
        r@ == cs@.subrange(a as int, b as int),
{
    let mut r = String::new();
    let mut i: usize = a;
    while i < b
        invariant
            a <= i <= b <= cs@.len(),
            r@ == cs@.subrange(a as int, i as int),
        decreases b - i,
    {
        r.push(cs[i]);
        i = i + 1;
        assert(cs@.subrange(a as int, i as int) =~= cs@.subrange(a as int, i - 1).push(
            cs@[i - 1],
        ));
    }
    r
}

pub fn str_eq(a: &str, b: &str) -> (r: bool)
    ensures
        r == (a@ == b@),
{
    let sa = a.to_owned();
    let sb = b.to_owned();
    sa == sb
}

/// Index of the first occurrence of `c` in `s`, or -1 when absent.
pub open spec fn spec_find(s: Seq<char>, c: char) -> int
    decreases s.len(),
{
    if s.len() == 0 {
        -1
    } else if s[0] == c {
        0
    } else {
        let r = spec_find(s.drop_first(), c);
        if r < 0 {
            -1
        } else {
            r + 1
        }
    }
}

pub proof fn lemma_find(s: Seq<char>, c: char)
    ensures
        -1 <= spec_find(s, c) < s.len(),
        spec_find(s, c) >= 0 ==> s[spec_find(s, c)] == c,
        forall|j: int| 0 <= j < spec_find(s, c) ==> s[j] != c,
        spec_find(s, c) == -1 ==> forall|j: int| 0 <= j < s.len() ==> s[j] != c,
    decreases s.len(),
{
    if s.len() > 0 && s[0] != c {
        lemma_find(s.drop_first(), c);
        assert forall|j: int| 0 <= j < spec_find(s, c) implies s[j] != c by {
            if j >= 1 {
                assert(s[j] == s.drop_first()[j - 1]);
            }
        }
        if spec_find(s, c) == -1 {
            assert forall|j: int| 0 <= j < s.len() implies s[j] != c by {
                if j >= 1 {
                    assert(s[j] == s.drop_first()[j - 1]);
                }
            }
        }
    }
}

/// The first occurrence of `c` in a concatenation whose left part lacks `c`.
pub proof fn lemma_find_concat(t: Seq<char>, rest: Seq<char>, c: char)
    requires
        forall|j: int| 0 <= j < t.len() ==> t[j] != c,
    ensures
        spec_find(t + seq![c] + rest, c) == t.len(),
    decreases t.len(),
{
    if t.len() == 0 {
        assert(t + seq![c] + rest =~= seq![c] + rest);
        assert((seq![c] + rest)[0] == c);
    } else {
        lemma_find_concat(t.drop_first(), rest, c);
        assert((t + seq![c] + rest).drop_first() =~= t.drop_first() + seq![c] + rest);
        assert((t + seq![c] + rest)[0] == t[0]);
    }
}

/// When `c` does not occur at all, `spec_find` reports -1.
pub proof fn lemma_find_none(s: Seq<char>, c: char)
    requires
        forall|j: int| 0 <= j < s.len() ==> s[j] != c,
    ensures
        spec_find(s, c) == -1,
    decreases s.len(),
{
    if s.len() > 0 {
        lemma_find_none(s.drop_first(), c);
    }
}

pub fn find_char(cs: &Vec<char>, a: usize, b: usize, c: char) -> (r: Option<usize>)
    requires
        a <= b <= cs@.len(),
    ensures
        ({
            let f = spec_find(cs@.subrange(a as int, b as int), c);
            match r {
                Some(i) => a <= i < b && f == i - a,
                None => f == -1,
            }
        }),
{
    let ghost s = cs@.subrange(a as int, b as int);
    let mut i: usize = a;
    while i < b
        invariant
            a <= i <= b <= cs@.len(),
            s == cs@.subrange(a as int, b as int),
            forall|j: int| 0 <= j < i - a ==> s[j] != c,
        decreases b - i,
    {
        if cs[i] == c {
            proof {
                lemma_find(s, c);
                assert(s[i - a] == c);
            }
            return Some(i);
        }
        i = i + 1;
    }
    proof {
        lemma_find_none(s, c);
    }
    None
}

/// Split at every occurrence of `c`; always at least one part, and the
/// separators are not kept.
pub open spec fn spec_split(s: Seq<char>, c: char) -> Seq<Seq<char>>
    decreases s.len(),
{
    let i = spec_find(s, c);
    if i < 0 || i >= s.len() {
        seq![s]
    } else {
        seq![s.take(i)] + spec_split(s.skip(i + 1), c)
    }
}

pub proof fn lemma_split_no_sep(s: Seq<char>, c: char)
    requires
        forall|j: int| 0 <= j < s.len() ==> s[j] != c,
    ensures
        spec_split(s, c) == seq![s],
{
    lemma_find_none(s, c);
}

/// Peeling one separator off the front of a split.
pub proof fn lemma_split_concat(t: Seq<char>, rest: Seq<char>, c: char)
    requires
        forall|j: int| 0 <= j < t.len() ==> t[j] != c,
    ensures
        spec_split(t + seq![c] + rest, c) == seq![t] + spec_split(rest, c),
{
    let s = t + seq![c] + rest;
    lemma_find_concat(t, rest, c);
    lemma_find(s, c);
    assert(s.take(t.len() as int) =~= t);
    assert(s.skip(t.len() as int + 1) =~= rest);
}

/// Joining with the separator undoes a split.
pub open spec fn spec_join(parts: Seq<Seq<char>>, c: char) -> Seq<char>
    decreases parts.len(),
{
    if parts.len() == 0 {
        Seq::empty()
    } else if parts.len() == 1 {
        parts[0]
    } else {
        parts[0] + seq![c] + spec_join(parts.drop_first(), c)
    }
}

/// Appending one part to a join adds one separator (unless it is the first).
pub proof fn lemma_join_push(parts: Seq<Seq<char>>, p: Seq<char>, c: char)
    ensures
        spec_join(parts.push(p), c) == if parts.len() == 0 {
            p
        } else {
            spec_join(parts, c) + seq![c] + p
        },
    decreases parts.len(),
{
    if parts.len() == 0 {
        assert(parts.push(p) =~= seq![p]);
        assert(spec_join(seq![p], c) == p);
    } else if parts.len() == 1 {
        assert(parts.push(p).drop_first() =~= seq![p]);
        assert(parts.push(p)[0] == parts[0]);
        assert(spec_join(seq![p], c) == p);
        assert(spec_join(parts.push(p), c) == parts[0] + seq![c] + p);
    } else {
        lemma_join_push(parts.drop_first(), p, c);
        assert(parts.push(p).drop_first() =~= parts.drop_first().push(p));
        assert(parts[0] + seq![c] + (spec_join(parts.drop_first(), c) + seq![c] + p) =~= (parts[0]
            + seq![c] + spec_join(parts.drop_first(), c)) + seq![c] + p);
    }
}

/// Splitting a join of separator-free parts gives the parts back.
pub proof fn lemma_split_join(parts: Seq<Seq<char>>, c: char)
    requires
        parts.len() >= 1,
        forall|k: int|
            0 <= k < parts.len() ==> forall|j: int|
                0 <= j < (#[trigger] parts[k]).len() ==> parts[k][j] != c,
    ensures
        spec_split(spec_join(parts, c), c) == parts,
    decreases parts.len(),
{
    if parts.len() == 1 {
        lemma_split_no_sep(parts[0], c);
        assert(seq![parts[0]] =~= parts);
    } else {
        assert(forall|k: int|
            0 <= k < parts.drop_first().len() ==> parts.drop_first()[k] == parts[k + 1]);
        lemma_split_join(parts.drop_first(), c);
        lemma_split_concat(parts[0], spec_join(parts.drop_first(), c), c);
        assert(seq![parts[0]] + parts.drop_first() =~= parts);
    }
}

/// Every part of a split is free of the separator.
pub proof fn lemma_split_parts_free(s: Seq<char>, c: char)
    ensures
        forall|k: int|
            0 <= k < spec_split(s, c).len() ==> forall|j: int|
                0 <= j < (#[trigger] spec_split(s, c)[k]).len() ==> spec_split(s, c)[k][j] != c,
    decreases s.len(),
{
    let i = spec_find(s, c);
    lemma_find(s, c);
    if !(i < 0 || i >= s.len()) {
        lemma_split_parts_free(s.skip(i + 1), c);
        assert forall|k: int| 0 <= k < spec_split(s, c).len() implies forall|j: int|
            0 <= j < (#[trigger] spec_split(s, c)[k]).len() ==> spec_split(s, c)[k][j] != c by {
            if k == 0 {
                assert(spec_split(s, c)[0] == s.take(i));
                assert(forall|j: int| 0 <= j < i ==> s.take(i)[j] == s[j]);
            } else {
                assert(spec_split(s, c)[k] == spec_split(s.skip(i + 1), c)[k - 1]);
            }
        }
    }
}

/// The view of a window list: each window as the subrange it denotes.
pub open spec fn windows_view(cs: Seq<char>, ws: Seq<(usize, usize)>) -> Seq<Seq<char>> {
    ws.map_values(|w: (usize, usize)| cs.subrange(w.0 as int, w.1 as int))
}

/// Split the window `[a, b)` of `cs` at every occurrence of `c`, returned
/// as sub-windows.
pub fn split_windows(cs: &Vec<char>, a: usize, b: usize, c: char) -> (r: Vec<(usize, usize)>)
    requires
        a <= b <= cs@.len(),
    ensures
        windows_view(cs@, r@) == spec_split(cs@.subrange(a as int, b as int), c),
        forall|k: int| 0 <= k < r@.len() ==> a <= (#[trigger] r@[k]).0 <= r@[k].1 <= b,
{
    let ghost whole = cs@.subrange(a as int, b as int);
    let mut r: Vec<(usize, usize)> = Vec::new();
    let mut start: usize = a;
    loop
        invariant
            a <= start <= b <= cs@.len(),
            whole == cs@.subrange(a as int, b as int),
            spec_split(whole, c) == windows_view(cs@, r@) + spec_split(
                cs@.subrange(start as int, b as int),
                c,
            ),
            forall|k: int| 0 <= k < r@.len() ==> a <= (#[trigger] r@[k]).0 <= r@[k].1 <= b,
        decreases b - start,
    {
        let ghost rest = cs@.subrange(start as int, b as int);
        match find_char(cs, start, b, c) {
            Some(i) => {
                proof {
                    lemma_find(rest, c);
                    // One unfolding of spec_split on `rest`.
                    assert(spec_split(rest, c) == seq![rest.take(i - start)] + spec_split(
                        rest.skip(i - start + 1),
                        c,
                    ));
                    assert(rest.take(i - start) =~= cs@.subrange(start as int, i as int));
                    assert(rest.skip(i - start + 1) =~= cs@.subrange(i + 1, b as int));
                }
                r.push((start, i));
                proof {
                    assert(windows_view(cs@, r@) =~= windows_view(cs@, r@.drop_last()) + seq![
                        cs@.subrange(start as int, i as int),
                    ]);
                    assert(windows_view(cs@, r@) + spec_split(cs@.subrange(i + 1, b as int), c)
                        =~= spec_split(whole, c));
                }
                start = i + 1;
            },
            None => {
                proof {
                    lemma_find(rest, c);
                    assert(spec_split(rest, c) == seq![rest]);
                }
                r.push((start, b));
                proof {
                    assert(windows_view(cs@, r@) =~= windows_view(cs@, r@.drop_last()) + seq![rest]);
                    assert(windows_view(cs@, r@) =~= spec_split(whole, c));
                }
                return r;
            },
        }
    }
}

pub open spec fn no_char(s: Seq<char>, c: char) -> bool {
    forall|j: int| 0 <= j < s.len() ==> s[j] != c
}

/// Split parts inherit the absence of any character from the whole.
pub proof fn lemma_split_parts_inherit(s: Seq<char>, sep: char, c: char)
    requires
        no_char(s, c),
    ensures
        forall|k: int|
            0 <= k < spec_split(s, sep).len() ==> no_char(#[trigger] spec_split(s, sep)[k], c),
    decreases s.len(),
{
    let i = spec_find(s, sep);
    lemma_find(s, sep);
    if !(i < 0 || i >= s.len()) {
        assert(no_char(s.skip(i + 1), c));
        lemma_split_parts_inherit(s.skip(i + 1), sep, c);
        assert forall|k: int| 0 <= k < spec_split(s, sep).len() implies no_char(
            #[trigger] spec_split(s, sep)[k],
            c,
        ) by {
            if k == 0 {
                assert(spec_split(s, sep)[0] == s.take(i));
                assert(forall|j: int| 0 <= j < i ==> s.take(i)[j] == s[j]);
            } else {
                assert(spec_split(s, sep)[k] == spec_split(s.skip(i + 1), sep)[k - 1]);
            }
        }
    } else {
        assert(spec_split(s, sep)[0] == s);
    }
}

/// The last part of a split ends where the whole ends, when the whole does
/// not end in the separator.
pub proof fn lemma_split_last(s: Seq<char>, c: char)
    requires
        s.len() > 0,
        s.last() != c,
    ensures
        spec_split(s, c).last().len() > 0,
        spec_split(s, c).last().last() == s.last(),
    decreases s.len(),
{
    let i = spec_find(s, c);
    lemma_find(s, c);
    if !(i < 0 || i >= s.len()) {
        assert(i < s.len() - 1) by {
            assert(s[i] == c);
        }
        let rest = s.skip(i + 1);
        assert(rest.len() > 0);
        assert(rest.last() == s.last());
        lemma_split_last(rest, c);
        assert(spec_split(s, c).last() == spec_split(rest, c).last());
    }
}

/// A join starts with the first part's first character.
pub proof fn lemma_join_first(parts: Seq<Seq<char>>, c: char)
    requires
        parts.len() >= 1,
        parts[0].len() > 0,
    ensures
        spec_join(parts, c).len() > 0,
        spec_join(parts, c)[0] == parts[0][0],
{
    if parts.len() > 1 {
        assert(spec_join(parts, c) == parts[0] + seq![c] + spec_join(parts.drop_first(), c));
    }
}

/// A join ends with the last part's last character.
pub proof fn lemma_join_last(parts: Seq<Seq<char>>, c: char)
    requires
        parts.len() >= 1,
        parts.last().len() > 0,
    ensures
        spec_join(parts, c).len() > 0,
        spec_join(parts, c).last() == parts.last().last(),
    decreases parts.len(),
{
    if parts.len() > 1 {
        assert(parts.drop_first().last() == parts.last());
        lemma_join_last(parts.drop_first(), c);
        assert(spec_join(parts, c) == parts[0] + seq![c] + spec_join(parts.drop_first(), c));
    }
}

/// A join of parts free of `c` is free of `c` when the separator differs.
pub proof fn lemma_join_no_char(parts: Seq<Seq<char>>, sep: char, c: char)
    requires
        c != sep,
        forall|k: int| 0 <= k < parts.len() ==> no_char(#[trigger] parts[k], c),
    ensures
        no_char(spec_join(parts, sep), c),
    decreases parts.len(),
{
    if parts.len() == 0 {
    } else if parts.len() == 1 {
        assert(no_char(parts[0], c));
    } else {
        assert(forall|k: int|
            0 <= k < parts.drop_first().len() ==> (#[trigger] parts.drop_first()[k]) == parts[k
                + 1]);
        lemma_join_no_char(parts.drop_first(), sep, c);
        assert(spec_join(parts, sep) == parts[0] + seq![sep] + spec_join(parts.drop_first(), sep));
    }
}

/// Trimming preserves the absence of a character.
pub proof fn lemma_trim_no_char(s: Seq<char>, c: char)
    requires
        no_char(s, c),
    ensures
        no_char(spec_trim(s), c),
{
    lemma_trim_start_props(s);
    let k = choose|k: int|
        0 <= k <= s.len() && spec_trim_start(s) == s.skip(k) && (forall|j: int|
            0 <= j < k ==> is_ws(s[j]));
    assert(no_char(s.skip(k), c));
    let t = spec_trim_start(s);
    lemma_trim_end_props(t);
    let k2 = choose|k2: int|
        0 <= k2 <= t.len() && spec_trim_end(t) == t.take(k2) && (forall|j: int|
            k2 <= j < t.len() ==> is_ws(t[j]));
    assert(no_char(t.take(k2), c));
}

pub open spec fn is_ws(c: char) -> bool {
    c == ' ' || c == '\t' || c == '\r' || c == '\n'
}

pub open spec fn spec_trim_start(s: Seq<char>) -> Seq<char>
    decreases s.len(),
{
    if s.len() > 0 && is_ws(s[0]) {
        spec_trim_start(s.drop_first())
    } else {
        s
    }
}

pub open spec fn spec_trim_end(s: Seq<char>) -> Seq<char>
    decreases s.len(),
{
    if s.len() > 0 && is_ws(s.last()) {
        spec_trim_end(s.drop_last())
    } else {
        s
    }
}

pub open spec fn spec_trim(s: Seq<char>) -> Seq<char> {
    spec_trim_end(spec_trim_start(s))
}

/// A sequence with no leading or trailing whitespace is its own trim.
pub proof fn lemma_trim_fixed(s: Seq<char>)
    requires
        s.len() > 0 ==> !is_ws(s[0]),
        s.len() > 0 ==> !is_ws(s.last()),
    ensures
        spec_trim(s) == s,
{
}

pub proof fn lemma_trim_start_props(s: Seq<char>)
    ensures
        exists|k: int|
            0 <= k <= s.len() && spec_trim_start(s) == s.skip(k) && (forall|j: int|
                0 <= j < k ==> is_ws(s[j])),
        spec_trim_start(s).len() > 0 ==> !is_ws(spec_trim_start(s)[0]),
    decreases s.len(),
{
    if s.len() > 0 && is_ws(s[0]) {
        lemma_trim_start_props(s.drop_first());
        let k0 = choose|k0: int|
            0 <= k0 <= s.drop_first().len() && spec_trim_start(s.drop_first()) == s.drop_first().skip(
                k0,
            ) && (forall|j: int| 0 <= j < k0 ==> is_ws(s.drop_first()[j]));
        assert(s.drop_first().skip(k0) =~= s.skip(k0 + 1));
        assert(forall|j: int| 0 <= j < k0 + 1 ==> is_ws(s[j])) by {
            assert(forall|j: int| 1 <= j < k0 + 1 ==> s[j] == s.drop_first()[j - 1]);
        }
        assert(0 <= k0 + 1 <= s.len() && spec_trim_start(s) == s.skip(k0 + 1) && (forall|j: int|
            0 <= j < k0 + 1 ==> is_ws(s[j])));
    } else {
        assert(spec_trim_start(s) == s.skip(0)) by {
            assert(s.skip(0) =~= s);
        }
    }
}

pub proof fn lemma_trim_end_props(s: Seq<char>)
    ensures
        exists|k: int|
            0 <= k <= s.len() && spec_trim_end(s) == s.take(k) && (forall|j: int|
                k <= j < s.len() ==> is_ws(s[j])),
        spec_trim_end(s).len() > 0 ==> !is_ws(spec_trim_end(s).last()),
        spec_trim_end(s).len() > 0 ==> spec_trim_end(s)[0] == s[0],
    decreases s.len(),
{
    if s.len() > 0 && is_ws(s.last()) {
        lemma_trim_end_props(s.drop_last());
        let k0 = choose|k0: int|
            0 <= k0 <= s.drop_last().len() && spec_trim_end(s.drop_last()) == s.drop_last().take(k0)
                && (forall|j: int| k0 <= j < s.drop_last().len() ==> is_ws(s.drop_last()[j]));
        assert(s.drop_last().take(k0) =~= s.take(k0));
        assert(forall|j: int| k0 <= j < s.len() ==> is_ws(s[j])) by {
            assert(forall|j: int| k0 <= j < s.len() - 1 ==> s[j] == s.drop_last()[j]);
        }
        assert(0 <= k0 <= s.len() && spec_trim_end(s) == s.take(k0) && (forall|j: int|
            k0 <= j < s.len() ==> is_ws(s[j])));
    } else {
        assert(spec_trim_end(s) == s.take(s.len() as int)) by {
            assert(s.take(s.len() as int) =~= s);
        }
    }
}

/// Trim of a window `[a, b)` of `cs`, as a new window `(a', b')`.
pub fn trim_range(cs: &Vec<char>, a: usize, b: usize) -> (r: (usize, usize))
    requires
        a <= b <= cs@.len(),
    ensures
        a <= r.0 <= r.1 <= b,
        cs@.subrange(r.0 as int, r.1 as int) == spec_trim(cs@.subrange(a as int, b as int)),
{
    let ghost s = cs@.subrange(a as int, b as int);
    let mut lo: usize = a;
    while lo < b && (cs[lo] == ' ' || cs[lo] == '\t' || cs[lo] == '\r' || cs[lo] == '\n')
        invariant
            a <= lo <= b <= cs@.len(),
            s == cs@.subrange(a as int, b as int),
            forall|j: int| 0 <= j < lo - a ==> is_ws(s[j]),
        decreases b - lo,
    {
        lo = lo + 1;
    }
    let ghost st = cs@.subrange(lo as int, b as int);
    proof {
        lemma_trim_start_skip(s, lo - a);
        assert(s.skip(lo - a) =~= st);
    }
    let mut hi: usize = b;
    while hi > lo && (cs[hi - 1] == ' ' || cs[hi - 1] == '\t' || cs[hi - 1] == '\r' || cs[hi - 1]
        == '\n')
        invariant
            a <= lo <= hi <= b <= cs@.len(),
            st == cs@.subrange(lo as int, b as int),
            forall|j: int| hi - lo <= j < st.len() ==> is_ws(st[j]),
        decreases hi,
    {
        hi = hi - 1;
    }
    proof {
        lemma_trim_end_take(st, hi - lo);
        assert(st.take(hi - lo) =~= cs@.subrange(lo as int, hi as int));
    }
    (lo, hi)
}

/// After skipping `k` leading whitespace characters and reaching a
/// non-whitespace head (or the end), the skip is the start-trim.
pub proof fn lemma_trim_start_skip(s: Seq<char>, k: int)
    requires
        0 <= k <= s.len(),
        forall|j: int| 0 <= j < k ==> is_ws(s[j]),
        k < s.len() ==> !is_ws(s[k]),
    ensures
        spec_trim_start(s) == s.skip(k),
    decreases s.len(),
{
    if k == 0 {
        assert(s.skip(0) =~= s);
    } else {
        lemma_trim_start_skip(s.drop_first(), k - 1);
        assert(s.drop_first().skip(k - 1) =~= s.skip(k));
    }
}

pub proof fn lemma_trim_end_take(s: Seq<char>, k: int)
    requires
        0 <= k <= s.len(),
        forall|j: int| k <= j < s.len() ==> is_ws(s[j]),
        k > 0 ==> !is_ws(s[k - 1]),
    ensures
        spec_trim_end(s) == s.take(k),
    decreases s.len(),
{
    if k == s.len() {
        assert(s.take(k) =~= s);
    } else {
        lemma_trim_end_take(s.drop_last(), k);
        assert(s.drop_last().take(k) =~= s.take(k));
    }
}

/// The length of the leading run of non-whitespace characters.
pub open spec fn spec_run_len(s: Seq<char>) -> int
    decreases s.len(),
{
    if s.len() == 0 || is_ws(s[0]) {
        0
    } else {
        1 + spec_run_len(s.drop_first())
    }
}

pub proof fn lemma_run_len_at(s: Seq<char>, k: int)
    requires
        0 <= k <= s.len(),
        forall|j: int| 0 <= j < k ==> !is_ws(s[j]),
        k < s.len() ==> is_ws(s[k]),
    ensures
        spec_run_len(s) == k,
    decreases s.len(),
{
    if k == 0 {
    } else {
        assert(forall|j: int|
            0 <= j < s.drop_first().len() ==> (#[trigger] s.drop_first()[j]) == s[j + 1]);
        lemma_run_len_at(s.drop_first(), k - 1);
    }
}

/// Maximal whitespace-separated tokens, in order; never an empty token.
pub open spec fn spec_ws_tokens(s: Seq<char>) -> Seq<Seq<char>>
    decreases s.len(),
{
    if s.len() == 0 {
        Seq::empty()
    } else if is_ws(s[0]) {
        spec_ws_tokens(s.drop_first())
    } else {
        let k = spec_run_len(s);
        if k < 1 || k > s.len() {
            Seq::empty()
        } else {
            seq![s.take(k)] + spec_ws_tokens(s.skip(k))
        }
    }
}

/// Strict lexicographic order on character sequences, by code point.
pub open spec fn lex_lt(a: Seq<char>, b: Seq<char>) -> bool
    decreases a.len(),
{
    if b.len() == 0 {
        false
    } else if a.len() == 0 {
        true
    } else if a[0] != b[0] {
        (a[0] as u32) < (b[0] as u32)
    } else {
        lex_lt(a.drop_first(), b.drop_first())
    }
}

pub proof fn lemma_lex_connected(a: Seq<char>, b: Seq<char>)
    ensures
        !lex_lt(a, b) && !lex_lt(b, a) ==> a == b,
        !(lex_lt(a, b) && lex_lt(b, a)),
    decreases a.len(),
{
    if a.len() == 0 && b.len() == 0 {
        assert(a =~= b);
    } else if a.len() > 0 && b.len() > 0 && a[0] != b[0] {
        vstd::utf8::char_u32_cast(a[0], a[0] as u32);
        vstd::utf8::char_u32_cast(b[0], b[0] as u32);
    } else if a.len() > 0 && b.len() > 0 && a[0] == b[0] {
        lemma_lex_connected(a.drop_first(), b.drop_first());
        if !lex_lt(a, b) && !lex_lt(b, a) {
            assert(a =~= seq![a[0]] + a.drop_first());
            assert(b =~= seq![b[0]] + b.drop_first());
        }
    }
}

pub proof fn lemma_lex_trans(a: Seq<char>, b: Seq<char>, c: Seq<char>)
    requires
        lex_lt(a, b),
        lex_lt(b, c),
    ensures
        lex_lt(a, c),
    decreases a.len(),
{
    if a.len() > 0 && b.len() > 0 && c.len() > 0 {
        if a[0] == b[0] && b[0] == c[0] {
            lemma_lex_trans(a.drop_first(), b.drop_first(), c.drop_first());
        }
    }
}

pub fn lex_lt_str(a: &str, b: &str) -> (r: bool)
    ensures
        r == lex_lt(a@, b@),
{
    let na = a.unicode_len();
    let nb = b.unicode_len();
    let mut i: usize = 0;
    proof {
        assert(a@.skip(0) =~= a@);
        assert(b@.skip(0) =~= b@);
    }
    loop
        invariant
            na == a@.len(),
            nb == b@.len(),
            i <= na,
            i <= nb,
            forall|j: int| 0 <= j < i ==> a@[j] == b@[j],
            lex_lt(a@, b@) == lex_lt(a@.skip(i as int), b@.skip(i as int)),
        decreases na - i,
    {
        if i >= nb {
            proof {
                assert(b@.skip(i as int).len() == 0);
            }
            return false;
        }
        if i >= na {
            proof {
                assert(a@.skip(i as int).len() == 0);
                assert(b@.skip(i as int).len() > 0);
            }
            return true;
        }
        let ca = a.get_char(i);
        let cb = b.get_char(i);
        if ca != cb {
            proof {
                assert(a@.skip(i as int)[0] == a@[i as int]);
                assert(b@.skip(i as int)[0] == b@[i as int]);
            }
            return (ca as u32) < (cb as u32);
        }
        proof {
            assert(a@.skip(i as int).drop_first() =~= a@.skip(i + 1));
            assert(b@.skip(i as int).drop_first() =~= b@.skip(i + 1));
            assert(a@.skip(i as int)[0] == a@[i as int]);
            assert(b@.skip(i as int)[0] == b@[i as int]);
        }
        i = i + 1;
    }
}

pub open spec fn spec_digit(n: int) -> char {
    if n == 0 {
        '0'
    } else if n == 1 {
        '1'
    } else if n == 2 {
        '2'
    } else if n == 3 {
        '3'
    } else if n == 4 {
        '4'
    } else if n == 5 {
        '5'
    } else if n == 6 {
        '6'
    } else if n == 7 {
        '7'
    } else if n == 8 {
        '8'
    } else {
        '9'
    }
}

pub open spec fn is_digit(c: char) -> bool {
    '0' <= c && c <= '9'
}

pub open spec fn digit_val(c: char) -> int {
    c as int - '0' as int
}

/// Decimal rendering of a natural number, most significant digit first.
pub open spec fn spec_u64_dec(x: nat) -> Seq<char>
    decreases x,
{
    if x < 10 {
        seq![spec_digit(x as int)]
    } else {
        spec_u64_dec(x / 10).push(spec_digit((x % 10) as int))
    }
}

pub proof fn lemma_u64_dec_digits(x: nat)
    ensures
        spec_u64_dec(x).len() > 0,
        forall|j: int| 0 <= j < spec_u64_dec(x).len() ==> is_digit(#[trigger] spec_u64_dec(x)[j]),
    decreases x,
{
    if x >= 10 {
        lemma_u64_dec_digits(x / 10);
    }
}

pub fn exec_digit(n: u64) -> (r: char)
    requires
        n < 10,
    ensures
        r == spec_digit(n as int),
{
    match n {
        0 => '0',
        1 => '1',
        2 => '2',
        3 => '3',
        4 => '4',
        5 => '5',
        6 => '6',
        7 => '7',
        8 => '8',
        _ => '9',
    }
}

pub fn u64_to_dec(x: u64) -> (r: String)
    ensures
        r@ == spec_u64_dec(x as nat),
    decreases x,
{
    if x < 10 {
        let mut r = String::new();
        r.push(exec_digit(x));
        assert(r@ =~= seq![spec_digit(x as int)]);
        r
    } else {
        let mut r = u64_to_dec(x / 10);
        r.push(exec_digit(x % 10));
        r
    }
}

/// Reading decimal digits back gives the rendered number.
pub open spec fn spec_dec_val(s: Seq<char>) -> int
    decreases s.len(),
{
    if s.len() == 0 {
        0
    } else {
        spec_dec_val(s.drop_last()) * 10 + digit_val(s.last())
    }
}

pub proof fn lemma_digit_val(n: int)
    requires
        0 <= n < 10,
    ensures
        digit_val(spec_digit(n)) == n,
        is_digit(spec_digit(n)),
{
    if n == 0 {
        assert(digit_val('0') == 0);
    } else if n == 1 {
        assert(digit_val('1') == 1);
    } else if n == 2 {
        assert(digit_val('2') == 2);
    } else if n == 3 {
        assert(digit_val('3') == 3);
    } else if n == 4 {
        assert(digit_val('4') == 4);
    } else if n == 5 {
        assert(digit_val('5') == 5);
    } else if n == 6 {
        assert(digit_val('6') == 6);
    } else if n == 7 {
        assert(digit_val('7') == 7);
    } else if n == 8 {
        assert(digit_val('8') == 8);
    } else {
        assert(digit_val('9') == 9);
    }
}

pub proof fn lemma_dec_roundtrip(x: nat)
    ensures
        spec_dec_val(spec_u64_dec(x)) == x,
    decreases x,
{
    if x < 10 {
        lemma_digit_val(x as int);
        let s = spec_u64_dec(x);
        assert(s == seq![spec_digit(x as int)]);
        assert(s.len() == 1);
        assert(s.last() == spec_digit(x as int));
        assert(s.drop_last() =~= Seq::<char>::empty());
        assert(spec_dec_val(s.drop_last()) == 0);
        assert(spec_dec_val(s) == 0 * 10 + digit_val(spec_digit(x as int)));
    } else {
        lemma_digit_val((x % 10) as int);
        lemma_dec_roundtrip(x / 10);
        let s = spec_u64_dec(x);
        assert(s == spec_u64_dec(x / 10).push(spec_digit((x % 10) as int)));
        assert(s.drop_last() =~= spec_u64_dec(x / 10));
        assert(s.last() == spec_digit((x % 10) as int));
        assert(spec_dec_val(s) == spec_dec_val(s.drop_last()) * 10 + digit_val(s.last()));
        assert(spec_dec_val(s) == (x / 10) * 10 + (x % 10));
        vstd::arithmetic::div_mod::lemma_fundamental_div_mod(x as int, 10);
        assert(x == 10 * ((x as int) / 10) + (x as int) % 10);
        assert((x as int) / 10 == (x / 10) as int);
        assert((x as int) % 10 == (x % 10) as int);
    }
}

} // verus!
