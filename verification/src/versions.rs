//! Version identifiers and version files.
//!
//! A version identifier is one of four variants: an opaque remote version
//! token, a source-control reference (`ref:` prefix on the wire), a
//! filesystem path (`path:` prefix), or the literal `system`.  A version
//! file maps plugin names to non-empty candidate lists, one entry per line,
//! with `#` comments.

use crate::strutil::{
    chars_of, find_char, is_ws, lemma_find, lemma_join_first, lemma_join_last, lemma_join_no_char,
    lemma_join_push, lemma_split_join, lemma_split_last, lemma_split_parts_free,
    lemma_split_parts_inherit, lemma_trim_end_props, lemma_trim_fixed, lemma_trim_no_char,
    lemma_trim_start_props, no_char, spec_find, spec_join, spec_split, spec_trim, spec_trim_end,
    spec_trim_start, split_windows, str_eq, string_from_range, trim_range, windows_view,
};
use vstd::prelude::*;

verus! {

pub enum VersionView {
    Remote(Seq<char>),
    Ref(Seq<char>),
    Path(Seq<char>),
    System,
}

#[derive(Debug, Clone, PartialEq, Eq)]
pub enum Version {
    Version(String),
    Ref(String),
    Path(String),
    System,
}

impl View for Version {
    type V = VersionView;

    open spec fn view(&self) -> VersionView {
        match self {
            Version::Version(s) => VersionView::Remote(s@),
            Version::Ref(s) => VersionView::Ref(s@),
            Version::Path(s) => VersionView::Path(s@),
            Version::System => VersionView::System,
        }
    }
}

/// Grammar of a single token: `system`, then `ref:`, then `path:`, then a
/// bare remote version string.  The prefix is removed once.
pub open spec fn spec_parse_version(s: Seq<char>) -> VersionView {
    if s == "system"@ {
        VersionView::System
    } else if s.len() >= 4 && s.take(4) == "ref:"@ {
        VersionView::Ref(s.skip(4))
    } else if s.len() >= 5 && s.take(5) == "path:"@ {
        VersionView::Path(s.skip(5))
    } else {
        VersionView::Remote(s)
    }
}

/// The wire form of an identifier.
pub open spec fn spec_render_version(v: VersionView) -> Seq<char> {
    match v {
        VersionView::Remote(t) => t,
        VersionView::Ref(t) => "ref:"@ + t,
        VersionView::Path(t) => "path:"@ + t,
        VersionView::System => "system"@,
    }
}

pub open spec fn spec_install_type(v: VersionView) -> Seq<char> {
    match v {
        VersionView::Remote(_) => "version"@,
        VersionView::Ref(_) => "ref"@,
        VersionView::Path(_) => "path"@,
        VersionView::System => "system"@,
    }
}

pub open spec fn spec_version_str(v: VersionView) -> Seq<char> {
    match v {
        VersionView::Remote(t) => t,
        VersionView::Ref(t) => t,
        VersionView::Path(t) => t,
        VersionView::System => ""@,
    }
}

impl Version {
    /// Parse a version token.  Every string parses; an unrecognised form is
    /// an opaque remote version.
    pub fn parse(raw: &str) -> (r: Version)
        ensures
            r@ == spec_parse_version(raw@),
    {
        if str_eq(raw, "system") {
            return Version::System;
        }
        let n = raw.unicode_len();
        if n >= 4 && str_eq(raw.substring_char(0, 4), "ref:") {
            return Version::Ref(raw.substring_char(4, n).to_owned());
        }
        if n >= 5 && str_eq(raw.substring_char(0, 5), "path:") {
            return Version::Path(raw.substring_char(5, n).to_owned());
        }
        Version::Version(raw.to_owned())
    }

    /// The fixed short string passed to plugin scripts as the install type.
    pub fn install_type(&self) -> (r: &'static str)
        ensures
            r@ == spec_install_type(self@),
    {
        match self {
            Version::Version(_) => "version",
            Version::Ref(_) => "ref",
            Version::Path(_) => "path",
            Version::System => "system",
        }
    }

    /// The bare token handed to plugin scripts; empty for `system`.
    pub fn version_str(&self) -> (r: &str)
        ensures
            r@ == spec_version_str(self@),
    {
        match self {
            Version::Version(s) => s.as_str(),
            Version::Ref(s) => s.as_str(),
            Version::Path(s) => s.as_str(),
            Version::System => "",
        }
    }

    /// The wire form, as written in a version file.
    pub fn raw(&self) -> (r: String)
        ensures
            r@ == spec_render_version(self@),
    {
        match self {
            Version::Version(s) => s.clone(),
            Version::Ref(s) => {
                let mut r = "ref:".to_owned();
                r.append(s.as_str());
                r
            },
            Version::Path(s) => {
                let mut r = "path:".to_owned();
                r.append(s.as_str());
                r
            },
            Version::System => "system".to_owned(),
        }
    }
}

/// An identifier whose wire form parses back to itself.  Only a remote
/// token that spells `system` or carries a `ref:`/`path:` prefix is not
/// canonical: its wire form would parse as the other variant.
pub open spec fn canonical_version(v: VersionView) -> bool {
    match v {
        VersionView::Remote(t) => t != "system"@ && !(t.len() >= 4 && t.take(4) == "ref:"@) && !(
        t.len() >= 5 && t.take(5) == "path:"@),
        _ => true,
    }
}

/// Round trip: parsing a rendered identifier gives it back.
pub proof fn lemma_parse_render_version(v: VersionView)
    requires
        canonical_version(v),
    ensures
        spec_parse_version(spec_render_version(v)) == v,
{
    reveal_strlit("system");
    reveal_strlit("ref:");
    reveal_strlit("path:");
    match v {
        VersionView::Remote(t) => {},
        VersionView::Ref(t) => {
            let s = "ref:"@ + t;
            assert(s.take(4) =~= "ref:"@);
            assert(s != "system"@) by {
                assert(s[0] == 'r');
            }
            assert(s.skip(4) =~= t);
        },
        VersionView::Path(t) => {
            let s = "path:"@ + t;
            assert(s.take(5) =~= "path:"@);
            assert(s != "system"@) by {
                assert(s[0] == 'p');
            }
            assert(!(s.take(4) == "ref:"@)) by {
                assert(s[0] == 'p');
                assert(s.take(4).len() == 4);
                if s.take(4) == "ref:"@ {
                    assert(s.take(4)[0] == 'r');
                }
            }
            assert(s.skip(5) =~= t);
        },
        VersionView::System => {},
    }
}

/// The reverse round trip holds for every token: rendering a parsed token
/// reproduces the token exactly.
pub proof fn lemma_render_parse_token(s: Seq<char>)
    ensures
        spec_render_version(spec_parse_version(s)) == s,
{
    if s == "system"@ {
    } else if s.len() >= 4 && s.take(4) == "ref:"@ {
        assert("ref:"@ + s.skip(4) =~= s);
    } else if s.len() >= 5 && s.take(5) == "path:"@ {
        assert("path:"@ + s.skip(5) =~= s);
    }
}

// ---------------------------------------------------------------------------
// Version files
// ---------------------------------------------------------------------------

/// The model of a version file: plugin names with their candidate lists,
/// in file order.
pub type VersionFileView = Seq<(Seq<char>, Seq<VersionView>)>;

pub enum VersionsErrorView {
    NoVersionsFound,
    InvalidWorkdir,
    InvalidEntry(Seq<char>),
    DuplicateEntry(Seq<char>),
    Io(Seq<char>),
}

/// Errors of version-file discovery and parsing.  The I/O variant carries
/// the message of the underlying error.
#[derive(Debug, Clone, PartialEq, Eq)]
pub enum VersionsError {
    NoVersionsFound,
    InvalidWorkdir,
    InvalidEntry(String),
    DuplicateEntry(String),
    Io(String),
}

impl View for VersionsError {
    type V = VersionsErrorView;

    open spec fn view(&self) -> VersionsErrorView {
        match self {
            VersionsError::NoVersionsFound => VersionsErrorView::NoVersionsFound,
            VersionsError::InvalidWorkdir => VersionsErrorView::InvalidWorkdir,
            VersionsError::InvalidEntry(s) => VersionsErrorView::InvalidEntry(s@),
            VersionsError::DuplicateEntry(s) => VersionsErrorView::DuplicateEntry(s@),
            VersionsError::Io(s) => VersionsErrorView::Io(s@),
        }
    }
}

impl VersionsError {
    /// A human-readable message, mirroring the user-visible error text.
    pub fn message(&self) -> (r: String) {
        match self {
            VersionsError::NoVersionsFound => {
                "no versions file could be found in the current or any parent directories".to_owned()
            },
            VersionsError::InvalidWorkdir => "the passed workdir was not a directory".to_owned(),
            VersionsError::InvalidEntry(s) => {
                let mut r = "`".to_owned();
                r.append(s.as_str());
                r.append("` is not a valid version entry");
                r
            },
            VersionsError::DuplicateEntry(s) => {
                let mut r = "version for `".to_owned();
                r.append(s.as_str());
                r.append("` appeared twice");
                r
            },
            VersionsError::Io(s) => {
                let mut r = "io error while looking for versions file: ".to_owned();
                r.append(s.as_str());
                r
            },
        }
    }
}

pub open spec fn vf_has_key(m: VersionFileView, k: Seq<char>) -> bool {
    exists|i: int| 0 <= i < m.len() && (#[trigger] m[i]).0 == k
}

/// The candidate list of the first entry named `k`.
pub open spec fn vf_lookup(m: VersionFileView, k: Seq<char>) -> Option<Seq<VersionView>>
    decreases m.len(),
{
    if m.len() == 0 {
        None
    } else if m[0].0 == k {
        Some(m[0].1)
    } else {
        vf_lookup(m.drop_first(), k)
    }
}

pub proof fn lemma_lookup_some(m: VersionFileView, k: Seq<char>, i: int)
    requires
        0 <= i < m.len(),
        m[i].0 == k,
        forall|j: int| 0 <= j < i ==> (#[trigger] m[j]).0 != k,
    ensures
        vf_lookup(m, k) == Some(m[i].1),
    decreases m.len(),
{
    if i > 0 {
        lemma_lookup_some(m.drop_first(), k, i - 1);
        assert(forall|j: int|
            0 <= j < i - 1 ==> (#[trigger] m.drop_first()[j]).0 == m[j + 1].0);
    }
}

pub proof fn lemma_lookup_none(m: VersionFileView, k: Seq<char>)
    requires
        forall|j: int| 0 <= j < m.len() ==> (#[trigger] m[j]).0 != k,
    ensures
        vf_lookup(m, k) is None,
    decreases m.len(),
{
    if m.len() > 0 {
        lemma_lookup_none(m.drop_first(), k);
    }
}

/// Cleaning one raw line: trim it, skip blank lines and comment lines, cut
/// a trailing comment, and trim again.  `None` means the line carries no
/// entry.
pub open spec fn spec_clean_line(line: Seq<char>) -> Option<Seq<char>> {
    let t = spec_trim(line);
    if t.len() == 0 {
        None
    } else if t[0] == '#' {
        None
    } else {
        let f = spec_find(t, '#');
        let before = if f < 0 {
            t
        } else {
            t.take(f)
        };
        Some(spec_trim(before))
    }
}

pub enum VFileError {
    InvalidEntry(Seq<char>),
    DuplicateEntry(Seq<char>),
}

/// The version-file grammar, one line at a time.  A cleaned line must hold
/// a name and at least one version token; a repeated name rejects the file.
pub open spec fn spec_parse_entries(lines: Seq<Seq<char>>, acc: VersionFileView) -> Result<
    VersionFileView,
    VFileError,
>
    decreases lines.len(),
{
    if lines.len() == 0 {
        Ok(acc)
    } else {
        match spec_clean_line(lines[0]) {
            None => spec_parse_entries(lines.drop_first(), acc),
            Some(entry) => {
                let toks = spec_split(entry, ' ');
                if toks.len() <= 1 {
                    Err(VFileError::InvalidEntry(entry))
                } else if vf_has_key(acc, toks[0]) {
                    Err(VFileError::DuplicateEntry(toks[0]))
                } else {
                    spec_parse_entries(
                        lines.drop_first(),
                        acc.push(
                            (
                                toks[0],
                                toks.drop_first().map_values(|t: Seq<char>| spec_parse_version(t)),
                            ),
                        ),
                    )
                }
            },
        }
    }
}

pub open spec fn spec_parse_file(t: Seq<char>) -> Result<VersionFileView, VFileError> {
    spec_parse_entries(spec_split(t, '\n'), Seq::empty())
}

/// One rendered line: the name and the version tokens, space-separated.
pub open spec fn spec_render_line(e: (Seq<char>, Seq<VersionView>)) -> Seq<char> {
    spec_join(seq![e.0] + e.1.map_values(|v: VersionView| spec_render_version(v)), ' ')
}

pub open spec fn spec_render_file(m: VersionFileView) -> Seq<char> {
    spec_join(m.map_values(|e: (Seq<char>, Seq<VersionView>)| spec_render_line(e)), '\n')
}

/// The model of an executable candidate list.
pub open spec fn vlist_view(vs: Seq<Version>) -> Seq<VersionView> {
    vs.map_values(|v: Version| v@)
}

pub open spec fn entries_view(entries: Seq<(String, Vec<Version>)>) -> VersionFileView {
    entries.map_values(
        |e: (String, Vec<Version>)| (e.0@, e.1@.map_values(|v: Version| v@)),
    )
}

/// An ordered mapping of plugin name to candidate versions, as declared in
/// a version file.
#[derive(Debug, Clone, PartialEq)]
pub struct Versions {
    pub entries: Vec<(String, Vec<Version>)>,
}

impl View for Versions {
    type V = VersionFileView;

    open spec fn view(&self) -> VersionFileView {
        entries_view(self.entries@)
    }
}

pub fn entries_has_key(entries: &Vec<(String, Vec<Version>)>, name: &str) -> (r: bool)
    ensures
        r == vf_has_key(entries_view(entries@), name@),
{
    let ghost m = entries_view(entries@);
    let mut i: usize = 0;
    while i < entries.len()
        invariant
            i <= entries.len(),
            m == entries_view(entries@),
            forall|j: int| 0 <= j < i ==> (#[trigger] m[j]).0 != name@,
        decreases entries.len() - i,
    {
        if str_eq(entries[i].0.as_str(), name) {
            assert(m[i as int].0 == name@);
            return true;
        }
        i = i + 1;
    }
    false
}

impl Versions {
    pub fn new() -> (r: Versions)
        ensures
            r@ == Seq::<(Seq<char>, Seq<VersionView>)>::empty(),
    {
        let r = Versions { entries: Vec::new() };
        proof {
            assert(r@ =~= Seq::<(Seq<char>, Seq<VersionView>)>::empty());
        }
        r
    }

    pub fn len(&self) -> (r: usize)
        ensures
            r == self@.len(),
    {
        self.entries.len()
    }

    pub fn contains_key(&self, name: &str) -> (r: bool)
        ensures
            r == vf_has_key(self@, name@),
    {
        entries_has_key(&self.entries, name)
    }

    /// The candidate list declared for `name`, if any.
    pub fn get(&self, name: &str) -> (r: Option<&Vec<Version>>)
        ensures
            match r {
                Some(v) => vf_lookup(self@, name@) == Some(
                    v@.map_values(|x: Version| x@),
                ),
                None => vf_lookup(self@, name@) is None,
            },
    {
        let ghost m = self@;
        let mut i: usize = 0;
        while i < self.entries.len()
            invariant
                i <= self.entries.len(),
                m == self@,
                forall|j: int| 0 <= j < i ==> (#[trigger] m[j]).0 != name@,
            decreases self.entries.len() - i,
        {
            if str_eq(self.entries[i].0.as_str(), name) {
                proof {
                    lemma_lookup_some(m, name@, i as int);
                }
                return Some(&self.entries[i].1);
            }
            i = i + 1;
        }
        proof {
            lemma_lookup_none(m, name@);
        }
        None
    }

    /// Parse the text of a version file.
    pub fn parse(content: &str) -> (r: Result<Versions, VersionsError>)
        ensures
            match spec_parse_file(content@) {
                Ok(m) => r matches Ok(v) && v@ == m,
                Err(VFileError::InvalidEntry(l)) => r matches Err(e) && e@
                    == VersionsErrorView::InvalidEntry(l),
                Err(VFileError::DuplicateEntry(k)) => r matches Err(e) && e@
                    == VersionsErrorView::DuplicateEntry(k),
            },
    {
        let cs = chars_of(content);
        let n = cs.len();
        let line_ws = split_windows(&cs, 0, n, '\n');
        let ghost lines = spec_split(content@, '\n');
        proof {
            assert(cs@.subrange(0, n as int) =~= content@);
        }
        let mut result = Versions { entries: Vec::new() };
        proof {
            assert(result@ =~= Seq::<(Seq<char>, Seq<VersionView>)>::empty());
            assert(lines.skip(0) =~= lines);
        }
        let mut li: usize = 0;
        while li < line_ws.len()
            invariant
                cs@ == content@,
                n == cs@.len(),
                lines == spec_split(content@, '\n'),
                windows_view(cs@, line_ws@) == lines,
                forall|k: int|
                    0 <= k < line_ws@.len() ==> 0 <= (#[trigger] line_ws@[k]).0
                        <= line_ws@[k].1 <= n,
                li <= line_ws.len(),
                spec_parse_file(content@) == spec_parse_entries(lines.skip(li as int), result@),
            decreases line_ws.len() - li,
        {
            let ghost acc0 = result@;
            let ghost rest0 = lines.skip(li as int);
            let (la, lb) = line_ws[li];
            let ghost line = cs@.subrange(la as int, lb as int);
            proof {
                assert(lines[li as int] == windows_view(cs@, line_ws@)[li as int]);
                assert(rest0[0] == lines[li as int]);
                assert(rest0.drop_first() =~= lines.skip(li + 1));
            }
            let (ta, tb) = trim_range(&cs, la, lb);
            let ghost t = spec_trim(line);
            let mut skip_line = false;
            if ta == tb {
                skip_line = true;
            } else if cs[ta] == '#' {
                proof {
                    assert(t[0] == cs@.subrange(ta as int, tb as int)[0]);
                }
                skip_line = true;
            }
            if skip_line {
                proof {
                    assert(spec_clean_line(line) is None);
                    assert(spec_parse_entries(rest0, acc0) == spec_parse_entries(
                        lines.skip(li + 1),
                        acc0,
                    ));
                }
                li = li + 1;
                continue ;
            }
            proof {
                assert(t == cs@.subrange(ta as int, tb as int));
                assert(t.len() > 0);
                assert(t[0] == cs@[ta as int]);
                assert(t[0] != '#');
            }
            let hb = match find_char(&cs, ta, tb, '#') {
                Some(h) => h,
                None => tb,
            };
            let ghost before = if spec_find(t, '#') < 0 {
                t
            } else {
                t.take(spec_find(t, '#'))
            };
            proof {
                assert(cs@.subrange(ta as int, hb as int) =~= before);
            }
            let (ea, eb) = trim_range(&cs, ta, hb);
            let ghost entry = spec_trim(before);
            proof {
                assert(cs@.subrange(ea as int, eb as int) == entry);
                assert(spec_clean_line(line) == Some(entry));
            }
            let tok_ws = split_windows(&cs, ea, eb, ' ');
            let ghost toks = spec_split(entry, ' ');
            if tok_ws.len() <= 1 {
                proof {
                    assert(spec_parse_entries(rest0, acc0) == Err::<
                        VersionFileView,
                        VFileError,
                    >(VFileError::InvalidEntry(entry)));
                }
                return Err(VersionsError::InvalidEntry(string_from_range(&cs, ea, eb)));
            }
            let (na, nb) = tok_ws[0];
            let name = string_from_range(&cs, na, nb);
            proof {
                assert(toks[0] == windows_view(cs@, tok_ws@)[0]);
                assert(name@ == toks[0]);
            }
            if entries_has_key(&result.entries, name.as_str()) {
                proof {
                    assert(spec_parse_entries(rest0, acc0) == Err::<
                        VersionFileView,
                        VFileError,
                    >(VFileError::DuplicateEntry(toks[0])));
                }
                return Err(VersionsError::DuplicateEntry(name));
            }
            let mut vlist: Vec<Version> = Vec::new();
            let ghost vtoks = toks.drop_first();
            let mut ti: usize = 1;
            while ti < tok_ws.len()
                invariant
                    1 <= ti <= tok_ws.len(),
                    cs@ == content@,
                    windows_view(cs@, tok_ws@) == toks,
                    forall|k: int|
                        0 <= k < tok_ws@.len() ==> 0 <= (#[trigger] tok_ws@[k]).0
                            <= tok_ws@[k].1 <= cs@.len(),
                    vtoks == toks.drop_first(),
                    vlist@.len() == ti - 1,
                    forall|k: int|
                        0 <= k < ti - 1 ==> (#[trigger] vlist@[k])@ == spec_parse_version(
                            vtoks[k],
                        ),
                decreases tok_ws.len() - ti,
            {
                let (va, vb) = tok_ws[ti];
                let tok = string_from_range(&cs, va, vb);
                proof {
                    assert(toks[ti as int] == windows_view(cs@, tok_ws@)[ti as int]);
                    assert(tok@ == vtoks[ti - 1]);
                }
                vlist.push(Version::parse(tok.as_str()));
                ti = ti + 1;
            }
            proof {
                assert(vlist@.map_values(|v: Version| v@) =~= vtoks.map_values(
                    |s: Seq<char>| spec_parse_version(s),
                ));
            }
            result.entries.push((name, vlist));
            proof {
                assert(result@ =~= acc0.push(
                    (toks[0], vtoks.map_values(|s: Seq<char>| spec_parse_version(s))),
                ));
                assert(spec_parse_entries(rest0, acc0) == spec_parse_entries(
                    lines.skip(li + 1),
                    result@,
                ));
            }
            li = li + 1;
        }
        proof {
            assert(lines.skip(line_ws@.len() as int) =~= Seq::<Seq<char>>::empty());
        }
        Ok(result)
    }

    /// Insert or overwrite the entry for `name`.  An existing entry keeps
    /// its position; a new one goes to the end.
    pub fn insert(&mut self, name: String, versions: Vec<Version>)
        ensures
            final(self)@ == spec_upsert(old(self)@, name@, vlist_view(versions@)),
    {
        let ghost m = self@;
        let ghost vs = vlist_view(versions@);
        let mut i: usize = 0;
        while i < self.entries.len()
            invariant
                m == self@,
                self@ == old(self)@,
                vs == vlist_view(versions@),
                i <= self.entries.len(),
                forall|j: int| 0 <= j < i ==> (#[trigger] m[j]).0 != name@,
            decreases self.entries.len() - i,
        {
            if str_eq(self.entries[i].0.as_str(), name.as_str()) {
                proof {
                    lemma_upsert_found(m, name@, vs, i as int);
                }
                self.entries.set(i, (name, versions));
                proof {
                    assert(self@ =~~= m.update(i as int, (name@, vs)));
                }
                return ;
            }
            i = i + 1;
        }
        proof {
            lemma_upsert_absent(m, name@, vs);
        }
        self.entries.push((name, versions));
        proof {
            assert(self@ =~~= m.push((name@, vs)));
        }
    }

    /// Render the mapping back into version-file text.
    pub fn render(&self) -> (r: String)
        ensures
            r@ == spec_render_file(self@),
    {
        let ghost m = self@;
        let ghost rlines = m.map_values(|e: (Seq<char>, Seq<VersionView>)| spec_render_line(e));
        let mut r = String::new();
        proof {
            assert(rlines.take(0) =~= Seq::<Seq<char>>::empty());
        }
        let mut i: usize = 0;
        while i < self.entries.len()
            invariant
                m == self@,
                rlines == m.map_values(|e: (Seq<char>, Seq<VersionView>)| spec_render_line(e)),
                i <= self.entries.len(),
                r@ == spec_join(rlines.take(i as int), '\n'),
            decreases self.entries.len() - i,
        {
            let ghost e = m[i as int];
            let ghost parts = seq![e.0] + e.1.map_values(|v: VersionView| spec_render_version(v));
            let mut line = self.entries[i].0.clone();
            proof {
                assert(parts.take(1) =~= seq![e.0]);
                assert(spec_join(parts.take(1), ' ') == e.0);
            }
            let nv = self.entries[i].1.len();
            let mut j: usize = 0;
            while j < nv
                invariant
                    m == self@,
                    e == m[i as int],
                    i < self.entries.len(),
                    nv == self.entries[i as int].1.len(),
                    nv == e.1.len(),
                    parts == seq![e.0] + e.1.map_values(
                        |v: VersionView| spec_render_version(v),
                    ),
                    j <= nv,
                    line@ == spec_join(parts.take(j + 1), ' '),
                decreases nv - j,
            {
                let tok = self.entries[i].1[j].raw();
                line.push(' ');
                line.append(tok.as_str());
                proof {
                    assert(parts[j + 1] == spec_render_version(e.1[j as int]));
                    assert(parts.take(j + 2) =~= parts.take(j + 1).push(parts[j + 1]));
                    lemma_join_push(parts.take(j + 1), parts[j + 1], ' ');
                }
                j = j + 1;
            }
            proof {
                assert(parts.take(nv + 1) =~= parts);
                assert(line@ == spec_render_line(e));
            }
            if i > 0 {
                r.push('\n');
            }
            r.append(line.as_str());
            proof {
                assert(rlines.take(i + 1) =~= rlines.take(i as int).push(rlines[i as int]));
                lemma_join_push(rlines.take(i as int), rlines[i as int], '\n');
                assert(rlines[i as int] == spec_render_line(e));
            }
            i = i + 1;
        }
        proof {
            assert(rlines.take(m.len() as int) =~= rlines);
        }
        r
    }
}

/// Replace the first entry named `k` in place, or append a new entry.
pub open spec fn spec_upsert(m: VersionFileView, k: Seq<char>, vs: Seq<VersionView>) -> VersionFileView
    decreases m.len(),
{
    if m.len() == 0 {
        seq![(k, vs)]
    } else if m[0].0 == k {
        seq![(k, vs)] + m.drop_first()
    } else {
        seq![m[0]] + spec_upsert(m.drop_first(), k, vs)
    }
}

pub proof fn lemma_upsert_found(m: VersionFileView, k: Seq<char>, vs: Seq<VersionView>, i: int)
    requires
        0 <= i < m.len(),
        m[i].0 == k,
        forall|j: int| 0 <= j < i ==> (#[trigger] m[j]).0 != k,
    ensures
        spec_upsert(m, k, vs) == m.update(i, (k, vs)),
    decreases m.len(),
{
    if i == 0 {
        assert(seq![(k, vs)] + m.drop_first() =~= m.update(0, (k, vs)));
    } else {
        assert(forall|j: int|
            0 <= j < i - 1 ==> (#[trigger] m.drop_first()[j]).0 == m[j + 1].0);
        lemma_upsert_found(m.drop_first(), k, vs, i - 1);
        assert(seq![m[0]] + m.drop_first().update(i - 1, (k, vs)) =~= m.update(i, (k, vs)));
    }
}

pub proof fn lemma_upsert_absent(m: VersionFileView, k: Seq<char>, vs: Seq<VersionView>)
    requires
        forall|j: int| 0 <= j < m.len() ==> (#[trigger] m[j]).0 != k,
    ensures
        spec_upsert(m, k, vs) == m.push((k, vs)),
    decreases m.len(),
{
    if m.len() == 0 {
        assert(seq![(k, vs)] =~= m.push((k, vs)));
    } else {
        lemma_upsert_absent(m.drop_first(), k, vs);
        assert(seq![m[0]] + m.drop_first().push((k, vs)) =~= m.push((k, vs)));
    }
}

/// Keys are pairwise distinct.
pub open spec fn keys_distinct(m: VersionFileView) -> bool {
    forall|i: int, j: int| 0 <= i < j < m.len() ==> (#[trigger] m[i]).0 != (#[trigger] m[j]).0
}

/// What holds of every entry a successful parse produces: the name and the
/// rendered tokens are free of separators and comment marks, the candidate
/// list is non-empty and canonical, and the rendered line needs no
/// trimming.
pub open spec fn entry_ok(e: (Seq<char>, Seq<VersionView>)) -> bool {
    let rtoks = e.1.map_values(|v: VersionView| spec_render_version(v));
    &&& e.1.len() >= 1
    &&& e.0.len() > 0
    &&& !is_ws(e.0[0])
    &&& no_char(e.0, ' ')
    &&& no_char(e.0, '\n')
    &&& no_char(e.0, '#')
    &&& (forall|k: int|
        0 <= k < rtoks.len() ==> no_char(#[trigger] rtoks[k], ' ') && no_char(rtoks[k], '\n')
            && no_char(rtoks[k], '#'))
    &&& rtoks.last().len() > 0
    &&& !is_ws(rtoks.last().last())
    &&& (forall|k: int| 0 <= k < e.1.len() ==> canonical_version(#[trigger] e.1[k]))
}

/// Parse results are canonical identifiers.
pub proof fn lemma_parse_canonical(t: Seq<char>)
    ensures
        canonical_version(spec_parse_version(t)),
{
}

/// What a cleaned line looks like: a witness that the cleaning is stable
/// and carries no comment mark, with first and last characters non-blank.
proof fn lemma_clean_line_props(line: Seq<char>, entry: Seq<char>)
    requires
        spec_clean_line(line) == Some(entry),
    ensures
        entry.len() > 0,
        !is_ws(entry[0]),
        !is_ws(entry.last()),
        no_char(entry, '#'),
        no_char(line, '\n') ==> no_char(entry, '\n'),
{
    let t = spec_trim(line);
    let f = spec_find(t, '#');
    let before = if f < 0 {
        t
    } else {
        t.take(f)
    };
    lemma_find(t, '#');
    // `before` has no '#' at all.
    assert(no_char(before, '#')) by {
        if f >= 0 {
            assert(forall|j: int| 0 <= j < f ==> t.take(f)[j] == t[j]);
        }
    }
    lemma_trim_no_char(before, '#');
    // The head of `t` is non-blank and not '#', and survives into `before`.
    assert(!is_ws(t[0])) by {
        lemma_trim_start_props(line);
        lemma_trim_end_props(spec_trim_start(line));
    }
    assert(f != 0);
    assert(before.len() > 0 && before[0] == t[0]);
    // Trimming `before` keeps the non-blank head, so the entry is nonempty.
    assert(spec_trim_start(before) == before) by {
        assert(!is_ws(before[0]));
    }
    assert(entry == spec_trim_end(before));
    lemma_trim_end_props(before);
    assert(entry.len() > 0) by {
        let k2 = choose|k2: int|
            0 <= k2 <= before.len() && spec_trim_end(before) == before.take(k2) && (forall|j: int|
                k2 <= j < before.len() ==> is_ws(before[j]));
        if k2 == 0 {
            assert(is_ws(before[0]));
        }
    }
    assert(entry[0] == before[0]);
    if no_char(line, '\n') {
        lemma_trim_no_char(line, '\n');
        assert(no_char(before, '\n')) by {
            if f >= 0 {
                assert(forall|j: int| 0 <= j < f ==> t.take(f)[j] == t[j]);
            }
        }
        lemma_trim_no_char(before, '\n');
    }
}

/// Everything a successful parse guarantees about its result: it extends
/// the accumulator, keys stay pairwise distinct, and every new entry is
/// well-formed in the sense of `entry_ok`.
proof fn lemma_parse_entries_props(lines: Seq<Seq<char>>, acc: VersionFileView)
    requires
        spec_parse_entries(lines, acc) is Ok,
        forall|k: int| 0 <= k < lines.len() ==> no_char(#[trigger] lines[k], '\n'),
        keys_distinct(acc),
    ensures
        ({
            let m = spec_parse_entries(lines, acc)->Ok_0;
            &&& m.len() >= acc.len()
            &&& m.take(acc.len() as int) == acc
            &&& keys_distinct(m)
            &&& (forall|i: int| acc.len() <= i < m.len() ==> entry_ok(#[trigger] m[i]))
        }),
    decreases lines.len(),
{
    let m = spec_parse_entries(lines, acc)->Ok_0;
    if lines.len() == 0 {
        assert(m.take(acc.len() as int) =~= acc);
    } else {
        let rest = lines.drop_first();
        assert(forall|k: int| 0 <= k < rest.len() ==> rest[k] == lines[k + 1]);
        match spec_clean_line(lines[0]) {
            None => {
                lemma_parse_entries_props(rest, acc);
            },
            Some(entry) => {
                let toks = spec_split(entry, ' ');
                let newe = (
                    toks[0],
                    toks.drop_first().map_values(|t: Seq<char>| spec_parse_version(t)),
                );
                let acc2 = acc.push(newe);
                // The new entry is well-formed.
                lemma_clean_line_props(lines[0], entry);
                lemma_split_parts_free(entry, ' ');
                lemma_split_parts_inherit(entry, ' ', '#');
                lemma_split_parts_inherit(entry, ' ', '\n');
                lemma_split_last(entry, ' ');
                assert(entry_ok(newe)) by {
                    let rtoks = newe.1.map_values(|v: VersionView| spec_render_version(v));
                    assert forall|k: int| 0 <= k < rtoks.len() implies (#[trigger] rtoks[k])
                        == toks[k + 1] by {
                        lemma_render_parse_token(toks.drop_first()[k]);
                        assert(toks.drop_first()[k] == toks[k + 1]);
                    }
                    // name: first split part starts at entry[0]
                    assert(newe.0.len() > 0 && newe.0[0] == entry[0]) by {
                        lemma_find(entry, ' ');
                        let i = spec_find(entry, ' ');
                        if i < 0 {
                            assert(toks[0] == entry);
                        } else {
                            assert(i != 0) by {
                                assert(!is_ws(entry[0]));
                            }
                            assert(toks[0] == entry.take(i));
                        }
                    }
                    assert(rtoks.last() == toks.last()) by {
                        assert(rtoks.len() == toks.len() - 1);
                    }
                    assert forall|k: int| 0 <= k < newe.1.len() implies canonical_version(
                        #[trigger] newe.1[k],
                    ) by {
                        lemma_parse_canonical(toks.drop_first()[k]);
                    }
                }
                // Distinctness extends to the pushed entry.
                assert(keys_distinct(acc2)) by {
                    assert(forall|j: int| 0 <= j < acc.len() ==> acc2[j] == acc[j]);
                    assert(!vf_has_key(acc, toks[0]));
                }
                lemma_parse_entries_props(rest, acc2);
                let m2 = spec_parse_entries(rest, acc2)->Ok_0;
                assert(m == m2);
                assert(m.take(acc.len() as int) =~= acc) by {
                    assert(m.take(acc2.len() as int) == acc2);
                    assert(forall|j: int|
                        0 <= j < acc.len() ==> m.take(acc2.len() as int)[j] == m[j]);
                }
                assert(forall|i: int| acc.len() <= i < m.len() ==> entry_ok(#[trigger] m[i])) by {
                    assert(m[acc.len() as int] == m.take(acc2.len() as int)[acc.len() as int]);
                }
            },
        }
    }
}

/// Re-parsing rendered lines reproduces the entries, entry by entry.
proof fn lemma_parse_of_render(m: VersionFileView, pre: VersionFileView)
    requires
        keys_distinct(pre + m),
        forall|i: int| 0 <= i < m.len() ==> entry_ok(#[trigger] m[i]),
    ensures
        spec_parse_entries(
            m.map_values(|e: (Seq<char>, Seq<VersionView>)| spec_render_line(e)),
            pre,
        ) == Ok::<VersionFileView, VFileError>(pre + m),
    decreases m.len(),
{
    let lines = m.map_values(|e: (Seq<char>, Seq<VersionView>)| spec_render_line(e));
    if m.len() == 0 {
        assert(lines.len() == 0);
        assert(pre + m =~= pre);
    } else {
        let e = m[0];
        let rtoks = e.1.map_values(|v: VersionView| spec_render_version(v));
        let parts = seq![e.0] + rtoks;
        let line = lines[0];
        assert(line == spec_render_line(e));
        assert(parts.len() >= 2);
        assert(parts[0] == e.0);
        assert(parts.last() == rtoks.last()) by {
            assert(parts.len() == rtoks.len() + 1);
        }
        lemma_join_first(parts, ' ');
        lemma_join_last(parts, ' ');
        // The rendered line needs no trimming and has no '#' or '\n'.
        assert(forall|k: int| 0 <= k < parts.len() ==> no_char(#[trigger] parts[k], ' '));
        assert(forall|k: int| 0 <= k < parts.len() ==> no_char(#[trigger] parts[k], '#'));
        assert(forall|k: int| 0 <= k < parts.len() ==> no_char(#[trigger] parts[k], '\n'));
        lemma_join_no_char(parts, ' ', '#');
        lemma_join_no_char(parts, ' ', '\n');
        lemma_trim_fixed(line);
        assert(spec_trim(line) == line);
        assert(line[0] == e.0[0]);
        assert(line[0] != '#');
        assert(spec_find(line, '#') == -1) by {
            crate::strutil::lemma_find_none(line, '#');
        }
        lemma_trim_fixed(line);
        assert(spec_clean_line(line) == Some(line));
        // Splitting the line gives the original tokens back.
        lemma_split_join(parts, ' ');
        assert(spec_split(line, ' ') == parts);
        let toks = spec_split(line, ' ');
        assert(toks.len() == rtoks.len() + 1);
        assert(toks.len() >= 2);
        assert(toks[0] == e.0);
        // No duplicate: the key differs from everything before it.
        assert(!vf_has_key(pre, e.0)) by {
            assert((pre + m)[pre.len() as int] == e);
            if vf_has_key(pre, e.0) {
                let i = choose|i: int| 0 <= i < pre.len() && (#[trigger] pre[i]).0 == e.0;
                assert((pre + m)[i] == pre[i]);
            }
        }
        // Parsed tokens are the original candidate list.
        assert(toks.drop_first().map_values(|t: Seq<char>| spec_parse_version(t)) =~= e.1) by {
            assert(forall|k: int| 0 <= k < rtoks.len() ==> toks.drop_first()[k] == rtoks[k]);
            assert forall|k: int| 0 <= k < e.1.len() implies spec_parse_version(rtoks[k])
                == e.1[k] by {
                lemma_parse_render_version(e.1[k]);
            }
        }
        let pre2 = pre.push(e);
        assert(pre2 =~= pre + m.take(1));
        assert(pre2 + m.drop_first() =~= pre + m);
        assert(forall|k: int|
            0 <= k < m.drop_first().len() ==> (#[trigger] m.drop_first()[k]) == m[k + 1]);
        lemma_parse_of_render(m.drop_first(), pre2);
        assert(lines.drop_first() =~= m.drop_first().map_values(
            |e2: (Seq<char>, Seq<VersionView>)| spec_render_line(e2),
        ));
        assert(spec_parse_entries(lines, pre) == spec_parse_entries(lines.drop_first(), pre2));
    }
}

/// Serialising a parsed version file and parsing it again yields the same
/// mapping: `parse(render(parse(t))) == parse(t)` for accepted inputs.
pub proof fn lemma_parse_render_file(t: Seq<char>, m: VersionFileView)
    requires
        spec_parse_file(t) == Ok::<VersionFileView, VFileError>(m),
    ensures
        spec_parse_file(spec_render_file(m)) == Ok::<VersionFileView, VFileError>(m),
{
    let lines = spec_split(t, '\n');
    lemma_split_parts_free(t, '\n');
    lemma_parse_entries_props(lines, Seq::empty());
    assert(forall|i: int| 0 <= i < m.len() ==> entry_ok(#[trigger] m[i]));
    assert(keys_distinct(m));
    let rlines = m.map_values(|e: (Seq<char>, Seq<VersionView>)| spec_render_line(e));
    if m.len() == 0 {
        assert(spec_render_file(m) == Seq::<char>::empty());
        let l0 = spec_split(Seq::<char>::empty(), '\n');
        assert(l0 == seq![Seq::<char>::empty()]);
        assert(l0[0] == Seq::<char>::empty());
        assert(spec_clean_line(Seq::<char>::empty()) is None);
        assert(l0.drop_first() =~= Seq::<Seq<char>>::empty());
        let acc0 = Seq::<(Seq<char>, Seq<VersionView>)>::empty();
        assert(spec_parse_entries(l0, acc0) == spec_parse_entries(l0.drop_first(), acc0));
        assert(spec_parse_entries(l0.drop_first(), acc0) == Ok::<VersionFileView, VFileError>(
            acc0,
        ));
        assert(m =~= acc0);
    } else {
        assert forall|k: int| 0 <= k < rlines.len() implies no_char(#[trigger] rlines[k], '\n') by {
            let e = m[k];
            let parts = seq![e.0] + e.1.map_values(|v: VersionView| spec_render_version(v));
            assert(forall|q: int| 0 <= q < parts.len() ==> no_char(#[trigger] parts[q], '\n'));
            lemma_join_no_char(parts, ' ', '\n');
        }
        lemma_split_join(rlines, '\n');
        assert(spec_split(spec_render_file(m), '\n') == rlines);
        assert(Seq::<(Seq<char>, Seq<VersionView>)>::empty() + m =~= m);
        lemma_parse_of_render(m, Seq::empty());
    }
}

} // verus!
