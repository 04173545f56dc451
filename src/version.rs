//! Version resolution from project manifests, and prerelease detection.
use vstd::prelude::*;
use crate::text::{
    clone_strings,
    chars_of, find_char, index_of, is_ws, skip_ws, slice_vec, string_of, trim_bounds, trim_start,
    trimmed, starts_with, occurs_at_exec, vec_eq_str, views, lowercase, lower_of,
};

verus! {

/// The resolved version of the project.
pub struct VersionInfo {
    pub version: String,
}

pub open spec fn is_digit(c: char) -> bool {
    '0' <= c && c <= '9'
}

/// Exactly three non-empty dot-separated components, each of ASCII digits only.
pub open spec fn is_numeric_triple(s: Seq<char>) -> bool {
    exists|i: int, j: int|
        0 < i && i + 1 < j && j + 1 < s.len() && s[i] == '.' && s[j] == '.' && forall|k: int|
            0 <= k < s.len() && k != i && k != j ==> is_digit(#[trigger] s[k])
}

/// Whether the version, trimmed and without build metadata (after the first
/// `+`), is a numeric triple followed by `-` and a non-empty prerelease tag.
pub open spec fn is_prerelease(version: Seq<char>) -> bool {
    let t = trimmed(version);
    let core = t.subrange(0, index_of(t, '+'));
    let d = index_of(core, '-');
    d + 1 < core.len() && is_numeric_triple(core.subrange(0, d))
}

proof fn lemma_index_of_bounds(s: Seq<char>, c: char)
    ensures
        0 <= index_of(s, c) <= s.len(),
    decreases s.len(),
{
    if s.len() > 0 && s[0] != c {
        lemma_index_of_bounds(s.drop_first(), c);
    }
}

fn numeric_triple(v: &Vec<char>, n: usize) -> (r: bool)
    requires
        n <= v@.len(),
    ensures
        r == is_numeric_triple(v@.subrange(0, n as int)),
{
    let ghost s = v@.subrange(0, n as int);
    let mut dots: usize = 0;
    let mut first: usize = 0;
    let mut second: usize = 0;
    let mut k: usize = 0;
    while k < n
        invariant
            k <= n <= v@.len(),
            s == v@.subrange(0, n as int),
            dots <= 2,
            dots >= 1 ==> first < k && s[first as int] == '.',
            dots >= 2 ==> first < second < k && s[second as int] == '.',
            forall|m: int|
                0 <= m < k && s[m] == '.' ==> (dots >= 1 && m == first) || (dots >= 2 && m
                    == second),
            forall|m: int| 0 <= m < k && s[m] != '.' ==> is_digit(#[trigger] s[m]),
        decreases n - k,
    {
        let c = v[k];
        assert(s[k as int] == c);
        if c == '.' {
            if dots == 0 {
                first = k;
            } else if dots == 1 {
                second = k;
            } else {
                proof {
                    if is_numeric_triple(s) {
                        let (i, j) = choose|i: int, j: int|
                            0 < i && i + 1 < j && j + 1 < s.len() && s[i] == '.' && s[j] == '.'
                                && forall|k: int|
                                0 <= k < s.len() && k != i && k != j ==> is_digit(#[trigger] s[k]);
                        assert(first == i || first == j) by {
                            if first != i && first != j {
                                assert(is_digit(s[first as int]));
                            }
                        }
                        assert(second == i || second == j) by {
                            if second != i && second != j {
                                assert(is_digit(s[second as int]));
                            }
                        }
                        assert(k == i || k == j) by {
                            if k != i && k != j {
                                assert(is_digit(s[k as int]));
                            }
                        }
                    }
                }
                return false;
            }
            dots += 1;
        } else if !('0' <= c && c <= '9') {
            proof {
                if is_numeric_triple(s) {
                    let (i, j) = choose|i: int, j: int|
                        0 < i && i + 1 < j && j + 1 < s.len() && s[i] == '.' && s[j] == '.'
                            && forall|k: int|
                            0 <= k < s.len() && k != i && k != j ==> is_digit(#[trigger] s[k]);
                    if k != i && k != j {
                        assert(is_digit(s[k as int]));
                    }
                }
            }
            return false;
        }
        k += 1;
    }
    let r = dots == 2 && 0 < first && first + 1 < second && second + 1 < n;
    proof {
        if r {
            assert forall|m: int| 0 <= m < s.len() && m != first && m != second implies is_digit(
                #[trigger] s[m],
            ) by {
                if s[m] == '.' {
                }
            }
        } else if is_numeric_triple(s) {
            let (i, j) = choose|i: int, j: int|
                0 < i && i + 1 < j && j + 1 < s.len() && s[i] == '.' && s[j] == '.' && forall|
                    k: int,
                | 0 <= k < s.len() && k != i && k != j ==> is_digit(#[trigger] s[k]);
            assert(dots >= 1 && i == first);
            assert(dots >= 2 && j == second);
        }
    }
    r
}

/// Whether the version is a prerelease: a numeric `major.minor.patch` triple,
/// then `-` and a non-empty tag, build metadata after `+` ignored. Never fails.
pub fn is_prerelease_version(version: &str) -> (r: bool)
    ensures
        r == is_prerelease(version@),
{
    let v = chars_of(version);
    let (a, b) = trim_bounds(&v, 0, v.len());
    assert(v@.subrange(0, v@.len() as int) =~= v@);
    let t = slice_vec(&v, a, b);
    let plus = find_char(&t, 0, '+');
    assert(t@.subrange(0, t@.len() as int) =~= t@);
    let core = slice_vec(&t, 0, plus);
    let dash = find_char(&core, 0, '-');
    assert(core@.subrange(0, core@.len() as int) =~= core@);
    if dash >= core.len() || dash + 1 >= core.len() {
        return false;
    }
    assert(core@.subrange(0, dash as int) == v@.subrange(a as int, b as int).subrange(0, plus as int).subrange(0, dash as int));
    numeric_triple(&core, dash)
}


/// Where a trimmed line sets `version = "..."` (or with `'`), the quoted text.
pub open spec fn quoted_version(t: Seq<char>) -> Option<Seq<char>> {
    let kw = "version"@;
    if !starts_with(t, kw) {
        None
    } else {
        let rest = trim_start(t.subrange(kw.len() as int, t.len() as int));
        if rest.len() == 0 || rest[0] != '=' {
            None
        } else {
            let value = trim_start(rest.subrange(1, rest.len() as int));
            if value.len() == 0 || !(value[0] == '"' || value[0] == '\'') {
                None
            } else {
                let rem = value.subrange(1, value.len() as int);
                let e = index_of(rem, value[0]);
                if e < rem.len() {
                    Some(rem.subrange(0, e))
                } else {
                    None
                }
            }
        }
    }
}

/// The state of a manifest scan: inside `[package]`, inside
/// `[workspace.package]`, and the versions found in each.
pub type ScanState = (bool, bool, Option<Seq<char>>, Option<Seq<char>>);

/// One manifest line: blank lines and comments are skipped, a section header
/// sets the current section, and a version assignment inside one of the two
/// sections records its value for that section.
pub open spec fn cargo_step(st: ScanState, line: Seq<char>) -> ScanState {
    let t = trimmed(line);
    if t.len() == 0 || t[0] == '#' {
        st
    } else if t[0] == '[' && t.last() == ']' {
        (t == "[package]"@, t == "[workspace.package]"@, st.2, st.3)
    } else if !st.0 && !st.1 {
        st
    } else {
        match quoted_version(t) {
            None => st,
            Some(v) => if st.0 {
                (st.0, st.1, Some(v), st.3)
            } else {
                (st.0, st.1, st.2, Some(v))
            },
        }
    }
}

/// The scan of the lines of `s`, one per line break, from state `st`.
pub open spec fn cargo_scan(st: ScanState, s: Seq<char>) -> ScanState
    decreases s.len(),
{
    let e = index_of(s, '\n');
    let st2 = cargo_step(st, s.subrange(0, e));
    if 0 <= e < s.len() {
        cargo_scan(st2, s.subrange(e + 1, s.len() as int))
    } else {
        st2
    }
}

/// The version a Cargo-style manifest declares: the `[package]` one where
/// present, else the `[workspace.package]` one.
pub open spec fn cargo_version(content: Seq<char>) -> Option<Seq<char>> {
    let st = cargo_scan((false, false, None, None), content);
    match st.2 {
        Some(v) => Some(v),
        None => st.3,
    }
}

pub open spec fn opt_view(o: Option<String>) -> Option<Seq<char>> {
    match o {
        Some(s) => Some(s@),
        None => None,
    }
}

struct CargoScan {
    in_package: bool,
    in_workspace: bool,
    package: Option<String>,
    workspace: Option<String>,
}

impl CargoScan {
    spec fn state(&self) -> ScanState {
        (self.in_package, self.in_workspace, opt_view(self.package), opt_view(self.workspace))
    }
}

fn quoted_version_exec(t: &Vec<char>) -> (r: Option<String>)
    ensures
        opt_view(r) == quoted_version(t@),
{
    proof {
        reveal_strlit("version");
    }
    let kw = chars_of("version");
    if !occurs_at_exec(t, &kw, 0) {
        return None;
    }
    let n = t.len();
    let r1 = skip_ws(t, 7);
    if r1 >= n || t[r1] != '=' {
        return None;
    }
    let r2 = skip_ws(t, r1 + 1);
    proof {
        let rest = t@.subrange(r1 as int, n as int);
        assert(rest.subrange(1, rest.len() as int) =~= t@.subrange(r1 + 1, n as int));
    }
    if r2 >= n {
        return None;
    }
    let q = t[r2];
    if q != '"' && q != '\'' {
        return None;
    }
    let e = find_char(t, r2 + 1, q);
    proof {
        let value = t@.subrange(r2 as int, n as int);
        assert(value.subrange(1, value.len() as int) =~= t@.subrange(r2 + 1, n as int));
    }
    if e >= n {
        return None;
    }
    let v = string_of(t, r2 + 1, e);
    assert(t@.subrange(r2 + 1, n as int).subrange(0, e - (r2 + 1)) =~= t@.subrange(r2 + 1, e as int));
    Some(v)
}

fn cargo_step_exec(st: &mut CargoScan, line: &Vec<char>)
    ensures
        final(st).state() == cargo_step(old(st).state(), line@),
{
    let (a, b) = trim_bounds(line, 0, line.len());
    assert(line@.subrange(0, line@.len() as int) =~= line@);
    let t = slice_vec(line, a, b);
    if t.len() == 0 || t[0] == '#' {
        return;
    }
    if t[0] == '[' && t[t.len() - 1] == ']' {
        st.in_package = vec_eq_str(&t, "[package]");
        st.in_workspace = vec_eq_str(&t, "[workspace.package]");
        return;
    }
    if !st.in_package && !st.in_workspace {
        return;
    }
    match quoted_version_exec(&t) {
        None => {},
        Some(v) => {
            if st.in_package {
                st.package = Some(v);
            } else {
                st.workspace = Some(v);
            }
        },
    }
}

/// The version a Cargo-style manifest declares, the `[package]` one taking
/// precedence over the `[workspace.package]` one.
pub fn parse_cargo_version(content: &str) -> (r: Option<String>)
    ensures
        opt_view(r) == cargo_version(content@),
{
    let v = chars_of(content);
    let ghost target = cargo_scan((false, false, None, None), v@);
    let mut st = CargoScan { in_package: false, in_workspace: false, package: None, workspace: None };
    let mut pos: usize = 0;
    let mut done = false;
    assert(v@.subrange(0, v@.len() as int) =~= v@);
    while !done
        invariant
            pos <= v@.len(),
            v@ == content@,
            !done ==> cargo_scan(st.state(), v@.subrange(pos as int, v@.len() as int)) == target,
            done ==> st.state() == target,
        decreases v@.len() - pos + if done { 0int } else { 1int },
    {
        let e = find_char(&v, pos, '\n');
        let line = slice_vec(&v, pos, e);
        proof {
            let s = v@.subrange(pos as int, v@.len() as int);
            lemma_index_of_bounds(s, '\n');
            assert(s.subrange(0, e - pos) =~= line@);
            if e < v.len() {
                assert(s.subrange(e - pos + 1, s.len() as int) =~= v@.subrange(e + 1, v@.len() as int));
            }
        }
        cargo_step_exec(&mut st, &line);
        if e >= v.len() {
            done = true;
        } else {
            pos = e + 1;
        }
    }
    match st.package {
        Some(p) => Some(p),
        None => st.workspace,
    }
}


/// Declares `serde_json::Error`, a parse failure, as an opaque type.
#[verifier::external_type_specification]
#[verifier::external_body]
pub struct ExJsonError(serde_json::Error);

/// Whether `serde_json::from_str` accepts the text as a JSON document.
pub uninterp spec fn json_parses(text: Seq<char>) -> bool;

/// The string value of the top-level member `key` of the JSON document
/// `text`: `None` where the document is no object, lacks the member, or the
/// member is no string.
pub uninterp spec fn json_top_string(text: Seq<char>, key: Seq<char>) -> Option<Seq<char>>;

/// Relies on `serde_json::from_str` to parse the document and on
/// `serde_json::Value::get` and `serde_json::Value::as_str` to read a
/// top-level string member; both depend on the texts alone.
#[verifier::external_body]
fn json_string_member(text: &str, key: &str) -> (r: Result<Option<String>, serde_json::Error>)
    ensures
        r is Ok <==> json_parses(text@),
        r matches Ok(o) ==> opt_view(o) == json_top_string(text@, key@),
{
    let value: serde_json::Value = serde_json::from_str(text)?;
    Ok(value.get(key).and_then(|member| member.as_str()).map(|v| v.to_string()))
}

/// A project archetype: the manifest convention a version is read from.
pub enum Archetype {
    /// `Cargo.toml`, a TOML-like manifest.
    Rust,
    /// `package.json`, a JSON manifest.
    Node,
}

/// The archetype a name stands for.
pub open spec fn archetype_named(name: Seq<char>) -> Option<Archetype> {
    if name == "rust"@ {
        Some(Archetype::Rust)
    } else if name == "node"@ {
        Some(Archetype::Node)
    } else {
        None
    }
}

impl Archetype {
    /// The archetype a name stands for, if any.
    pub fn from_name(name: &str) -> (r: Option<Archetype>)
        ensures
            r == archetype_named(name@),
    {
        if crate::text::text_eq(name, "rust") {
            Some(Archetype::Rust)
        } else if crate::text::text_eq(name, "node") {
            Some(Archetype::Node)
        } else {
            None
        }
    }

    /// The file name of the archetype's manifest.
    pub fn manifest_file(&self) -> (r: &'static str)
        ensures
            r@ == manifest_file_name(*self),
    {
        match self {
            Archetype::Rust => "Cargo.toml",
            Archetype::Node => "package.json",
        }
    }
}

pub open spec fn manifest_file_name(a: Archetype) -> Seq<char> {
    match a {
        Archetype::Rust => "Cargo.toml"@,
        Archetype::Node => "package.json"@,
    }
}

/// The contents of the project's manifests; `None` where the file is absent.
pub struct Manifests {
    pub cargo_toml: Option<String>,
    pub package_json: Option<String>,
}

impl Manifests {
    pub open spec fn of(self, a: Archetype) -> Option<String> {
        match a {
            Archetype::Rust => self.cargo_toml,
            Archetype::Node => self.package_json,
        }
    }

    /// The contents of the archetype's manifest, if the file exists.
    pub fn get(&self, a: &Archetype) -> (r: Option<&String>)
        ensures
            r == match self.of(*a) {
                Some(s) => Some(&s),
                None => None,
            },
    {
        match a {
            Archetype::Rust => self.cargo_toml.as_ref(),
            Archetype::Node => self.package_json.as_ref(),
        }
    }
}

/// Why no version could be resolved.
pub enum VersionError {
    /// Names that are no known archetype, all of them, in the given order.
    UnknownArchetypes(Vec<String>),
    /// `Cargo.toml` exists but declares no version in either section.
    NoCargoVersion,
    /// `package.json` is not valid JSON.
    InvalidPackageJson,
    /// `package.json` has no top-level string `version`.
    NoNodeVersion,
    /// None of the attempted archetypes' manifests exists; the names tried.
    NoManifest(Vec<String>),
}

/// The names among `langs` that are no known archetype, in order.
pub open spec fn unknown_names(langs: Seq<String>) -> Seq<Seq<char>>
    decreases langs.len(),
{
    if langs.len() == 0 {
        Seq::empty()
    } else {
        let d = unknown_names(langs.drop_last());
        if archetype_named(langs.last()@) is None {
            d.push(langs.last()@)
        } else {
            d
        }
    }
}

/// Whether the manifest of the archetype named `name` exists.
pub open spec fn present(m: Manifests, name: Seq<char>) -> bool {
    match archetype_named(name) {
        Some(a) => m.of(a) is Some,
        None => false,
    }
}

/// The position of the first name in `langs` whose manifest exists, or the
/// number of names.
pub open spec fn first_present(m: Manifests, langs: Seq<String>) -> int
    decreases langs.len(),
{
    if langs.len() == 0 || present(m, langs[0]@) {
        0
    } else {
        1 + first_present(m, langs.drop_first())
    }
}

/// The version that `Cargo.toml` yields, or its error.
pub open spec fn cargo_outcome(content: Seq<char>) -> Result<Seq<char>, ()> {
    match cargo_version(content) {
        Some(v) => Ok(v),
        None => Err(()),
    }
}

/// What a `package.json` yields: its top-level string `version`; an error
/// where it is no JSON document, or has no such member.
pub open spec fn node_outcome(r: Result<String, VersionError>, content: Seq<char>) -> bool {
    if !json_parses(content) {
        r matches Err(VersionError::InvalidPackageJson)
    } else {
        match json_top_string(content, "version"@) {
            Some(v) => r matches Ok(s) && s@ == v,
            None => r matches Err(VersionError::NoNodeVersion),
        }
    }
}

/// The version `package.json` declares at its top level, or why it declares none.
pub fn parse_node_version(content: &str) -> (r: Result<String, VersionError>)
    ensures
        node_outcome(r, content@),
{
    match json_string_member(content, "version") {
        Err(_) => Err(VersionError::InvalidPackageJson),
        Ok(Some(version)) => Ok(version),
        Ok(None) => Err(VersionError::NoNodeVersion),
    }
}

proof fn lemma_first_present(m: Manifests, langs: Seq<String>, i: int)
    requires
        0 <= i <= langs.len(),
        forall|k: int| 0 <= k < i ==> !present(m, #[trigger] langs[k]@),
        i < langs.len() ==> present(m, langs[i]@),
    ensures
        first_present(m, langs) == i,
    decreases langs.len(),
{
    if langs.len() > 0 && !present(m, langs[0]@) {
        assert forall|k: int| 0 <= k < i - 1 implies !present(m, #[trigger] langs.drop_first()[k]@) by {
            assert(langs.drop_first()[k] == langs[k + 1]);
        }
        lemma_first_present(m, langs.drop_first(), i - 1);
    }
}

/// Resolves the version from the first archetype, in the given order, whose
/// manifest exists. Every name must be a known archetype.
pub fn resolve_version(manifests: &Manifests, languages: &[String]) -> (r: Result<
    VersionInfo,
    VersionError,
>)
    ensures
        ({
            let langs = languages@;
            let unknown = unknown_names(langs);
            let k = first_present(*manifests, langs);
            if unknown.len() > 0 {
                r matches Err(VersionError::UnknownArchetypes(names)) && views(names@) == unknown
            } else if k >= langs.len() {
                r matches Err(VersionError::NoManifest(names)) && names@ == langs
            } else if archetype_named(langs[k]@) == Some(Archetype::Rust) {
                match cargo_version(manifests.cargo_toml->Some_0@) {
                    Some(v) => r matches Ok(info) && info.version@ == v,
                    None => r matches Err(VersionError::NoCargoVersion),
                }
            } else {
                node_outcome(
                    match r {
                        Ok(info) => Ok(info.version),
                        Err(e) => Err(e),
                    },
                    manifests.package_json->Some_0@,
                )
            }
        }),
{
    let ghost langs = languages@;
    let mut unknown: Vec<String> = Vec::new();
    let mut i: usize = 0;
    while i < languages.len()
        invariant
            i <= langs.len(),
            langs == languages@,
            views(unknown@) == unknown_names(langs.subrange(0, i as int)),
        decreases langs.len() - i,
    {
        proof {
            assert(langs.subrange(0, i + 1).drop_last() =~= langs.subrange(0, i as int));
        }
        if Archetype::from_name(languages[i].as_str()).is_none() {
            let ghost old_u = unknown@;
            unknown.push(languages[i].clone());
            assert(views(unknown@) =~= views(old_u).push(languages@[i as int]@));
        }
        i += 1;
    }
    assert(langs.subrange(0, langs.len() as int) =~= langs);
    if unknown.len() > 0 {
        return Err(VersionError::UnknownArchetypes(unknown));
    }
    let mut i: usize = 0;
    while i < languages.len()
        invariant
            i <= langs.len(),
            langs == languages@,
            unknown_names(langs).len() == 0,
            forall|k: int| 0 <= k < i ==> !present(*manifests, #[trigger] langs[k]@),
        decreases langs.len() - i,
    {
        let archetype = match Archetype::from_name(languages[i].as_str()) {
            Some(a) => a,
            None => {
                proof {
                    lemma_unknown_names(langs, i as int);
                }
                return Err(VersionError::UnknownArchetypes(Vec::new()));
            },
        };
        match manifests.get(&archetype) {
            Some(content) => {
                proof {
                    lemma_first_present(*manifests, langs, i as int);
                }
                return match archetype {
                    Archetype::Rust => match parse_cargo_version(content.as_str()) {
                        Some(version) => Ok(VersionInfo { version }),
                        None => Err(VersionError::NoCargoVersion),
                    },
                    Archetype::Node => match parse_node_version(content.as_str()) {
                        Ok(version) => Ok(VersionInfo { version }),
                        Err(e) => Err(e),
                    },
                };
            },
            None => {},
        }
        i += 1;
    }
    proof {
        lemma_first_present(*manifests, langs, langs.len() as int);
    }
    Err(VersionError::NoManifest(clone_strings(languages)))
}

proof fn lemma_unknown_names(langs: Seq<String>, i: int)
    requires
        0 <= i < langs.len(),
        archetype_named(langs[i]@) is None,
    ensures
        unknown_names(langs).len() > 0,
    decreases langs.len(),
{
    if i < langs.len() - 1 {
        lemma_unknown_names(langs.drop_last(), i);
        lemma_unknown_names_grow(langs);
    }
}

proof fn lemma_unknown_names_grow(langs: Seq<String>)
    requires
        langs.len() > 0,
    ensures
        unknown_names(langs).len() >= unknown_names(langs.drop_last()).len(),
{
}


/// A separator in a list of archetype names: whitespace, `,` or `+`.
pub open spec fn is_separator(c: char) -> bool {
    is_ws(c) || c == ',' || c == '+'
}

/// The position of the first separator in `s`, or its length.
pub open spec fn separator_index(s: Seq<char>) -> int
    decreases s.len(),
{
    if s.len() == 0 || is_separator(s[0]) {
        0
    } else {
        1 + separator_index(s.drop_first())
    }
}

/// The names in `s`: the pieces between separators, lower-cased, empty ones
/// left out.
pub open spec fn language_list(s: Seq<char>) -> Seq<Seq<char>>
    decreases s.len(),
{
    let e = separator_index(s);
    let name = lower_of(s.subrange(0, e));
    let head = if name.len() > 0 {
        seq![name]
    } else {
        Seq::empty()
    };
    if 0 <= e < s.len() {
        head + language_list(s.subrange(e + 1, s.len() as int))
    } else {
        head
    }
}

proof fn lemma_separator_index(s: Seq<char>, j: int)
    requires
        0 <= j <= s.len(),
        forall|k: int| 0 <= k < j ==> !is_separator(#[trigger] s[k]),
        j < s.len() ==> is_separator(s[j]),
    ensures
        separator_index(s) == j,
    decreases s.len(),
{
    if s.len() > 0 && !is_separator(s[0]) {
        assert forall|k: int| 0 <= k < j - 1 implies !is_separator(#[trigger] s.drop_first()[k]) by {
            assert(s.drop_first()[k] == s[k + 1]);
        }
        lemma_separator_index(s.drop_first(), j - 1);
    }
}

/// The archetype names in a list separated by whitespace, `,` or `+`,
/// lower-cased, empty names left out.
pub fn parse_languages(input: &str) -> (r: Vec<String>)
    ensures
        views(r@) == language_list(input@),
{
    let v = chars_of(input);
    let n = v.len();
    let mut out: Vec<String> = Vec::new();
    let mut pos: usize = 0;
    let mut done = false;
    assert(v@.subrange(0, n as int) =~= v@);
    assert(views(out@) + language_list(v@) =~= language_list(v@));
    while !done
        invariant
            pos <= n,
            n == v@.len(),
            v@ == input@,
            !done ==> views(out@) + language_list(v@.subrange(pos as int, n as int)) == language_list(v@),
            done ==> views(out@) == language_list(v@),
        decreases n - pos + if done { 0int } else { 1int },
    {
        let mut e = pos;
        while e < n && !(crate::text::char_is_ws(v[e]) || v[e] == ',' || v[e] == '+')
            invariant
                pos <= e <= n,
                n == v@.len(),
                forall|k: int| pos <= k < e ==> !is_separator(#[trigger] v@[k]),
            decreases n - e,
        {
            e += 1;
        }
        let ghost s = v@.subrange(pos as int, n as int);
        proof {
            assert forall|k: int| 0 <= k < e - pos implies !is_separator(#[trigger] s[k]) by {
                assert(s[k] == v@[pos + k]);
            }
            lemma_separator_index(s, e - pos);
            assert(s.subrange(0, e - pos) =~= v@.subrange(pos as int, e as int));
            if e < n {
                assert(s.subrange(e - pos + 1, s.len() as int) =~= v@.subrange(e + 1, n as int));
            }
        }
        let piece = string_of(&v, pos, e);
        let name = lowercase(piece.as_str());
        let ghost before = views(out@);
        if name.as_str().unicode_len() > 0 {
            out.push(name);
            assert(views(out@) =~= before + seq![name@]);
        } else {
            assert(before + Seq::<Seq<char>>::empty() =~= before);
        }
        if e >= n {
            done = true;
        } else {
            pos = e + 1;
        }
        proof {
            let head = if name@.len() > 0 {
                seq![name@]
            } else {
                Seq::<Seq<char>>::empty()
            };
            assert(views(out@) == before + head);
            if e < n {
                assert(before + language_list(s) =~= views(out@) + language_list(v@.subrange(pos as int, n as int)));
            } else {
                assert(language_list(s) == head);
            }
        }
    }
    out
}

} // verus!
