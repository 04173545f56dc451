//! The run's inputs: how they are read from the environment's values, and
//! how the tag, the release name and the scope label are formed from them.
use vstd::prelude::*;
use crate::config::ReleaseConfig;
use crate::text::{
    chars_of, push_text, replace_all, replace_text, starts_with, string_of, trim, trimmed,
    occurs_at_exec, index_of, find_char, slice_vec, vec_eq_str,
};

verus! {

/// What `str::to_uppercase` returns for a text: full Unicode upper-case mapping.
pub uninterp spec fn upper_of(s: Seq<char>) -> Seq<char>;

/// Relies on `str::to_uppercase`: the result depends on the characters alone.
#[verifier::external_body]
fn uppercase(s: &str) -> (r: String)
    ensures
        r@ == upper_of(s@),
{
    s.to_uppercase()
}

/// Why the run's inputs cannot be used.
pub enum InputError {
    /// No language archetype was given, nor configured.
    MissingLanguage,
    /// The repository is not written `owner/repo`.
    InvalidRepository,
    /// No branch can be told from the environment's values.
    UnknownBranch,
    /// The directory is an absolute path.
    AbsoluteDirectory,
}

/// The environment variable that holds the input `name`: `INPUT_`, then the
/// name with spaces made `_`, upper-cased.
pub open spec fn input_key_of(name: Seq<char>) -> Seq<char> {
    "INPUT_"@ + upper_of(replace_all(name, " "@, "_"@))
}

/// The environment variable that holds the input `name`.
pub fn input_key(name: &str) -> (r: String)
    ensures
        r@ == input_key_of(name@),
{
    proof {
        reveal_strlit(" ");
    }
    let spaced = replace_text(name, " ", "_");
    let upper = uppercase(spaced.as_str());
    let mut r = String::new();
    push_text(&mut r, "INPUT_");
    push_text(&mut r, upper.as_str());
    r
}

/// The language list to use: the input, trimmed, where it is not blank,
/// else the configured language, trimmed, where that is not blank.
pub fn resolve_language(input: &str, config: Option<&ReleaseConfig>) -> (r: Result<String, InputError>)
    ensures
        trimmed(input@).len() > 0 ==> (r matches Ok(s) && s@ == trimmed(input@)),
        trimmed(input@).len() == 0 ==> match config {
            Some(c) => match c.language {
                Some(l) => if trimmed(l@).len() > 0 {
                    r matches Ok(s) && s@ == trimmed(l@)
                } else {
                    r matches Err(InputError::MissingLanguage)
                },
                None => r matches Err(InputError::MissingLanguage),
            },
            None => r matches Err(InputError::MissingLanguage),
        },
{
    let t = trim(input);
    if t.as_str().unicode_len() > 0 {
        return Ok(t);
    }
    match config {
        Some(c) => match &c.language {
            Some(l) => {
                let lt = trim(l.as_str());
                if lt.as_str().unicode_len() > 0 {
                    Ok(lt)
                } else {
                    Err(InputError::MissingLanguage)
                }
            },
            None => Err(InputError::MissingLanguage),
        },
        None => Err(InputError::MissingLanguage),
    }
}

pub open spec fn dir_text(directory: Option<&str>) -> Seq<char> {
    match directory {
        Some(d) => d@,
        None => Seq::empty(),
    }
}

/// A tag or name template with `$VERSION` and `$DIRECTORY` substituted.
pub open spec fn applied_template(template: Seq<char>, version: Seq<char>, directory: Seq<char>) -> Seq<char> {
    replace_all(replace_all(template, "$VERSION"@, version), "$DIRECTORY"@, directory)
}

/// The template with `$VERSION` and `$DIRECTORY` (empty where there is no
/// directory) substituted.
pub fn apply_template(template: &str, version: &str, directory: Option<&str>) -> (r: String)
    ensures
        r@ == applied_template(template@, version@, dir_text(directory)),
{
    proof {
        reveal_strlit("$VERSION");
        reveal_strlit("$DIRECTORY");
        reveal_strlit("");
    }
    let rendered = replace_text(template, "$VERSION", version);
    match directory {
        Some(d) => replace_text(rendered.as_str(), "$DIRECTORY", d),
        None => {
            assert(""@ =~= Seq::<char>::empty());
            replace_text(rendered.as_str(), "$DIRECTORY", "")
        },
    }
}

/// The tag: the configured tag template applied, else the trimmed prefix
/// followed by the version.
pub fn resolve_tag_name(
    version: &str,
    tag_prefix: &str,
    directory: Option<&str>,
    config: Option<&ReleaseConfig>,
) -> (r: String)
    ensures
        r@ == match config {
            Some(c) => match c.tag_template {
                Some(t) => applied_template(t@, version@, dir_text(directory)),
                None => trimmed(tag_prefix@) + version@,
            },
            None => trimmed(tag_prefix@) + version@,
        },
{
    if let Some(c) = config {
        if let Some(t) = &c.tag_template {
            return apply_template(t.as_str(), version, directory);
        }
    }
    let mut r = trim(tag_prefix);
    push_text(&mut r, version);
    r
}

/// Whether a directory is given that is not blank.
pub open spec fn has_directory(directory: Option<&str>) -> bool {
    match directory {
        Some(d) => trimmed(d@).len() > 0,
        None => false,
    }
}

/// The scope of the run: `branch/directory` where a directory is given,
/// else the branch.
pub open spec fn scope_label(branch: Seq<char>, directory: Option<&str>) -> Seq<char> {
    if has_directory(directory) {
        branch + "/"@ + dir_text(directory)
    } else {
        branch
    }
}

/// The scope of the run, for messages and release names.
pub fn format_scope_label(branch: &str, directory: Option<&str>) -> (r: String)
    ensures
        r@ == scope_label(branch@, directory),
{
    let mut r = String::new();
    push_text(&mut r, branch);
    if let Some(d) = directory {
        if trim(d).as_str().unicode_len() > 0 {
            push_text(&mut r, "/");
            push_text(&mut r, d);
        }
    }
    r
}

/// The release name: the configured name template applied, else the tag
/// followed by the scope in parentheses.
pub fn resolve_release_name(
    version: &str,
    tag_name: &str,
    branch: &str,
    directory: Option<&str>,
    config: Option<&ReleaseConfig>,
) -> (r: String)
    ensures
        r@ == match config {
            Some(c) => match c.name_template {
                Some(t) => applied_template(t@, version@, dir_text(directory)),
                None => tag_name@ + " ("@ + scope_label(branch@, directory) + ")"@,
            },
            None => tag_name@ + " ("@ + scope_label(branch@, directory) + ")"@,
        },
{
    if let Some(c) = config {
        if let Some(t) = &c.name_template {
            return apply_template(t.as_str(), version, directory);
        }
    }
    let scope = format_scope_label(branch, directory);
    let mut r = String::new();
    push_text(&mut r, tag_name);
    push_text(&mut r, " (");
    push_text(&mut r, scope.as_str());
    push_text(&mut r, ")");
    r
}

/// Splits `owner/repo` at its first `/`; both parts must be non-empty.
pub fn parse_repository(repository: &str) -> (r: Result<(String, String), InputError>)
    ensures
        ({
            let s = repository@;
            let e = index_of(s, '/');
            if 0 < e && e + 1 < s.len() {
                r matches Ok((owner, repo)) && owner@ == s.subrange(0, e) && repo@ == s.subrange(
                    e + 1,
                    s.len() as int,
                )
            } else {
                r matches Err(InputError::InvalidRepository)
            }
        }),
{
    let v = chars_of(repository);
    let e = find_char(&v, 0, '/');
    assert(v@.subrange(0, v@.len() as int) =~= v@);
    if e == 0 || e >= v.len() || e + 1 >= v.len() {
        return Err(InputError::InvalidRepository);
    }
    Ok((string_of(&v, 0, e), string_of(&v, e + 1, v.len())))
}

/// A value that is set and not blank, trimmed.
pub open spec fn set_value(o: Option<&str>) -> Option<Seq<char>> {
    match o {
        Some(s) => if trimmed(s@).len() > 0 {
            Some(trimmed(s@))
        } else {
            None
        },
        None => None,
    }
}

/// The value, trimmed, where it is set and not blank.
pub fn nonblank(value: Option<&str>) -> (r: Option<String>)
    ensures
        match r {
            Some(s) => set_value(value) == Some(s@),
            None => set_value(value) is None,
        },
{
    match value {
        Some(v) => {
            let t = trim(v);
            if t.as_str().unicode_len() > 0 {
                Some(t)
            } else {
                None
            }
        },
        None => None,
    }
}

/// The commit being built, where one is given.
pub fn resolve_current_sha(sha: Option<&str>) -> (r: Option<String>)
    ensures
        match r {
            Some(s) => set_value(sha) == Some(s@),
            None => set_value(sha) is None,
        },
{
    nonblank(sha)
}

/// The branch: the pull request's head ref, else the ref name, else a
/// `refs/heads/` ref with that prefix removed.
pub fn resolve_branch(head_ref: Option<&str>, ref_name: Option<&str>, git_ref: Option<&str>) -> (r:
    Result<String, InputError>)
    ensures
        set_value(head_ref) is Some ==> (r matches Ok(b) && Some(b@) == set_value(head_ref)),
        set_value(head_ref) is None && set_value(ref_name) is Some ==> (r matches Ok(b) && Some(
            b@,
        ) == set_value(ref_name)),
        set_value(head_ref) is None && set_value(ref_name) is None ==> match git_ref {
            Some(g) => if starts_with(trimmed(g@), "refs/heads/"@) {
                r matches Ok(b) && b@ == trimmed(g@).subrange(
                    "refs/heads/"@.len() as int,
                    trimmed(g@).len() as int,
                )
            } else {
                r matches Err(InputError::UnknownBranch)
            },
            None => r matches Err(InputError::UnknownBranch),
        },
{
    if let Some(b) = nonblank(head_ref) {
        return Ok(b);
    }
    if let Some(b) = nonblank(ref_name) {
        return Ok(b);
    }
    match git_ref {
        Some(g) => {
            proof {
                reveal_strlit("refs/heads/");
            }
            let t = trim(g);
            let v = chars_of(t.as_str());
            let prefix = chars_of("refs/heads/");
            if occurs_at_exec(&v, &prefix, 0) {
                Ok(string_of(&v, 11, v.len()))
            } else {
                Err(InputError::UnknownBranch)
            }
        },
        None => Err(InputError::UnknownBranch),
    }
}


/// `s` with every trailing `c` removed.
pub open spec fn strip_trailing(s: Seq<char>, c: char) -> Seq<char>
    decreases s.len(),
{
    if s.len() > 0 && s.last() == c {
        strip_trailing(s.drop_last(), c)
    } else {
        s
    }
}

/// `s` with every leading `./` removed.
pub open spec fn strip_dot_slash(s: Seq<char>) -> Seq<char>
    decreases s.len(),
{
    if s.len() >= 2 && s[0] == '.' && s[1] == '/' {
        strip_dot_slash(s.subrange(2, s.len() as int))
    } else {
        s
    }
}

/// The directory input to check: `None` where it is absent, blank, or `.`;
/// else the trimmed text without trailing `/`, then without trailing `\`.
pub open spec fn directory_candidate(input: Option<&str>) -> Option<Seq<char>> {
    match input {
        None => None,
        Some(raw) => {
            let t = trimmed(raw@);
            let v = strip_trailing(strip_trailing(t, '/'), '\\');
            if t.len() == 0 || v == "."@ {
                None
            } else {
                Some(v)
            }
        },
    }
}

/// A relative directory without leading `./`; `None` where nothing is left
/// or `.` is.
pub open spec fn relative_directory(v: Seq<char>) -> Option<Seq<char>> {
    let w = strip_dot_slash(v);
    if w.len() == 0 || w == "."@ {
        None
    } else {
        Some(w)
    }
}

/// Relies on `std::path::Path::is_absolute`, whose answer depends on the
/// platform's path rules.
#[verifier::external_body]
fn is_absolute_path(p: &str) -> (r: bool) {
    std::path::Path::new(p).is_absolute()
}

fn strip_trailing_exec(v: &Vec<char>, to: usize, c: char) -> (r: usize)
    requires
        to <= v@.len(),
    ensures
        r <= to,
        v@.subrange(0, r as int) == strip_trailing(v@.subrange(0, to as int), c),
{
    let mut j = to;
    while j > 0 && v[j - 1] == c
        invariant
            j <= to <= v@.len(),
            strip_trailing(v@.subrange(0, j as int), c) == strip_trailing(v@.subrange(0, to as int), c),
        decreases j,
    {
        assert(v@.subrange(0, j as int).drop_last() =~= v@.subrange(0, j - 1));
        j -= 1;
    }
    j
}

/// The directory to scope the run to: `None` for the repository root, an
/// error for an absolute path.
pub fn resolve_directory(input: Option<&str>) -> (r: Result<Option<String>, InputError>)
    ensures
        match directory_candidate(input) {
            None => r matches Ok(None),
            Some(v) => (r matches Err(InputError::AbsoluteDirectory)) || (r matches Ok(o) && match o {
                Some(d) => relative_directory(v) == Some(d@),
                None => relative_directory(v) is None,
            }),
        },
{
    proof {
        reveal_strlit(".");
    }
    let raw = match input {
        Some(raw) => raw,
        None => return Ok(None),
    };
    let t = chars_of(trim(raw).as_str());
    if t.len() == 0 {
        return Ok(None);
    }
    assert(t@.subrange(0, t@.len() as int) =~= t@);
    let a = strip_trailing_exec(&t, t.len(), '/');
    let b = strip_trailing_exec(&t, a, '\\');
    let value = slice_vec(&t, 0, b);
    if vec_eq_str(&value, ".") {
        return Ok(None);
    }
    let value_text = string_of(&t, 0, b);
    scoped_directory(value_text.as_str(), is_absolute_path(value_text.as_str()))
}

/// The directory to scope the run to, given whether the platform deems the
/// candidate absolute: an error for an absolute path, else the candidate
/// without leading `./`, `None` where nothing but `.` is left.
pub fn scoped_directory(candidate: &str, absolute: bool) -> (r: Result<Option<String>, InputError>)
    ensures
        absolute ==> r matches Err(InputError::AbsoluteDirectory),
        !absolute ==> (r matches Ok(o) && match o {
            Some(d) => relative_directory(candidate@) == Some(d@),
            None => relative_directory(candidate@) is None,
        }),
{
    proof {
        reveal_strlit(".");
    }
    if absolute {
        return Err(InputError::AbsoluteDirectory);
    }
    let t = chars_of(candidate);
    let b = t.len();
    assert(t@.subrange(0, b as int) =~= t@);
    let mut s: usize = 0;
    while b - s >= 2 && t[s] == '.' && t[s + 1] == '/'
        invariant
            s <= b <= t@.len(),
            b == t@.len(),
            strip_dot_slash(t@.subrange(s as int, b as int)) == strip_dot_slash(t@.subrange(0, b as int)),
        decreases b - s,
    {
        assert(t@.subrange(s as int, b as int).subrange(2, b - s) =~= t@.subrange(s + 2, b as int));
        s += 2;
    }
    let rest = slice_vec(&t, s, b);
    proof {
        let w = t@.subrange(s as int, b as int);
        assert(rest@ == w);
        if b - s >= 2 {
            assert(!(w[0] == '.' && w[1] == '/'));
        }
        assert(strip_dot_slash(w) == w);
    }
    if rest.len() == 0 || vec_eq_str(&rest, ".") {
        return Ok(None);
    }
    Ok(Some(string_of(&t, s, b)))
}

} // verus!
