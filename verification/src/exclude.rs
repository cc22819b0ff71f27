//! The exclusion filter: expanding user patterns (a bare directory
//! name also prunes everything beneath it), compiling them into a
//! matcher, and the per-entry decision the directory walk acts on.

use crate::strutil::contains_char;
use vstd::prelude::*;

verus! {

#[verifier::external_type_specification]
#[verifier::external_body]
pub struct ExGlob(globset::Glob);

#[verifier::external_type_specification]
#[verifier::external_body]
pub struct ExGlobSet(globset::GlobSet);

#[verifier::external_type_specification]
#[verifier::external_body]
pub struct ExGlobSetBuilder(globset::GlobSetBuilder);

#[verifier::external_type_specification]
#[verifier::external_body]
pub struct ExGlobError(globset::Error);

/// Whether globset accepts a pattern, under the fixed options used
/// here (case-sensitive, literal path separator).
pub uninterp spec fn glob_ok(pat: Seq<char>) -> bool;

/// The pattern a compiled glob stands for.
pub uninterp spec fn glob_pat(g: globset::Glob) -> Seq<char>;

/// The patterns added to a set builder so far, in order.
pub uninterp spec fn builder_pats(b: globset::GlobSetBuilder) -> Seq<Seq<char>>;

/// The patterns a built set matches against.
pub uninterp spec fn globset_pats(gs: globset::GlobSet) -> Seq<Seq<char>>;

/// Whether any of the patterns matches a path, under the fixed
/// options; a function of the patterns and the path alone.
pub uninterp spec fn glob_match(pats: Seq<Seq<char>>, path: Seq<char>) -> bool;

/// Whether globset can assemble compiled globs for these patterns
/// into one set; a function of the pattern list alone, under the
/// fixed options.
pub uninterp spec fn assembles(pats: Seq<Seq<char>>) -> bool;

/// Relies on globset::GlobBuilder::build, with case_insensitive(false)
/// and literal_separator(true): compiles one pattern, and fails
/// exactly on the patterns globset's grammar refuses.
#[verifier::external_body]
fn compile_glob(pat: &str) -> (r: Result<globset::Glob, globset::Error>)
    ensures
        match r {
            Ok(g) => glob_ok(pat@) && glob_pat(g) == pat@,
            Err(_) => !glob_ok(pat@),
        },
{
    globset::GlobBuilder::new(pat).case_insensitive(false).literal_separator(true).build()
}

/// Relies on globset::GlobSetBuilder::new: a fresh builder holds no
/// pattern.
#[verifier::external_body]
fn builder_new() -> (b: globset::GlobSetBuilder)
    ensures
        builder_pats(b) == Seq::<Seq<char>>::empty(),
{
    globset::GlobSetBuilder::new()
}

/// Relies on globset::GlobSetBuilder::add: appends one compiled glob.
#[verifier::external_body]
fn builder_add(b: &mut globset::GlobSetBuilder, g: globset::Glob)
    ensures
        builder_pats(*final(b)) == builder_pats(*old(b)).push(glob_pat(g)),
{
    b.add(g);
}

/// Relies on globset::GlobSetBuilder::build: whether the added globs
/// assemble into one set depends on them alone, and on success the
/// set matches against exactly the patterns added.
#[verifier::external_body]
fn builder_build(b: &globset::GlobSetBuilder) -> (r: Result<globset::GlobSet, globset::Error>)
    ensures
        r is Ok <==> assembles(builder_pats(*b)),
        r is Ok ==> globset_pats(r.unwrap()) == builder_pats(*b),
{
    b.build()
}

/// Relies on globset::GlobSet::is_match: whether any pattern in the
/// set matches the path.
#[verifier::external_body]
fn globset_is_match(gs: &globset::GlobSet, path: &str) -> (r: bool)
    ensures
        r == glob_match(globset_pats(*gs), path@),
{
    gs.is_match(path)
}

/// A pattern the exclusion grammar refused, or a set that would not
/// assemble.
#[derive(Debug, PartialEq, Eq)]
pub enum ExcludeError {
    /// This expanded pattern does not compile.
    BadPattern(String),
    /// The compiled patterns would not assemble into one set.
    SetBuild,
}

/// A user pattern with no glob metacharacter and no trailing
/// separator is read as a directory name.
pub open spec fn looks_like_dir(p: Seq<char>) -> bool {
    !p.contains('*') && (p.len() == 0 || (p.last() != '/' && p.last() != '\\'))
}

/// Leading `./` prefixes, repeatedly removed.
pub open spec fn strip_dot_slash(p: Seq<char>) -> Seq<char>
    decreases p.len(),
{
    if p.len() >= 2 && p[0] == '.' && p[1] == '/' {
        strip_dot_slash(p.skip(2))
    } else {
        p
    }
}

/// What one user pattern expands to: itself, and — when it looks like
/// a directory name — variants that match everything beneath it.
pub open spec fn expand_one(p: Seq<char>) -> Seq<Seq<char>> {
    if looks_like_dir(p) {
        seq![
            p,
            p + seq!['/', '*', '*'],
            seq!['*', '*', '/'] + strip_dot_slash(p) + seq!['/', '*', '*'],
        ]
    } else {
        seq![p]
    }
}

/// The full expanded pattern list, in order.
pub open spec fn expand_spec(ps: Seq<Seq<char>>) -> Seq<Seq<char>>
    decreases ps.len(),
{
    if ps.len() == 0 {
        Seq::empty()
    } else {
        expand_spec(ps.drop_last()) + expand_one(ps.last())
    }
}

fn strip_dot_slash_exec<'a>(p: &'a str) -> (r: &'a str)
    ensures
        r@ == strip_dot_slash(p@),
{
    let len = p.unicode_len();
    let mut st: usize = 0;
    proof {
        assert(p@.skip(0) =~= p@);
    }
    loop
        invariant
            st <= len == p@.len(),
            strip_dot_slash(p@) == strip_dot_slash(p@.skip(st as int)),
        decreases len - st,
    {
        if st < len && st + 1 < len && p.get_char(st) as u32 == '.' as u32 && p.get_char(
            st + 1,
        ) as u32 == '/' as u32 {
            proof {
                vstd::utf8::char_u32_cast(p@[st as int], p@[st as int] as u32);
                vstd::utf8::char_u32_cast('.', '.' as u32);
                vstd::utf8::char_u32_cast(p@[st as int + 1], p@[st as int + 1] as u32);
                vstd::utf8::char_u32_cast('/', '/' as u32);
                assert(p@.skip(st as int).skip(2) =~= p@.skip(st as int + 2));
                assert(p@.skip(st as int)[0] == p@[st as int]);
                assert(p@.skip(st as int)[1] == p@[st as int + 1]);
            }
            st = st + 2;
        } else {
            let r = p.substring_char(st, len);
            proof {
                assert(r@ =~= p@.skip(st as int));
                let sk = p@.skip(st as int);
                if sk.len() >= 2 {
                    assert(sk[0] == p@[st as int]);
                    assert(sk[1] == p@[st as int + 1]);
                }
                assert(strip_dot_slash(sk) == sk);
            }
            return r;
        }
    }
}

/// Expands the user patterns as `expand_one` describes, in order.
pub fn expand_patterns(patterns: &Vec<String>) -> (r: Vec<String>)
    ensures
        r.deep_view() == expand_spec(patterns.deep_view()),
{
    let n = patterns.len();
    let mut r: Vec<String> = Vec::new();
    let ghost dv = patterns.deep_view();
    let mut i: usize = 0;
    while i < n
        invariant
            i <= n == patterns@.len(),
            dv == patterns.deep_view(),
            dv.len() == n,
            r@.len() == expand_spec(dv.take(i as int)).len(),
            forall|k: int| 0 <= k < r@.len() ==> (#[trigger] r@[k])@ == expand_spec(
                dv.take(i as int),
            )[k],
        decreases n - i,
    {
        proof {
            reveal_strlit("/**");
            reveal_strlit("**/");
            assert(dv.take(i as int + 1).drop_last() =~= dv.take(i as int));
            assert(dv[i as int] == patterns@[i as int]@);
        }
        let ghost prefix = expand_spec(dv.take(i as int));
        let p = &patterns[i];
        let plen = p.as_str().unicode_len();
        let has_star = contains_char(p.as_str(), '*');
        let mut dir_like = !has_star;
        if dir_like && plen > 0 {
            let last = p.as_str().get_char(plen - 1);
            if last as u32 == '/' as u32 || last as u32 == '\\' as u32 {
                proof {
                    vstd::utf8::char_u32_cast(last, last as u32);
                    vstd::utf8::char_u32_cast('/', '/' as u32);
                    vstd::utf8::char_u32_cast('\\', '\\' as u32);
                }
                dir_like = false;
            }
        }
        assert(dir_like == looks_like_dir(p@));
        r.push(p.clone());
        if dir_like {
            let mut sub = p.clone();
            sub.append("/**");
            r.push(sub);
            let mut anywhere = "**/".to_owned();
            anywhere.append(strip_dot_slash_exec(p.as_str()));
            anywhere.append("/**");
            r.push(anywhere);
        }
        proof {
            let target = expand_spec(dv.take(i as int + 1));
            assert(target =~= prefix + expand_one(dv[i as int]));
            assert forall|k: int| 0 <= k < r@.len() implies (#[trigger] r@[k])@ == target[k] by {
                if k < prefix.len() {
                    assert(target[k] == prefix[k]);
                }
            }
        }
        i = i + 1;
    }
    proof {
        assert(dv.take(n as int) =~= dv);
        assert(r.deep_view().len() == r@.len());
        assert forall|k: int| 0 <= k < r@.len() implies r.deep_view()[k] == expand_spec(dv)[
            k
        ] by {
            assert(r.deep_view()[k] == r@[k]@);
        }
        assert(r.deep_view() =~= expand_spec(dv));
    }
    r
}

/// A compiled exclusion filter.
pub struct ExcludeSet {
    set: globset::GlobSet,
}

impl ExcludeSet {
    /// The expanded patterns this filter matches against.
    pub closed spec fn patterns(self) -> Seq<Seq<char>> {
        globset_pats(self.set)
    }

    /// Expands and compiles the user patterns. It succeeds exactly
    /// when every expanded pattern compiles and the set assembles; on
    /// success the filter matches against exactly the expanded list,
    /// and a refused pattern is reported back as written.
    pub fn build(patterns: &Vec<String>) -> (r: Result<ExcludeSet, ExcludeError>)
        ensures
            match r {
                Ok(ex) => {
                    &&& ex.patterns() == expand_spec(patterns.deep_view())
                    &&& forall|k: int| 0 <= k < expand_spec(patterns.deep_view()).len()
                        ==> glob_ok(#[trigger] expand_spec(patterns.deep_view())[k])
                    &&& assembles(expand_spec(patterns.deep_view()))
                },
                Err(e) => match e {
                    ExcludeError::BadPattern(p) => expand_spec(patterns.deep_view()).contains(p@)
                        && !glob_ok(p@),
                    ExcludeError::SetBuild => (forall|k: int|
                        0 <= k < expand_spec(patterns.deep_view()).len() ==> glob_ok(
                            #[trigger] expand_spec(patterns.deep_view())[k],
                        )) && !assembles(expand_spec(patterns.deep_view())),
                },
            },
    {
        let expanded = expand_patterns(patterns);
        let ghost exp = expand_spec(patterns.deep_view());
        let n = expanded.len();
        let mut b = builder_new();
        let mut i: usize = 0;
        while i < n
            invariant
                i <= n == expanded@.len(),
                expanded.deep_view() == exp,
                exp == expand_spec(patterns.deep_view()),
                exp.len() == n,
                builder_pats(b) =~= exp.take(i as int),
                forall|k: int| 0 <= k < i ==> glob_ok(#[trigger] exp[k]),
            decreases n - i,
        {
            proof {
                assert(expanded.deep_view()[i as int] == expanded@[i as int]@);
            }
            match compile_glob(expanded[i].as_str()) {
                Ok(g) => {
                    builder_add(&mut b, g);
                    proof {
                        assert(builder_pats(b) =~= exp.take(i as int + 1));
                        assert(glob_ok(exp[i as int]));
                    }
                },
                Err(_) => {
                    let bad = expanded[i].clone();
                    proof {
                        assert(exp[i as int] == expanded@[i as int]@);
                        assert(exp.contains(expanded@[i as int]@));
                        assert(bad@ == expanded@[i as int]@);
                        assert(expand_spec(patterns.deep_view()).contains(bad@));
                        assert(!glob_ok(bad@));
                    }
                    return Err(ExcludeError::BadPattern(bad));
                },
            }
            i = i + 1;
        }
        proof {
            assert(exp.take(n as int) =~= exp);
            assert(builder_pats(b) == expand_spec(patterns.deep_view()));
        }
        match builder_build(&b) {
            Ok(set) => Ok(ExcludeSet { set }),
            Err(_) => Err(ExcludeError::SetBuild),
        }
    }

    /// Whether the filter matches a relative path.
    pub fn matches(&self, path: &str) -> (r: bool)
        ensures
            r == glob_match(self.patterns(), path@),
    {
        globset_is_match(&self.set, path)
    }
}

/// What the walk does with one directory entry.
#[derive(Debug, PartialEq, Eq, Structural)]
pub enum WalkAction {
    /// A directory not excluded: walk into it.
    Descend,
    /// An excluded directory: skip it and everything beneath it.
    Prune,
    /// A regular file to index.
    Include,
    /// Anything else: an excluded file, or no regular file at all.
    Skip,
}

/// The decision for one entry, from its slash-separated relative
/// path and file type.
pub open spec fn walk_decision_spec(
    pats: Seq<Seq<char>>,
    rel: Seq<char>,
    is_dir: bool,
    is_file: bool,
) -> WalkAction {
    if is_dir {
        if glob_match(pats, rel) {
            WalkAction::Prune
        } else {
            WalkAction::Descend
        }
    } else if is_file {
        if glob_match(pats, rel) {
            WalkAction::Skip
        } else {
            WalkAction::Include
        }
    } else {
        WalkAction::Skip
    }
}

/// Decides what the walk does with one entry: excluded directories
/// are pruned whole, excluded files are skipped, and only regular
/// files are indexed.
pub fn walk_decision(ex: &ExcludeSet, rel: &str, is_dir: bool, is_file: bool) -> (r: WalkAction)
    ensures
        r == walk_decision_spec(ex.patterns(), rel@, is_dir, is_file),
{
    if is_dir {
        if ex.matches(rel) {
            WalkAction::Prune
        } else {
            WalkAction::Descend
        }
    } else if is_file {
        if ex.matches(rel) {
            WalkAction::Skip
        } else {
            WalkAction::Include
        }
    } else {
        WalkAction::Skip
    }
}

} // verus!
