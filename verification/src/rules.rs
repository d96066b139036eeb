//! The filter rule set: the built-in and the user's patterns as one ordered
//! list of override lines, and that list compiled into a matcher for the
//! directory walk.

use vstd::prelude::*;
use vstd::string::StringExecFns;
use ignore::overrides::{Override, OverrideBuilder};
use crate::settings::Settings;
use crate::text::{texts, trim_end};

verus! {

/// The directories that are never walked into.
pub open spec fn default_ignored_dirs() -> Seq<Seq<char>> {
    seq![
        ".git/"@,
        ".github/"@,
        ".vscode/"@,
        ".idea/"@,
        "venv/"@,
        ".env/"@,
        "node_modules/"@,
        ".next/"@,
        "out/"@,
        "__pycache__/"@,
        "target/"@,
        "pkg/"@,
        "build/"@,
        "dist/"@,
        "coverage/"@,
    ]
}

/// The files that are never taken: lock files, editor and tool settings.
pub open spec fn default_ignored_files() -> Seq<Seq<char>> {
    seq![
        "pnpm-lock.yaml"@,
        "package-lock.json"@,
        "yarn.lock"@,
        "Cargo.lock"@,
        ".tsbuildinfo"@,
        ".DS_Store"@,
        "components.json"@,
        "biome.json"@,
        "next-env.d.ts"@,
        ".gitignore"@,
        ".prettierrc.json"@,
        "LICENSE"@,
        ".nvmrc"@,
        ".npmrc"@,
        ".eslintrc.json"@,
        ".prettierignore"@,
        "vercel.json"@,
    ]
}

/// The override line that excludes what a pattern matches: the pattern with
/// a `!` in front.
pub open spec fn negated(pattern: Seq<char>) -> Seq<char> {
    seq!['!'] + pattern
}

/// The excluding lines of a list of patterns, in the same order.
pub open spec fn negate_all(patterns: Seq<Seq<char>>) -> Seq<Seq<char>> {
    Seq::new(patterns.len(), |i: int| negated(patterns[i]))
}

/// The ordered list of override lines. Where several lines match a path, the
/// last of them decides. So the user's includes stand first, as they are, and
/// the excluding lines follow: the built-in directories and files, then the
/// output file, then the user's excludes. What is excluded stays excluded,
/// whatever the includes say.
pub open spec fn rule_lines(
    output: Seq<char>,
    excludes: Seq<Seq<char>>,
    includes: Seq<Seq<char>>,
) -> Seq<Seq<char>> {
    includes + negate_all(default_ignored_dirs()) + negate_all(default_ignored_files()) + seq![
        negated(output),
    ] + negate_all(excludes)
}

/// The line that excludes the output file is always among the rules, and
/// none of the includes stands behind it: every line from the end of the
/// includes on excludes.
pub proof fn lemma_output_always_excluded(
    output: Seq<char>,
    excludes: Seq<Seq<char>>,
    includes: Seq<Seq<char>>,
)
    ensures
        rule_lines(output, excludes, includes).len() == includes.len() + 33 + excludes.len(),
        rule_lines(output, excludes, includes)[includes.len() + 32 as int] == negated(output),
        rule_lines(output, excludes, includes).contains(negated(output)),
        forall|i: int|
            0 <= i < includes.len() ==> #[trigger] rule_lines(output, excludes, includes)[i]
                == includes[i],
        forall|i: int|
            includes.len() <= i < rule_lines(output, excludes, includes).len() ==> (
            #[trigger] rule_lines(output, excludes, includes)[i]).first() == '!',
{
    let lines = rule_lines(output, excludes, includes);
    let dirs = negate_all(default_ignored_dirs());
    let files = negate_all(default_ignored_files());
    let own = seq![negated(output)];
    let user = negate_all(excludes);
    let n = includes.len() as int;
    assert(default_ignored_dirs().len() == 15);
    assert(default_ignored_files().len() == 17);
    assert(lines[n + 32] == negated(output));
    assert forall|i: int| n <= i < lines.len() implies (#[trigger] lines[i]).first() == '!' by {
        if i < n + 15 {
            assert(lines[i] == dirs[i - n]);
        } else if i < n + 32 {
            assert(lines[i] == files[i - n - 15]);
        } else if i == n + 32 {
            assert(lines[i] == own[0]);
        } else {
            assert(lines[i] == user[i - n - 33]);
        }
    }
}

/// A copy of each of the given texts, in the same order.
fn owned(items: &[&str]) -> (list: Vec<String>)
    ensures
        texts(list@) == Seq::new(items@.len(), |i: int| items@[i]@),
{
    let mut list: Vec<String> = Vec::new();
    let n = items.len();
    let mut i: usize = 0;
    while i < n
        invariant
            n == items@.len(),
            i <= n,
            list@.len() == i,
            forall|k: int| 0 <= k < i ==> (#[trigger] list@[k])@ == items@[k]@,
        decreases n - i,
    {
        list.push(String::from_str(items[i]));
        i = i + 1;
    }
    list
}

/// The directories that are never walked into.
pub fn ignored_dirs() -> (dirs: Vec<String>)
    ensures
        texts(dirs@) == default_ignored_dirs(),
{
    let items: [&str; 15] = [
        ".git/",
        ".github/",
        ".vscode/",
        ".idea/",
        "venv/",
        ".env/",
        "node_modules/",
        ".next/",
        "out/",
        "__pycache__/",
        "target/",
        "pkg/",
        "build/",
        "dist/",
        "coverage/",
    ];
    let dirs = owned(items.as_slice());
    dirs
}

/// The files that are never taken.
pub fn ignored_files() -> (files: Vec<String>)
    ensures
        texts(files@) == default_ignored_files(),
{
    let items: [&str; 17] = [
        "pnpm-lock.yaml",
        "package-lock.json",
        "yarn.lock",
        "Cargo.lock",
        ".tsbuildinfo",
        ".DS_Store",
        "components.json",
        "biome.json",
        "next-env.d.ts",
        ".gitignore",
        ".prettierrc.json",
        "LICENSE",
        ".nvmrc",
        ".npmrc",
        ".eslintrc.json",
        ".prettierignore",
        "vercel.json",
    ];
    let files = owned(items.as_slice());
    files
}

/// Appends the excluding line of each pattern to `lines`.
fn push_negated(lines: &mut Vec<String>, patterns: &Vec<String>)
    ensures
        texts(final(lines)@) == texts(old(lines)@) + negate_all(texts(patterns@)),
{
    let ghost start = texts(lines@);
    let ghost wanted = negate_all(texts(patterns@));
    let n = patterns.len();
    let mut i: usize = 0;
    while i < n
        invariant
            n == patterns@.len(),
            wanted == negate_all(texts(patterns@)),
            i <= n,
            texts(lines@) == start + wanted.take(i as int),
        decreases n - i,
    {
        let ghost before = texts(lines@);
        let mut line = String::from_str("!");
        line.append(patterns[i].as_str());
        proof {
            reveal_strlit("!");
            assert(line@ =~= negated(patterns@[i as int]@));
        }
        lines.push(line);
        proof {
            assert(texts(lines@) =~= before.push(wanted[i as int]));
        }
        i = i + 1;
    }
}

/// The ordered list of override lines for the given output file name and the
/// user's patterns.
pub fn override_lines(output: &str, excludes: &Vec<String>, includes: &Vec<String>) -> (lines:
    Vec<String>)
    ensures
        texts(lines@) == rule_lines(output@, texts(excludes@), texts(includes@)),
{
    let mut lines: Vec<String> = Vec::new();
    let n = includes.len();
    let mut i: usize = 0;
    while i < n
        invariant
            n == includes@.len(),
            i <= n,
            texts(lines@) == texts(includes@).take(i as int),
        decreases n - i,
    {
        let ghost before = texts(lines@);
        lines.push(includes[i].clone());
        proof {
            let wanted = texts(includes@);
            assert(texts(lines@) =~= before.push(wanted[i as int]));
        }
        i = i + 1;
    }
    assert(texts(includes@).take(n as int) =~= texts(includes@));
    push_negated(&mut lines, &ignored_dirs());
    push_negated(&mut lines, &ignored_files());
    let mut own = String::from_str("!");
    own.append(output);
    proof {
        reveal_strlit("!");
        assert(own@ =~= negated(output@));
    }
    lines.push(own);
    push_negated(&mut lines, excludes);
    lines
}

/// Declares `ignore::overrides::OverrideBuilder`, which collects override
/// globs, as a type whose inside the verifier does not see.
#[verifier::external_type_specification]
#[verifier::external_body]
pub struct ExOverrideBuilder(ignore::overrides::OverrideBuilder);

/// Declares `ignore::overrides::Override`, the matcher that a builder makes,
/// as a type whose inside the verifier does not see.
#[verifier::external_type_specification]
#[verifier::external_body]
pub struct ExOverride(ignore::overrides::Override);

/// Declares `ignore::Error` as a type whose inside the verifier does not
/// see.
#[verifier::external_type_specification]
#[verifier::external_body]
pub struct ExIgnoreError(ignore::Error);

/// The globs that an `OverrideBuilder` holds, each as the text it keeps of
/// the line it came from, in the order in which they were added.
pub uninterp spec fn builder_globs(builder: OverrideBuilder) -> Seq<Seq<char>>;

/// Whether an `OverrideBuilder` has, and has had for every glob that it
/// holds, the settings that `OverrideBuilder::new` gives it: globs match
/// case-sensitively, and a character class that is not closed is an error.
pub uninterp spec fn default_settings(builder: OverrideBuilder) -> bool;

/// The globs that an `Override` was built from, as `builder_globs` gives
/// them for its builder.
pub uninterp spec fn override_globs(overrides: Override) -> Seq<Seq<char>>;

/// Whether `OverrideBuilder::add`, on a builder with the default settings,
/// takes the line: it is a comment, blank, or a glob that parses.
pub uninterp spec fn glob_accepted(line: Seq<char>) -> bool;

/// Whether `OverrideBuilder::build`, on a builder with the default settings
/// that holds these globs, compiles them into a matcher.
pub uninterp spec fn globs_compile(globs: Seq<Seq<char>>) -> bool;

/// What an `OverrideBuilder` keeps of a line that it takes: nothing of a
/// comment (a line that starts with `#`) and of a line that is blank, else
/// the line without the white space at its end. White space behind a
/// backslash at the very end stays.
pub open spec fn kept_glob(line: Seq<char>) -> Option<Seq<char>> {
    if line.len() > 0 && line[0] == '#' {
        None
    } else {
        let escaped = line.len() >= 2 && line[line.len() - 2] == '\\' && line.last() == ' ';
        let text = if escaped {
            line
        } else {
            trim_end(line)
        };
        if text.len() == 0 {
            None
        } else {
            Some(text)
        }
    }
}

/// What a builder holds after it has taken each of the lines in turn.
pub open spec fn kept_globs(lines: Seq<Seq<char>>) -> Seq<Seq<char>>
    decreases lines.len(),
{
    if lines.len() == 0 {
        Seq::empty()
    } else {
        match kept_glob(lines.last()) {
            Some(glob) => kept_globs(lines.drop_last()).push(glob),
            None => kept_globs(lines.drop_last()),
        }
    }
}

/// Calls `OverrideBuilder::new`, whose builder matches relative to `root`.
/// The builder holds no glob yet and has the default settings.
#[verifier::external_body]
fn new_builder(root: &str) -> (builder: OverrideBuilder)
    ensures
        builder_globs(builder) == Seq::<Seq<char>>::empty(),
        default_settings(builder),
{
    OverrideBuilder::new(root)
}

/// Calls `OverrideBuilder::add`. It skips comments and blank lines, parses
/// every other line as a glob, and fails only where that glob does not
/// parse. A line that fails leaves the builder as it was; a glob that parses
/// is added behind those that are there; the settings stay.
#[verifier::external_body]
fn add_glob(builder: &mut OverrideBuilder, line: &str) -> (r: Result<(), ignore::Error>)
    requires
        default_settings(*old(builder)),
    ensures
        default_settings(*final(builder)),
        r is Ok <==> glob_accepted(line@),
        kept_glob(line@) is None ==> r is Ok,
        builder_globs(*final(builder)) == match (r, kept_glob(line@)) {
            (Ok(_), Some(glob)) => builder_globs(*old(builder)).push(glob),
            _ => builder_globs(*old(builder)),
        },
{
    match builder.add(line) {
        Ok(_) => Ok(()),
        Err(error) => Err(error),
    }
}

/// Calls `OverrideBuilder::build`. Where it succeeds, the matcher holds the
/// builder's globs in the builder's order.
#[verifier::external_body]
fn build_matcher(builder: &OverrideBuilder) -> (r: Result<Override, ignore::Error>)
    requires
        default_settings(*builder),
    ensures
        r is Ok <==> globs_compile(builder_globs(*builder)),
        match r {
            Ok(overrides) => override_globs(overrides) == builder_globs(*builder),
            Err(_) => true,
        },
{
    builder.build()
}

/// Formats an `ignore::Error` through its `Display` impl. Nothing is
/// claimed of the text.
#[verifier::external_body]
fn describe(error: &ignore::Error) -> (text: String) {
    error.to_string()
}

/// Why a rule set could not be made.
#[derive(Debug, PartialEq, Eq)]
pub enum RuleError {
    /// The line at `index` is no valid glob.
    InvalidGlob { index: usize, line: String, reason: String },
    /// Every line is valid, but together the globs do not compile.
    Build { reason: String },
}

impl RuleError {
    /// The description of the error.
    pub fn message(&self) -> (text: String)
        ensures
            text@ == match *self {
                RuleError::InvalidGlob { reason, .. } => reason@,
                RuleError::Build { reason } => reason@,
            },
    {
        match self {
            RuleError::InvalidGlob { reason, .. } => reason.clone(),
            RuleError::Build { reason } => reason.clone(),
        }
    }
}

/// Whether every one of the lines is taken.
pub open spec fn all_accepted(lines: Seq<Seq<char>>) -> bool {
    forall|i: int| 0 <= i < lines.len() ==> glob_accepted(#[trigger] lines[i])
}

/// What compiling `lines` comes to. Where every line is taken and the globs
/// compile, it is the matcher that holds what is kept of the lines, in their
/// order. Where a line is refused, it is the error for the first such line.
/// Where all are taken but do not compile together, it is the error for the
/// whole.
pub open spec fn is_compiled_from(r: Result<Override, RuleError>, lines: Seq<Seq<char>>) -> bool {
    match r {
        Ok(overrides) => {
            &&& all_accepted(lines)
            &&& globs_compile(kept_globs(lines))
            &&& override_globs(overrides) == kept_globs(lines)
        },
        Err(RuleError::InvalidGlob { index, line, reason }) => {
            &&& index < lines.len()
            &&& line@ == lines[index as int]
            &&& !glob_accepted(lines[index as int])
            &&& all_accepted(lines.take(index as int))
        },
        Err(RuleError::Build { reason }) => {
            &&& all_accepted(lines)
            &&& !globs_compile(kept_globs(lines))
        },
    }
}

/// Compiles override lines into the matcher that the directory walk takes.
/// The lines are added in their order. The first line that is no valid glob
/// ends the work with an error that names it: no matcher is made of a part
/// of the lines.
pub fn compile_overrides(root: &str, lines: &Vec<String>) -> (r: Result<Override, RuleError>)
    ensures
        is_compiled_from(r, texts(lines@)),
{
    let ghost wanted = texts(lines@);
    let mut builder = new_builder(root);
    let n = lines.len();
    let mut i: usize = 0;
    while i < n
        invariant
            n == lines@.len(),
            wanted == texts(lines@),
            i <= n,
            default_settings(builder),
            all_accepted(wanted.take(i as int)),
            builder_globs(builder) == kept_globs(wanted.take(i as int)),
        decreases n - i,
    {
        let added = add_glob(&mut builder, lines[i].as_str());
        match added {
            Ok(_) => {
                proof {
                    let upto = wanted.take(i + 1);
                    assert(upto.drop_last() =~= wanted.take(i as int));
                }
            },
            Err(error) => {
                return Err(
                    RuleError::InvalidGlob {
                        index: i,
                        line: lines[i].clone(),
                        reason: describe(&error),
                    },
                );
            },
        }
        i = i + 1;
    }
    assert(wanted.take(n as int) =~= wanted);
    match build_matcher(&builder) {
        Ok(overrides) => Ok(overrides),
        Err(error) => Err(RuleError::Build { reason: describe(&error) }),
    }
}

/// The override lines of a run's settings.
pub open spec fn settings_lines(settings: Settings) -> Seq<Seq<char>> {
    rule_lines(
        settings.output@,
        texts(settings.exclude_patterns@),
        texts(settings.include_patterns@),
    )
}

/// Makes the rule set of a run: the override lines of the settings, compiled
/// for the walk below `root`. A pattern that is no valid glob ends the work
/// with an error that names it.
pub fn build_rule_set(root: &str, settings: &Settings) -> (r: Result<Override, RuleError>)
    ensures
        is_compiled_from(r, settings_lines(*settings)),
{
    let lines = override_lines(
        settings.output.as_str(),
        &settings.exclude_patterns,
        &settings.include_patterns,
    );
    compile_overrides(root, &lines)
}

} // verus!
