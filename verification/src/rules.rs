//! Cascading ignore rules. Each directory between the listed directory and
//! the boundary may hold a rule file; every rule file is compiled into a
//! matcher scoped to its own directory, and a candidate path is excluded
//! when any level's matcher — applied to the path expressed relative to
//! that level's directory — matches it. A rule file that cannot be
//! compiled degrades to a level that excludes nothing. Glob compilation
//! and matching come from the `ignore` crate, behind the trusted items
//! below.

use vstd::prelude::*;
use ignore::gitignore::{Gitignore, GitignoreBuilder};
use crate::paths::{is_under, is_under_str, rel_of, relative_to};
use crate::text::{lines_of, split_lines};

verus! {

#[verifier::external_type_specification]
#[verifier::external_body]
pub struct ExGitignore(Gitignore);

#[verifier::external_type_specification]
#[verifier::external_body]
pub struct ExGitignoreBuilder(GitignoreBuilder);

/// The directory a rule builder was rooted at.
pub uninterp spec fn builder_root(b: GitignoreBuilder) -> Seq<char>;

/// The rule lines a builder has accepted so far, in order.
pub uninterp spec fn builder_lines(b: GitignoreBuilder) -> Seq<Seq<char>>;

/// The directory a compiled matcher is rooted at.
pub uninterp spec fn gitignore_root(g: Gitignore) -> Seq<char>;

/// The rule lines a compiled matcher was built from, in order.
pub uninterp spec fn gitignore_lines(g: Gitignore) -> Seq<Seq<char>>;

/// Whether the matcher rooted at `root` and built from `lines` ignores the
/// relative path `rel` (a directory when `is_dir`). Glob matching is a
/// function of these four values alone.
pub uninterp spec fn gitignore_matches(
    root: Seq<char>,
    lines: Seq<Seq<char>>,
    rel: Seq<char>,
    is_dir: bool,
) -> bool;

/// Whether a rule line is accepted by the glob compiler; acceptance depends
/// on the line alone (comment and blank lines are accepted and contribute
/// nothing, a malformed glob is rejected).
pub uninterp spec fn rule_line_accepted(line: Seq<char>) -> bool;

/// Whether the glob set compiled from these accepted rule lines builds.
/// Compilation runs at fixed settings on the lines alone, so success is a
/// function of the line sequence.
pub uninterp spec fn glob_set_buildable(lines: Seq<Seq<char>>) -> bool;

/// Relies on ignore's `GitignoreBuilder::new`: a fresh builder rooted at
/// the given directory, holding no rules yet.
#[verifier::external_body]
fn builder_new(base: &str) -> (b: GitignoreBuilder)
    ensures
        builder_root(b) == base@,
        builder_lines(b) == Seq::<Seq<char>>::empty(),
{
    GitignoreBuilder::new(base)
}

/// Relies on ignore's `GitignoreBuilder::add_line`: a line it accepts is
/// appended to the builder's line sequence (a comment or blank line is
/// accepted and later contributes no glob), a line it rejects (a malformed
/// glob) leaves the sequence unchanged, and which lines it accepts depends
/// on the line alone.
#[verifier::external_body]
fn builder_add_line(b: &mut GitignoreBuilder, line: &str) -> (ok: bool)
    ensures
        builder_root(*final(b)) == builder_root(*old(b)),
        ok == rule_line_accepted(line@),
        ok ==> builder_lines(*final(b)) == builder_lines(*old(b)).push(line@),
        !ok ==> builder_lines(*final(b)) == builder_lines(*old(b)),
{
    b.add_line(None, line).is_ok()
}

/// Relies on ignore's `GitignoreBuilder::build`: the matcher compiled from
/// the builder's root and accepted rules; it is built exactly when
/// `glob_set_buildable` says so of those rules.
#[verifier::external_body]
fn builder_build(b: &GitignoreBuilder) -> (r: Option<Gitignore>)
    ensures
        r is Some == glob_set_buildable(builder_lines(*b)),
        r matches Some(g) ==> gitignore_root(g) == builder_root(*b)
            && gitignore_lines(g) == builder_lines(*b),
{
    b.build().ok()
}

/// Relies on ignore's `Gitignore::matched`: whether the matcher ignores the
/// candidate, which for a relative candidate path is a function of the
/// matcher's root, its rules, the candidate and the directory flag.
#[verifier::external_body]
fn gitignore_is_ignored(g: &Gitignore, rel: &str, is_dir: bool) -> (r: bool)
    ensures
        r == gitignore_matches(gitignore_root(*g), gitignore_lines(*g), rel@, is_dir),
{
    matches!(g.matched(rel, is_dir), ignore::Match::Ignore(_))
}

/// One directory's compiled rules: the directory itself, and its matcher
/// where the directory had a rule file whose glob set could be compiled.
pub struct RuleLevel {
    pub base: String,
    pub matcher: Option<Gitignore>,
}

impl RuleLevel {
    /// The level excludes `path` when `path` lies under the level's
    /// directory and the matcher matches the relative remainder. A level
    /// without a matcher excludes nothing.
    pub open spec fn blocks(&self, path: Seq<char>, is_dir: bool) -> bool {
        match self.matcher {
            Some(g) => is_under(self.base@, path) && gitignore_matches(
                gitignore_root(g),
                gitignore_lines(g),
                rel_of(self.base@, path),
                is_dir,
            ),
            None => false,
        }
    }

    /// The level was compiled from this rule file: it is scoped to the
    /// file's directory; it has a matcher exactly when the file's accepted
    /// lines compile to a glob set, and that matcher holds exactly those
    /// lines.
    pub open spec fn compiled_from(&self, base: Seq<char>, content: Seq<char>) -> bool {
        &&& self.base@ == base
        &&& (self.matcher is Some <==> glob_set_buildable(accepted_of(lines_of(content))))
        &&& match self.matcher {
            Some(g) => gitignore_root(g) == base
                && gitignore_lines(g) == accepted_of(lines_of(content)),
            None => true,
        }
    }
}

/// The subsequence of rule lines the glob compiler accepts, in order.
pub open spec fn accepted_of(lines: Seq<Seq<char>>) -> Seq<Seq<char>>
    decreases lines.len(),
{
    if lines.len() == 0 {
        Seq::empty()
    } else {
        accepted_of(lines.drop_last()) + (if rule_line_accepted(lines.last()) {
            seq![lines.last()]
        } else {
            Seq::<Seq<char>>::empty()
        })
    }
}

/// Compiles one directory's rule file: each line of its text is offered to
/// the glob compiler, a rejected line is skipped, and a rule file whose
/// glob set cannot be built at all degrades to a level without a matcher.
pub fn compile_rule_level(base: &str, content: &str) -> (r: RuleLevel)
    ensures
        r.compiled_from(base@, content@),
{
    let lines = split_lines(content);
    let ghost line_views = lines@.map_values(|l: String| l@);
    let mut b = builder_new(base);
    proof {
        assert(line_views.take(0) =~= Seq::<Seq<char>>::empty());
    }
    let mut k: usize = 0;
    while k < lines.len()
        invariant
            0 <= k <= lines@.len(),
            line_views == lines@.map_values(|l: String| l@),
            builder_root(b) == base@,
            builder_lines(b) == accepted_of(line_views.take(k as int)),
        decreases lines@.len() - k,
    {
        let _accepted = builder_add_line(&mut b, lines[k].as_str());
        proof {
            let e = line_views[k as int];
            assert(e == lines@[k as int]@);
            assert(line_views.take(k + 1).drop_last() =~= line_views.take(k as int));
            assert(line_views.take(k + 1).last() == e);
            if rule_line_accepted(e) {
                assert(builder_lines(b)
                    =~= accepted_of(line_views.take(k as int)) + seq![e]);
            } else {
                assert(builder_lines(b)
                    =~= accepted_of(line_views.take(k as int))
                        + Seq::<Seq<char>>::empty());
            }
        }
        k = k + 1;
    }
    proof {
        assert(line_views.take(lines@.len() as int) =~= line_views);
        assert(line_views == lines_of(content@));
    }
    RuleLevel { base: base.to_owned(), matcher: builder_build(&b) }
}

/// The ordered rule levels that govern one listing: one per directory of
/// the walk that had a rule file.
pub struct RuleSet {
    pub levels: Vec<RuleLevel>,
}

impl RuleSet {
    /// A path is excluded when any level excludes it; there is no override
    /// between levels, so one match is final.
    pub open spec fn excludes(&self, path: Seq<char>, is_dir: bool) -> bool {
        exists|k: int| 0 <= k < self.levels@.len() && self.levels@[k].blocks(path, is_dir)
    }
}

/// Compiles the rule files found along the walk, one level per file, in
/// walk order.
pub fn compile_rule_set(rule_files: Vec<(String, String)>) -> (r: RuleSet)
    ensures
        r.levels@.len() == rule_files@.len(),
        forall|k: int| 0 <= k < rule_files@.len()
            ==> (#[trigger] r.levels@[k]).compiled_from(
                rule_files@[k].0@,
                rule_files@[k].1@,
            ),
{
    let mut levels: Vec<RuleLevel> = Vec::new();
    let mut k: usize = 0;
    while k < rule_files.len()
        invariant
            0 <= k <= rule_files@.len(),
            levels@.len() == k,
            forall|j: int| 0 <= j < k
                ==> (#[trigger] levels@[j]).compiled_from(
                    rule_files@[j].0@,
                    rule_files@[j].1@,
                ),
        decreases rule_files@.len() - k,
    {
        let level = compile_rule_level(rule_files[k].0.as_str(), rule_files[k].1.as_str());
        levels.push(level);
        k = k + 1;
    }
    RuleSet { levels }
}

/// Tests whether any rule level excludes the candidate path.
pub fn is_excluded(rules: &RuleSet, path: &str, is_dir: bool) -> (r: bool)
    ensures
        r == rules.excludes(path@, is_dir),
{
    let mut k: usize = 0;
    while k < rules.levels.len()
        invariant
            0 <= k <= rules.levels@.len(),
            forall|j: int| 0 <= j < k
                ==> !(#[trigger] rules.levels@[j]).blocks(path@, is_dir),
        decreases rules.levels@.len() - k,
    {
        let level = &rules.levels[k];
        match &level.matcher {
            Some(g) => {
                if is_under_str(level.base.as_str(), path) {
                    let rel = relative_to(level.base.as_str(), path);
                    if gitignore_is_ignored(g, rel.as_str(), is_dir) {
                        return true;
                    }
                }
            },
            None => {},
        }
        k = k + 1;
    }
    false
}

/// A match at one level is final: a path some level excludes stays
/// excluded whatever rule files the other levels — related or not — hold.
pub proof fn lemma_rule_match_is_final(rules: RuleSet, k: int, path: Seq<char>, is_dir: bool)
    requires
        0 <= k < rules.levels@.len(),
        rules.levels@[k].blocks(path, is_dir),
    ensures
        rules.excludes(path, is_dir),
{
}

} // verus!
