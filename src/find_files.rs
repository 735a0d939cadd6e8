use std::collections::BTreeSet;

use vstd::prelude::*;

use globset::{Glob, GlobSet, GlobSetBuilder};

use crate::config::{exclusion_rules, Configuration};
use crate::errors::AntisepticError;

verus! {

#[verifier::external_type_specification]
#[verifier::external_body]
pub struct ExGlobSet(GlobSet);

/// Whether `pattern` compiles: it is valid glob syntax, and a glob set made
/// of it alone builds.
pub uninterp spec fn glob_valid(pattern: Seq<char>) -> bool;

/// Whether a glob set made of the glob `pattern` alone matches `path`.
pub uninterp spec fn glob_matches(pattern: Seq<char>, path: Seq<char>) -> bool;

/// The patterns that a glob set was built from, in order.
pub uninterp spec fn set_globs(set: GlobSet) -> Seq<Seq<char>>;

/// Relies on `globset::Glob::new`, `GlobSetBuilder::add` and
/// `GlobSetBuilder::build`: the set is built exactly when the pattern parses
/// and its matcher compiles (both report failure as an error), which depends
/// on the pattern alone; the set then holds that one pattern.
#[verifier::external_body]
fn glob_set_of(pattern: &str) -> (r: Option<GlobSet>)
    ensures
        r is Some <==> glob_valid(pattern@),
        r is Some ==> set_globs(r->0) == seq![pattern@],
{
    let glob = Glob::new(pattern).ok()?;
    GlobSetBuilder::new().add(glob).build().ok()
}

/// Relies on `globset::GlobSet::is_match`: true exactly when some glob of the
/// set matches the path.
#[verifier::external_body]
fn glob_set_is_match(set: &GlobSet, path: &str) -> (r: bool)
    ensures
        r == (exists|i: int| 0 <= i < set_globs(*set).len() && glob_matches(set_globs(*set)[i], path@)),
{
    set.is_match(path)
}

/// The rules among `rules` that compile, in order.
pub open spec fn valid_rules(rules: Seq<Seq<char>>) -> Seq<Seq<char>>
    decreases rules.len(),
{
    if rules.len() == 0 {
        seq![]
    } else if glob_valid(rules.last()) {
        valid_rules(rules.drop_last()).push(rules.last())
    } else {
        valid_rules(rules.drop_last())
    }
}

/// The rules among `rules` that do not compile, in order.
pub open spec fn invalid_rules(rules: Seq<Seq<char>>) -> Seq<Seq<char>>
    decreases rules.len(),
{
    if rules.len() == 0 {
        seq![]
    } else if glob_valid(rules.last()) {
        invalid_rules(rules.drop_last())
    } else {
        invalid_rules(rules.drop_last()).push(rules.last())
    }
}

/// Whether an entry with this full path and base name is excluded: one of the
/// compiled `patterns` matches one of the two.
pub open spec fn excluded(path: Seq<char>, name: Seq<char>, patterns: Seq<Seq<char>>) -> bool {
    exists|i: int|
        0 <= i < patterns.len() && (glob_matches(#[trigger] patterns[i], path) || glob_matches(
            patterns[i],
            name,
        ))
}

/// The exclusion rules, each compiled once.
pub struct Exclusions {
    sets: Vec<GlobSet>,
    patterns: Ghost<Seq<Seq<char>>>,
}

impl View for Exclusions {
    type V = Seq<Seq<char>>;

    /// The patterns of the compiled rules, in order.
    closed spec fn view(&self) -> Seq<Seq<char>> {
        self.patterns@
    }
}

impl Exclusions {
    /// Each compiled set holds its pattern alone.
    pub closed spec fn wf(&self) -> bool {
        &&& self.sets@.len() == self.patterns@.len()
        &&& forall|i: int|
            0 <= i < self.sets@.len() ==> set_globs(#[trigger] self.sets@[i]) == seq![
                self.patterns@[i],
            ]
    }
}

/// Compiles the exclusion rules of a configuration. The first result holds
/// the rules that compile, in order; the second lists those that do not, so
/// that they can be reported. A rule that does not compile excludes nothing.
pub fn compile_exclusions(configuration: &Configuration) -> (r: (Exclusions, Vec<String>))
    ensures
        r.0.wf(),
        r.0@ == valid_rules(exclusion_rules(configuration)),
        r.1@.map_values(|s: String| s@) == invalid_rules(exclusion_rules(configuration)),
{
    let ghost rules = exclusion_rules(configuration);
    let mut sets: Vec<GlobSet> = Vec::new();
    let ghost mut patterns: Seq<Seq<char>> = seq![];
    let mut invalid: Vec<String> = Vec::new();
    let mut i: usize = 0;
    assert(invalid@.map_values(|s: String| s@) =~= seq![]);
    while i < configuration.exclude.len()
        invariant
            0 <= i <= configuration.exclude@.len(),
            rules == exclusion_rules(configuration),
            sets@.len() == patterns.len(),
            forall|k: int| 0 <= k < sets@.len() ==> set_globs(#[trigger] sets@[k]) == seq![patterns[k]],
            patterns == valid_rules(rules.take(i as int)),
            invalid@.map_values(|s: String| s@) == invalid_rules(rules.take(i as int)),
        decreases configuration.exclude@.len() - i,
    {
        let rule = &configuration.exclude[i];
        proof {
            assert(rules.take(i + 1).drop_last() =~= rules.take(i as int));
            assert(rules.take(i + 1).last() == rule@);
        }
        match glob_set_of(rule.as_str()) {
            Some(set) => {
                sets.push(set);
                proof {
                    patterns = patterns.push(rule@);
                }
                assert(invalid@.map_values(|s: String| s@) =~= invalid_rules(rules.take(i + 1)));
            },
            None => {
                let ghost before = invalid@;
                invalid.push(rule.clone());
                assert(invalid@.map_values(|s: String| s@) =~= before.map_values(|s: String| s@).push(rule@));
            },
        }
        i = i + 1;
    }
    assert(rules.take(i as int) =~= rules);
    (Exclusions { sets, patterns: Ghost(patterns) }, invalid)
}

/// One entry of a directory walk: its full path, its base name, and whether
/// it is a file.
pub struct WalkEntry {
    pub path: String,
    pub file_name: String,
    pub is_file: bool,
}

/// Whether the entry is excluded by the compiled rules.
pub fn is_excluded(entry: &WalkEntry, exclusions: &Exclusions) -> (r: bool)
    requires
        exclusions.wf(),
    ensures
        r == excluded(entry.path@, entry.file_name@, exclusions@),
{
    let ghost patterns = exclusions@;
    let mut found = false;
    let mut i: usize = 0;
    while i < exclusions.sets.len()
        invariant
            0 <= i <= exclusions.sets@.len(),
            exclusions.wf(),
            patterns == exclusions@,
            found == exists|k: int|
                0 <= k < i && (glob_matches(#[trigger] patterns[k], entry.path@) || glob_matches(
                    patterns[k],
                    entry.file_name@,
                )),
        decreases exclusions.sets@.len() - i,
    {
        let set = &exclusions.sets[i];
        let ghost globs = set_globs(*set);
        assert(globs == seq![patterns[i as int]]);
        let on_path = glob_set_is_match(set, entry.path.as_str());
        let on_name = glob_set_is_match(set, entry.file_name.as_str());
        proof {
            if on_path {
                let j = choose|j: int| 0 <= j < globs.len() && glob_matches(#[trigger] globs[j], entry.path@);
                assert(j == 0);
            }
            if on_name {
                let j = choose|j: int| 0 <= j < globs.len() && glob_matches(#[trigger] globs[j], entry.file_name@);
                assert(j == 0);
            }
            if glob_matches(patterns[i as int], entry.path@) {
                assert(glob_matches(globs[0], entry.path@));
            }
            if glob_matches(patterns[i as int], entry.file_name@) {
                assert(glob_matches(globs[0], entry.file_name@));
            }
        }
        if on_path || on_name {
            found = true;
        }
        i = i + 1;
    }
    found
}

/// Lexicographic order of paths, character by character.
pub open spec fn path_less(a: Seq<char>, b: Seq<char>) -> bool
    decreases a.len(),
{
    if a.len() == 0 {
        b.len() > 0
    } else if b.len() == 0 {
        false
    } else if a[0] != b[0] {
        a[0] < b[0]
    } else {
        path_less(a.drop_first(), b.drop_first())
    }
}

proof fn lemma_path_less_irreflexive(a: Seq<char>)
    ensures
        !path_less(a, a),
    decreases a.len(),
{
    if a.len() > 0 {
        lemma_path_less_irreflexive(a.drop_first());
    }
}

proof fn lemma_path_less_transitive(a: Seq<char>, b: Seq<char>, c: Seq<char>)
    requires
        path_less(a, b),
        path_less(b, c),
    ensures
        path_less(a, c),
    decreases a.len(),
{
    if a.len() > 0 && b.len() > 0 && c.len() > 0 && a[0] == b[0] && b[0] == c[0] {
        lemma_path_less_transitive(a.drop_first(), b.drop_first(), c.drop_first());
    }
}

/// Strictly increasing in the order of paths, hence without duplicates.
pub open spec fn paths_sorted(s: Seq<Seq<char>>) -> bool {
    forall|i: int, j: int| 0 <= i < j < s.len() ==> path_less(#[trigger] s[i], #[trigger] s[j])
}

/// Strings listed in order, each as its characters.
pub open spec fn listed(v: Seq<String>) -> Seq<Seq<char>> {
    v.map_values(|s: String| s@)
}

/// The paths that a set of strings holds, each as its characters.
pub open spec fn path_set(set: BTreeSet<String>) -> Set<Seq<char>> {
    set@.map(|p: String| p@)
}

/// Relies on `BTreeSet::insert`: afterwards the set also holds `path`, and
/// nothing else changed; the result tells whether it was absent. Two strings
/// are equal when they hold the same characters.
#[verifier::external_body]
fn btree_insert(set: &mut BTreeSet<String>, path: String) -> (r: bool)
    ensures
        path_set(*final(set)) == path_set(*old(set)).insert(path@),
        r == !path_set(*old(set)).contains(path@),
{
    set.insert(path)
}

/// Relies on `BTreeSet::iter`, which yields each element once in ascending
/// order, and on the order of `String`, which compares the UTF-8 bytes
/// lexicographically; UTF-8 encoding keeps the order of code points, so this
/// is the order of paths character by character.
#[verifier::external_body]
fn btree_in_order(set: &BTreeSet<String>) -> (r: Vec<String>)
    ensures
        paths_sorted(listed(r@)),
        forall|p: Seq<char>| #[trigger] listed(r@).contains(p) <==> path_set(*set).contains(p),
{
    set.iter().cloned().collect()
}

/// The files to check, each path once.
pub struct FileSet {
    paths: BTreeSet<String>,
}

impl View for FileSet {
    type V = Set<Seq<char>>;

    closed spec fn view(&self) -> Set<Seq<char>> {
        path_set(self.paths)
    }
}

impl FileSet {
    /// An empty set.
    pub fn new() -> (r: FileSet)
        ensures
            r@ == Set::<Seq<char>>::empty(),
    {
        let r = FileSet { paths: BTreeSet::new() };
        assert(r@ =~= Set::<Seq<char>>::empty());
        r
    }

    /// Adds `path`, unless the set holds it already. Returns whether it was
    /// added.
    pub fn insert(&mut self, path: String) -> (added: bool)
        ensures
            final(self)@ == old(self)@.insert(path@),
            added == !old(self)@.contains(path@),
    {
        btree_insert(&mut self.paths, path)
    }

    /// The paths of the set, each once, in the order of paths.
    pub fn paths(&self) -> (r: Vec<String>)
        ensures
            paths_sorted(listed(r@)),
            forall|p: Seq<char>| #[trigger] listed(r@).contains(p) <==> self@.contains(p),
    {
        btree_in_order(&self.paths)
    }
}

/// Two listings of paths in order that hold the same paths are equal: the
/// files that a discovery lists depend only on which files it found, not on
/// the order in which the walk met them.
pub proof fn lemma_same_paths_same_order(a: Seq<Seq<char>>, b: Seq<Seq<char>>)
    requires
        paths_sorted(a),
        paths_sorted(b),
        forall|p: Seq<char>| a.contains(p) <==> b.contains(p),
    ensures
        a == b,
    decreases a.len(),
{
    if a.len() == 0 {
        if b.len() > 0 {
            assert(b.contains(b[0]));
        }
        assert(a =~= b);
    } else {
        assert(a.contains(a[0]));
        let j = choose|j: int| 0 <= j < b.len() && b[j] == a[0];
        assert(b.contains(b[0]));
        let i = choose|i: int| 0 <= i < a.len() && a[i] == b[0];
        if j > 0 && i > 0 {
            lemma_path_less_transitive(a[0], a[i], a[0]);
            lemma_path_less_irreflexive(a[0]);
        }
        if j > 0 && i == 0 {
            lemma_path_less_irreflexive(a[0]);
        }
        if i > 0 && j == 0 {
            lemma_path_less_irreflexive(a[0]);
        }
        assert(a[0] == b[0]);
        let a1 = a.drop_first();
        let b1 = b.drop_first();
        assert forall|p: Seq<char>| a1.contains(p) <==> b1.contains(p) by {
            if a1.contains(p) {
                let k = choose|k: int| 0 <= k < a1.len() && a1[k] == p;
                assert(a[k + 1] == p);
                assert(b.contains(p));
                let m = choose|m: int| 0 <= m < b.len() && b[m] == p;
                if m == 0 {
                    lemma_path_less_irreflexive(a[0]);
                }
                assert(b1[m - 1] == p);
            }
            if b1.contains(p) {
                let k = choose|k: int| 0 <= k < b1.len() && b1[k] == p;
                assert(b[k + 1] == p);
                assert(a.contains(p));
                let m = choose|m: int| 0 <= m < a.len() && a[m] == p;
                if m == 0 {
                    lemma_path_less_irreflexive(b[0]);
                }
                assert(a1[m - 1] == p);
            }
        }
        lemma_same_paths_same_order(a1, b1);
        assert(a =~= seq![a[0]] + a1);
        assert(b =~= seq![b[0]] + b1);
    }
}

/// Considers one entry of the walk over the requested paths. `entry` is
/// `None` when the walk reported an error, which ends the discovery. A file
/// that no compiled rule excludes joins `all_files`. The result is whether the walk
/// must skip the entry's children: exactly when the entry is an excluded
/// directory, so that nothing inside it is visited or collected.
pub fn consider_collecting_file(
    entry: Option<&WalkEntry>,
    all_files: &mut FileSet,
    exclusions: &Exclusions,
) -> (r: Result<bool, AntisepticError>)
    requires
        exclusions.wf(),
    ensures
        match entry {
            None => {
                &&& r == Err::<bool, AntisepticError>(AntisepticError::WalkDirIterAborts)
                &&& final(all_files)@ == old(all_files)@
            },
            Some(e) => {
                let ex = excluded(e.path@, e.file_name@, exclusions@);
                if !e.is_file {
                    &&& r == Ok::<bool, AntisepticError>(ex)
                    &&& final(all_files)@ == old(all_files)@
                } else if ex {
                    &&& r == Ok::<bool, AntisepticError>(false)
                    &&& final(all_files)@ == old(all_files)@
                } else {
                    &&& r == Ok::<bool, AntisepticError>(false)
                    &&& final(all_files)@ == old(all_files)@.insert(e.path@)
                }
            },
        },
{
    let entry = match entry {
        None => {
            return Err(AntisepticError::WalkDirIterAborts);
        },
        Some(e) => e,
    };
    let excluded = is_excluded(entry, exclusions);
    if !entry.is_file {
        return Ok(excluded);
    }
    if !excluded {
        all_files.insert(entry.path.clone());
    }
    Ok(false)
}

} // verus!
