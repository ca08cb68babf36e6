//! Applying an ordered list of patch records to a tree of files held in memory.
use vstd::prelude::*;
use vstd::utf8::{encode_utf8, encode_utf8_valid_utf8, valid_utf8};
use crate::editor::{
    contains, lemma_first_from, lemma_replace_all_keeps_utf8, lemma_replacement_occurs, occurs_at,
    replace_all,
};
use crate::matcher::{
    get_match_pattern, outcome, patch_file, regex_error, regex_valid, MatchPattern, MatchType, MatcherModel,
};

verus! {

#[verifier::external_type_specification]
#[verifier::external_body]
pub struct ExPattern(glob::Pattern);

/// The glob crate accepts `pattern` as a glob.
pub uninterp spec fn glob_valid(pattern: Seq<char>) -> bool;

/// The glob `pattern` matches `path`, wildcards not crossing a separator.
pub uninterp spec fn glob_matches(pattern: Seq<char>, path: Seq<char>) -> bool;

/// A compiled glob together with the source it was compiled from; only
/// `compile_glob` builds one.
pub struct PathGlob {
    pat: glob::Pattern,
    source: String,
}

impl PathGlob {
    /// The source of the glob.
    pub closed spec fn source_view(&self) -> Seq<char> {
        self.source@
    }
}

/// Relies on glob::Pattern::new: it accepts or refuses a pattern on its text alone.
#[verifier::external_body]
fn compile_glob_raw(pattern: &str) -> (r: Option<glob::Pattern>)
    ensures
        r is Some <==> glob_valid(pattern@),
{
    glob::Pattern::new(pattern).ok()
}

/// Relies on glob::Pattern::matches_with, case-sensitive, with wildcards
/// that do not match a path separator: whether the glob matches `path`.
#[verifier::external_body]
fn glob_match(g: &PathGlob, path: &str) -> (r: bool)
    ensures
        r == glob_matches(g.source_view(), path@),
{
    let options = glob::MatchOptions {
        case_sensitive: true,
        require_literal_separator: true,
        require_literal_leading_dot: false,
    };
    g.pat.matches_with(path, options)
}

/// Compiles a glob, or `None` where its syntax is invalid.
pub fn compile_glob(pattern: &str) -> (r: Option<PathGlob>)
    ensures
        r is Some <==> glob_valid(pattern@),
        r matches Some(g) ==> g.source_view() == pattern@,
{
    match compile_glob_raw(pattern) {
        Some(pat) => Some(PathGlob { pat, source: pattern.to_owned() }),
        None => None,
    }
}

/// One file of the tree: its path relative to the tree's root, and its bytes.
pub struct SourceFile {
    pub path: String,
    pub contents: Vec<u8>,
}

/// One declarative rule: the files it targets, how its pattern is read, and
/// the replacement. `info` documents the rule and is not read.
pub struct Patch {
    pub name: String,
    pub info: String,
    pub filepaths: Vec<String>,
    pub match_type: MatchType,
    pub match_pattern: String,
    pub replace: String,
}

/// Why a run stopped.
pub enum PatchError {
    /// The regular expression of the named patch does not compile.
    PatternCompile { patch: String, message: String },
    /// A glob of a patch is malformed.
    InvalidGlob { pattern: String },
    /// A file that a patch targets is not UTF-8 text.
    Decode { path: String },
    /// The named patch matched no file.
    NoMatch { patch: String },
}

/// What a `PatchError` reports, as plain values.
pub enum Failure {
    PatternCompile(Seq<char>, Seq<char>),
    InvalidGlob(Seq<char>),
    Decode(Seq<char>),
    NoMatch(Seq<char>),
}

impl PatchError {
    pub open spec fn failure(&self) -> Failure {
        match self {
            PatchError::PatternCompile { patch, message } => Failure::PatternCompile(
                patch@,
                message@,
            ),
            PatchError::InvalidGlob { pattern } => Failure::InvalidGlob(pattern@),
            PatchError::Decode { path } => Failure::Decode(path@),
            PatchError::NoMatch { patch } => Failure::NoMatch(patch@),
        }
    }
}

/// A patch record as plain values.
pub struct PatchModel {
    pub name: Seq<char>,
    pub globs: Seq<Seq<char>>,
    pub match_type: MatchType,
    pub pattern: Seq<char>,
    pub replace: Seq<char>,
}

pub open spec fn strs(v: Seq<String>) -> Seq<Seq<char>> {
    v.map_values(|s: String| s@)
}

impl Patch {
    pub open spec fn model(&self) -> PatchModel {
        PatchModel {
            name: self.name@,
            globs: strs(self.filepaths@),
            match_type: self.match_type,
            pattern: self.match_pattern@,
            replace: self.replace@,
        }
    }
}

/// A tree of files as plain values: (path, contents) in tree order.
pub type Tree = Seq<(Seq<char>, Seq<u8>)>;

pub open spec fn tree_view(t: Seq<SourceFile>) -> Tree {
    t.map_values(|f: SourceFile| (f.path@, f.contents@))
}

/// The paths, in tree order from index `k` on, that the glob `g` matches.
pub open spec fn resolved(tree: Tree, g: Seq<char>, k: int) -> Seq<Seq<char>>
    decreases tree.len() - k,
{
    if k < 0 || k >= tree.len() {
        Seq::empty()
    } else if glob_matches(g, tree[k].0) {
        seq![tree[k].0] + resolved(tree, g, k + 1)
    } else {
        resolved(tree, g, k + 1)
    }
}

/// The paths of the tree that `pattern` matches, in tree order, or `None`
/// where the glob is malformed. No match is not an error here.
pub fn resolve(tree: &Vec<SourceFile>, pattern: &str) -> (r: Option<Vec<String>>)
    ensures
        r is Some <==> glob_valid(pattern@),
        r matches Some(v) ==> strs(v@) == resolved(tree_view(tree@), pattern@, 0),
{
    let g = match compile_glob(pattern) {
        Some(g) => g,
        None => return None,
    };
    let mut out: Vec<String> = Vec::new();
    let mut k: usize = 0;
    assert(strs(out@) =~= Seq::<Seq<char>>::empty());
    while k < tree.len()
        invariant
            k <= tree.len(),
            g.source_view() == pattern@,
            strs(out@) + resolved(tree_view(tree@), pattern@, k as int) == resolved(
                tree_view(tree@),
                pattern@,
                0,
            ),
        decreases tree.len() - k,
    {
        let ghost before = strs(out@);
        if glob_match(&g, tree[k].path.as_str()) {
            out.push(tree[k].path.clone());
            assert(strs(out@) =~= before.push(tree_view(tree@)[k as int].0));
            assert(before + (seq![tree_view(tree@)[k as int].0] + resolved(tree_view(tree@), pattern@, k + 1))
                =~= strs(out@) + resolved(tree_view(tree@), pattern@, k + 1));
        }
        k += 1;
    }
    assert(strs(out@) + Seq::<Seq<char>>::empty() =~= strs(out@));
    Some(out)
}

/// Applies a matcher to the files from index `k` on whose path `g` matches,
/// in tree order, rewriting each file that matched; `hits` collects the
/// paths of the files that matched.
pub open spec fn run_files(
    tree: Tree,
    g: Seq<char>,
    m: MatcherModel,
    rep: Seq<char>,
    k: int,
    hits: Seq<Seq<char>>,
) -> Result<(Tree, Seq<Seq<char>>), (Failure, Tree)>
    decreases tree.len() - k,
{
    if k < 0 || k >= tree.len() {
        Ok((tree, hits))
    } else if !glob_matches(g, tree[k].0) {
        run_files(tree, g, m, rep, k + 1, hits)
    } else {
        match outcome(tree[k].1, m, rep) {
            None => Err((Failure::Decode(tree[k].0), tree)),
            Some((found, buf)) => if found {
                run_files(tree.update(k, (tree[k].0, buf)), g, m, rep, k + 1, hits.push(tree[k].0))
            } else {
                run_files(tree, g, m, rep, k + 1, hits)
            },
        }
    }
}

/// Runs the globs from index `j` on, in order, each over the tree that the
/// previous one left.
pub open spec fn run_globs(
    tree: Tree,
    globs: Seq<Seq<char>>,
    j: int,
    m: MatcherModel,
    rep: Seq<char>,
    hits: Seq<Seq<char>>,
) -> Result<(Tree, Seq<Seq<char>>), (Failure, Tree)>
    decreases globs.len() - j,
{
    if j < 0 || j >= globs.len() {
        Ok((tree, hits))
    } else if !glob_valid(globs[j]) {
        Err((Failure::InvalidGlob(globs[j]), tree))
    } else {
        match run_files(tree, globs[j], m, rep, 0, hits) {
            Err(e) => Err(e),
            Ok((t, h)) => run_globs(t, globs, j + 1, m, rep, h),
        }
    }
}

pub open spec fn matcher_of(p: PatchModel) -> MatcherModel {
    match p.match_type {
        MatchType::Literal => MatcherModel::Literal(p.pattern),
        MatchType::Regex => MatcherModel::Regex(p.pattern),
    }
}

/// One patch over the tree: the new tree and the paths that matched, or the
/// failure with the tree as it stands when the patch stops (files rewritten
/// before that point stay rewritten). A patch that matches no file fails.
pub open spec fn run_patch(tree: Tree, p: PatchModel) -> Result<(Tree, Seq<Seq<char>>), (Failure, Tree)> {
    if p.match_type == MatchType::Regex && !regex_valid(p.pattern) {
        Err((Failure::PatternCompile(p.name, regex_error(p.pattern)), tree))
    } else {
        match run_globs(tree, p.globs, 0, matcher_of(p), p.replace, Seq::empty()) {
            Err(e) => Err(e),
            Ok((t, h)) => if h.len() == 0 {
                Err((Failure::NoMatch(p.name), t))
            } else {
                Ok((t, h))
            },
        }
    }
}

/// The patches from index `i` on, in declared order, each over the tree that
/// the previous one left; stops at the first failure, whose tree is the one
/// that patch left: nothing is rolled back, and later patches do not run.
pub open spec fn run_all(tree: Tree, ps: Seq<PatchModel>, i: int) -> Result<
    (Tree, Seq<Seq<Seq<char>>>),
    (Failure, Tree),
>
    decreases ps.len() - i,
{
    if i < 0 || i >= ps.len() {
        Ok((tree, Seq::empty()))
    } else {
        match run_patch(tree, ps[i]) {
            Err(e) => Err(e),
            Ok((t, h)) => match run_all(t, ps, i + 1) {
                Err(e) => Err(e),
                Ok((t2, hs)) => Ok((t2, seq![h] + hs)),
            },
        }
    }
}

/// Applies a matcher to every file of the tree whose path `g` matches, in
/// tree order, writing back each file that matched and recording its path.
fn apply_glob(
    tree: &mut Vec<SourceFile>,
    g: &PathGlob,
    m: &MatchPattern,
    rep: &str,
    hits: &mut Vec<String>,
) -> (r: Result<(), PatchError>)
    ensures
        match r {
            Ok(()) => run_files(tree_view(old(tree)@), g.source_view(), m.model(), rep@, 0, strs(old(hits)@))
                == Ok::<(Tree, Seq<Seq<char>>), (Failure, Tree)>(
                (tree_view(final(tree)@), strs(final(hits)@)),
            ),
            Err(e) => run_files(tree_view(old(tree)@), g.source_view(), m.model(), rep@, 0, strs(old(hits)@))
                == Err::<(Tree, Seq<Seq<char>>), (Failure, Tree)>((e.failure(), tree_view(final(tree)@))),
        },
        r matches Err(e) ==> e is Decode,
{
    let mut k: usize = 0;
    while k < tree.len()
        invariant
            run_files(tree_view(old(tree)@), g.source_view(), m.model(), rep@, 0, strs(old(hits)@))
                == run_files(tree_view(tree@), g.source_view(), m.model(), rep@, k as int, strs(hits@)),
            k <= tree.len(),
        decreases tree.len() - k,
    {
        if glob_match(g, tree[k].path.as_str()) {
            match patch_file(tree[k].contents.as_slice(), m, rep) {
                None => {
                    return Err(PatchError::Decode { path: tree[k].path.clone() });
                },
                Some(o) => {
                    if o.matched {
                        let path = tree[k].path.clone();
                        let ghost before_tree = tree@;
                        let ghost before_hits = hits@;
                        hits.push(path.clone());
                        tree.set(k, SourceFile { path, contents: o.buffer });
                        assert(tree_view(tree@) =~= tree_view(before_tree).update(
                            k as int,
                            (tree_view(before_tree)[k as int].0, o.buffer@),
                        ));
                        assert(strs(hits@) =~= strs(before_hits).push(
                            tree_view(before_tree)[k as int].0,
                        ));
                    }
                },
            }
        }
        k += 1;
    }
    Ok(())
}

/// Applies one patch to the tree: each of its globs in declared order, each
/// over the tree that the previous one left. Returns the paths of the files
/// that matched, one entry per match. A patch that matches no file fails,
/// and then has changed nothing; so does one whose expression does not
/// compile.
pub fn apply_patch(tree: &mut Vec<SourceFile>, patch: &Patch) -> (r: Result<Vec<String>, PatchError>)
    ensures
        match r {
            Ok(hits) => run_patch(tree_view(old(tree)@), patch.model()) == Ok::<
                (Tree, Seq<Seq<char>>),
                (Failure, Tree),
            >((tree_view(final(tree)@), strs(hits@))),
            Err(e) => run_patch(tree_view(old(tree)@), patch.model()) == Err::<
                (Tree, Seq<Seq<char>>),
                (Failure, Tree),
            >((e.failure(), tree_view(final(tree)@))),
        },
        r matches Err(PatchError::NoMatch { .. }) ==> tree_view(final(tree)@) == tree_view(
            old(tree)@,
        ),
        r matches Err(PatchError::PatternCompile { .. }) ==> final(tree)@ == old(tree)@,
{
    let m = match get_match_pattern(patch.match_type, patch.match_pattern.clone()) {
        Ok(m) => m,
        Err(message) => {
            return Err(PatchError::PatternCompile { patch: patch.name.clone(), message });
        },
    };
    let ghost start = tree_view(tree@);
    let mut hits: Vec<String> = Vec::new();
    let mut j: usize = 0;
    assert(strs(hits@) =~= Seq::<Seq<char>>::empty());
    while j < patch.filepaths.len()
        invariant
            m.model() == matcher_of(patch.model()),
            !(patch.match_type == MatchType::Regex && !regex_valid(patch.match_pattern@)),
            start == tree_view(old(tree)@),
            j <= patch.filepaths.len(),
            run_globs(start, patch.model().globs, 0, m.model(), patch.replace@, Seq::empty())
                == run_globs(tree_view(tree@), patch.model().globs, j as int, m.model(), patch.replace@, strs(hits@)),
            hits@.len() == 0 ==> tree_view(tree@) == start,
        decreases patch.filepaths.len() - j,
    {
        assert(patch.model().globs[j as int] == patch.filepaths@[j as int]@);
        let g = match compile_glob(patch.filepaths[j].as_str()) {
            Some(g) => g,
            None => {
                return Err(PatchError::InvalidGlob { pattern: patch.filepaths[j].clone() });
            },
        };
        let ghost t0 = tree_view(tree@);
        let ghost h0 = strs(hits@);
        match apply_glob(tree, &g, &m, patch.replace.as_str(), &mut hits) {
            Ok(()) => {},
            Err(e) => {
                return Err(e);
            },
        }
        proof {
            lemma_run_files_grows(t0, g.source_view(), m.model(), patch.replace@, 0, h0);
        }
        j += 1;
    }
    if hits.len() == 0 {
        return Err(PatchError::NoMatch { patch: patch.name.clone() });
    }
    Ok(hits)
}

/// `run_files` only adds paths, and changes the tree only when it adds one.
pub proof fn lemma_run_files_grows(
    tree: Tree,
    g: Seq<char>,
    m: MatcherModel,
    rep: Seq<char>,
    k: int,
    hits: Seq<Seq<char>>,
)
    requires
        0 <= k,
    ensures
        run_files(tree, g, m, rep, k, hits) matches Ok((t, h)) ==> h.len() >= hits.len() && (h.len()
            == hits.len() ==> t == tree),
    decreases tree.len() - k,
{
    if k < tree.len() {
        lemma_run_files_grows(tree, g, m, rep, k + 1, hits);
        if glob_matches(g, tree[k].0) {
            if let Some((found, buf)) = outcome(tree[k].1, m, rep) {
                if found {
                    lemma_run_files_grows(
                        tree.update(k, (tree[k].0, buf)),
                        g,
                        m,
                        rep,
                        k + 1,
                        hits.push(tree[k].0),
                    );
                }
            }
        }
    }
}

pub open spec fn models(ps: Seq<Patch>) -> Seq<PatchModel> {
    ps.map_values(|p: Patch| p.model())
}

pub open spec fn hit_lists(hs: Seq<Vec<String>>) -> Seq<Seq<Seq<char>>> {
    hs.map_values(|h: Vec<String>| strs(h@))
}

/// `r` with the match lists `done` put in front of its own.
pub open spec fn after(done: Seq<Seq<Seq<char>>>, r: Result<(Tree, Seq<Seq<Seq<char>>>), (Failure, Tree)>) -> Result<
    (Tree, Seq<Seq<Seq<char>>>),
    (Failure, Tree),
> {
    match r {
        Err(e) => Err(e),
        Ok((t, hs)) => Ok((t, done + hs)),
    }
}

/// Applies the patches in declared order, each to the tree that the previous
/// one left, and stops at the first failure (earlier patches stay applied).
/// Returns, for each patch, the paths of the files it matched. On failure the
/// tree is left as the failing patch left it.
pub fn apply_patches(tree: &mut Vec<SourceFile>, patches: Vec<Patch>) -> (r: Result<
    Vec<Vec<String>>,
    PatchError,
>)
    ensures
        match r {
            Ok(hs) => run_all(tree_view(old(tree)@), models(patches@), 0) == Ok::<
                (Tree, Seq<Seq<Seq<char>>>),
                (Failure, Tree),
            >((tree_view(final(tree)@), hit_lists(hs@))),
            Err(e) => run_all(tree_view(old(tree)@), models(patches@), 0) == Err::<
                (Tree, Seq<Seq<Seq<char>>>),
                (Failure, Tree),
            >((e.failure(), tree_view(final(tree)@))),
        },
{
    let ghost ps = models(patches@);
    let mut all: Vec<Vec<String>> = Vec::new();
    let mut i: usize = 0;
    assert(hit_lists(all@) + Seq::<Seq<Seq<char>>>::empty() =~= hit_lists(all@));
    while i < patches.len()
        invariant
            ps == models(patches@),
            i <= patches.len(),
            run_all(tree_view(old(tree)@), ps, 0) == after(
                hit_lists(all@),
                run_all(tree_view(tree@), ps, i as int),
            ),
        decreases patches.len() - i,
    {
        assert(ps[i as int] == patches@[i as int].model());
        let ghost before = hit_lists(all@);
        match apply_patch(tree, &patches[i]) {
            Ok(hits) => {
                all.push(hits);
                assert(hit_lists(all@) =~= before.push(strs(hits@)));
                assert forall|hs: Seq<Seq<Seq<char>>>|
                    #![auto]
                    before + (seq![strs(hits@)] + hs) == hit_lists(all@) + hs by {
                    assert(before + (seq![strs(hits@)] + hs) =~= hit_lists(all@) + hs);
                }
            },
            Err(e) => {
                return Err(e);
            },
        }
        i += 1;
    }
    assert(hit_lists(all@) + Seq::<Seq<Seq<char>>>::empty() =~= hit_lists(all@));
    Ok(all)
}

/// `data` is text in which the matcher finds nothing.
pub open spec fn unmatched(data: Seq<u8>, m: MatcherModel, rep: Seq<char>) -> bool {
    match outcome(data, m, rep) {
        Some((found, _)) => !found,
        None => false,
    }
}

proof fn lemma_run_files_no_match(
    tree: Tree,
    g: Seq<char>,
    m: MatcherModel,
    rep: Seq<char>,
    k: int,
    hits: Seq<Seq<char>>,
)
    requires
        0 <= k,
        forall|f: int|
            k <= f < tree.len() && glob_matches(g, tree[f].0) ==> #[trigger] unmatched(tree[f].1, m, rep),
    ensures
        run_files(tree, g, m, rep, k, hits) == Ok::<(Tree, Seq<Seq<char>>), (Failure, Tree)>((tree, hits)),
    decreases tree.len() - k,
{
    if k < tree.len() {
        lemma_run_files_no_match(tree, g, m, rep, k + 1, hits);
        if glob_matches(g, tree[k].0) {
            assert(unmatched(tree[k].1, m, rep));
        }
    }
}

proof fn lemma_run_globs_no_match(
    tree: Tree,
    globs: Seq<Seq<char>>,
    j: int,
    m: MatcherModel,
    rep: Seq<char>,
)
    requires
        0 <= j,
        forall|i: int| 0 <= i < globs.len() ==> glob_valid(#[trigger] globs[i]),
        forall|i: int, f: int|
            0 <= i < globs.len() && 0 <= f < tree.len() && #[trigger] glob_matches(globs[i], tree[f].0)
                ==> unmatched(tree[f].1, m, rep),
    ensures
        run_globs(tree, globs, j, m, rep, Seq::empty()) == Ok::<(Tree, Seq<Seq<char>>), (Failure, Tree)>(
            (tree, Seq::empty()),
        ),
    decreases globs.len() - j,
{
    if j < globs.len() {
        assert forall|f: int|
            0 <= f < tree.len() && glob_matches(globs[j], tree[f].0) implies #[trigger] unmatched(
            tree[f].1,
            m,
            rep,
        ) by {}
        lemma_run_files_no_match(tree, globs[j], m, rep, 0, Seq::empty());
        lemma_run_globs_no_match(tree, globs, j + 1, m, rep);
    }
}

/// A patch whose globs select only files in which its pattern is not found
/// fails with `NoMatch`, and its globs leave every file as it was.
pub proof fn lemma_zero_match_detected(tree: Tree, p: PatchModel)
    requires
        p.match_type == MatchType::Regex ==> regex_valid(p.pattern),
        forall|i: int| 0 <= i < p.globs.len() ==> glob_valid(#[trigger] p.globs[i]),
        forall|i: int, f: int|
            0 <= i < p.globs.len() && 0 <= f < tree.len() && #[trigger] glob_matches(
                p.globs[i],
                tree[f].0,
            ) ==> unmatched(tree[f].1, matcher_of(p), p.replace),
    ensures
        run_globs(tree, p.globs, 0, matcher_of(p), p.replace, Seq::empty()) == Ok::<
            (Tree, Seq<Seq<char>>),
            (Failure, Tree),
        >((tree, Seq::empty())),
        run_patch(tree, p) == Err::<(Tree, Seq<Seq<char>>), (Failure, Tree)>((Failure::NoMatch(p.name), tree)),
{
    lemma_run_globs_no_match(tree, p.globs, 0, matcher_of(p), p.replace);
}

proof fn lemma_literal_found(c: Seq<u8>, x: Seq<char>, rep: Seq<char>)
    requires
        valid_utf8(c),
        encode_utf8(x).len() > 0,
        contains(c, encode_utf8(x)),
    ensures
        outcome(c, MatcherModel::Literal(x), rep) == Some(
            (true, replace_all(c, encode_utf8(x), encode_utf8(rep))),
        ),
{
    lemma_first_from(c, encode_utf8(x), 0);
}

/// A single-file tree on which a literal patch with one glob selecting the
/// file finds its pattern: the patch succeeds and rewrites the file.
proof fn lemma_single_file_literal(path: Seq<char>, c: Seq<u8>, p: PatchModel)
    requires
        p.match_type == MatchType::Literal,
        p.globs.len() == 1,
        glob_valid(p.globs[0]),
        glob_matches(p.globs[0], path),
        valid_utf8(c),
        encode_utf8(p.pattern).len() > 0,
        contains(c, encode_utf8(p.pattern)),
    ensures
        run_patch(seq![(path, c)], p) == Ok::<(Tree, Seq<Seq<char>>), (Failure, Tree)>(
            (
                seq![(path, replace_all(c, encode_utf8(p.pattern), encode_utf8(p.replace)))],
                seq![path],
            ),
        ),
{
    let tree: Tree = seq![(path, c)];
    let m = matcher_of(p);
    let c1 = replace_all(c, encode_utf8(p.pattern), encode_utf8(p.replace));
    let t1: Tree = seq![(path, c1)];
    lemma_literal_found(c, p.pattern, p.replace);
    assert(tree.update(0, (path, c1)) =~= t1);
    let e: Seq<Seq<char>> = Seq::empty();
    assert(run_files(t1, p.globs[0], m, p.replace, 1, e.push(path)) == Ok::<
        (Tree, Seq<Seq<char>>),
        (Failure, Tree),
    >((t1, e.push(path))));
    assert(run_files(tree, p.globs[0], m, p.replace, 0, e) == Ok::<(Tree, Seq<Seq<char>>), (Failure, Tree)>(
        (t1, e.push(path)),
    ));
    assert(run_globs(t1, p.globs, 1, m, p.replace, e.push(path)) == Ok::<
        (Tree, Seq<Seq<char>>),
        (Failure, Tree),
    >((t1, e.push(path))));
    assert(run_globs(tree, p.globs, 0, m, p.replace, e) == Ok::<(Tree, Seq<Seq<char>>), (Failure, Tree)>(
        (t1, e.push(path)),
    ));
    assert(e.push(path) =~= seq![path]);
}

/// Order matters: where patch `a` replaces, in file `path`, a pattern found
/// there by text that holds the pattern of patch `b`, running `a` then `b`
/// succeeds; `b` run alone on a file that lacks its pattern fails with
/// `NoMatch`.
pub proof fn lemma_ordering_dependency(path: Seq<char>, c: Seq<u8>, a: PatchModel, b: PatchModel)
    requires
        a.match_type == MatchType::Literal,
        b.match_type == MatchType::Literal,
        a.globs.len() == 1,
        b.globs.len() == 1,
        glob_valid(a.globs[0]),
        glob_valid(b.globs[0]),
        glob_matches(a.globs[0], path),
        glob_matches(b.globs[0], path),
        valid_utf8(c),
        encode_utf8(a.pattern).len() > 0,
        encode_utf8(b.pattern).len() > 0,
        contains(c, encode_utf8(a.pattern)),
        contains(encode_utf8(a.replace), encode_utf8(b.pattern)),
    ensures
        run_all(seq![(path, c)], seq![a, b], 0) is Ok,
        !contains(c, encode_utf8(b.pattern)) ==> run_patch(seq![(path, c)], b) == Err::<
            (Tree, Seq<Seq<char>>),
            (Failure, Tree),
        >((Failure::NoMatch(b.name), seq![(path, c)])),
{
    let ea = encode_utf8(a.pattern);
    let ra = encode_utf8(a.replace);
    let eb = encode_utf8(b.pattern);
    let c1 = replace_all(c, ea, ra);
    encode_utf8_valid_utf8(a.pattern);
    encode_utf8_valid_utf8(a.replace);
    lemma_replace_all_keeps_utf8(c, ea, ra);
    lemma_first_from(c, ea, 0);
    let mi = choose|mi: int| occurs_at(ra, eb, mi);
    lemma_replacement_occurs(c, ea, ra, eb, mi);
    assert(contains(c1, eb));
    lemma_single_file_literal(path, c, a);
    lemma_single_file_literal(path, c1, b);
    let ps = seq![a, b];
    let t1: Tree = seq![(path, c1)];
    let c2 = replace_all(c1, eb, encode_utf8(b.replace));
    let t2: Tree = seq![(path, c2)];
    assert(ps[0] == a && ps[1] == b);
    assert(run_all(t2, ps, 2) is Ok);
    assert(run_all(t1, ps, 1) is Ok);
    assert(run_all(seq![(path, c)], ps, 0) is Ok);
    if !contains(c, eb) {
        lemma_first_from(c, eb, 0);
        assert(unmatched(c, matcher_of(b), b.replace));
        lemma_zero_match_detected(seq![(path, c)], b);
    }
}

/// No rollback: where the patches before index `i` succeed and patch `i`
/// fails, the whole run fails with that patch's failure and the tree it left,
/// which still holds the earlier patches' changes; the later patches do not run.
pub proof fn lemma_failure_keeps_earlier_patches(tree: Tree, ps: Seq<PatchModel>, i: int, j: int)
    requires
        0 <= j <= i < ps.len(),
        run_all(tree, ps.subrange(0, i), j) is Ok,
        run_patch(run_all(tree, ps.subrange(0, i), j)->Ok_0.0, ps[i]) is Err,
    ensures
        run_all(tree, ps, j) == Err::<(Tree, Seq<Seq<Seq<char>>>), (Failure, Tree)>(
            run_patch(run_all(tree, ps.subrange(0, i), j)->Ok_0.0, ps[i])->Err_0,
        ),
    decreases i - j,
{
    let pre = ps.subrange(0, i);
    if j < i {
        assert(pre[j] == ps[j]);
        let t = run_patch(tree, ps[j])->Ok_0.0;
        lemma_failure_keeps_earlier_patches(t, ps, i, j + 1);
    }
}

} // verus!
