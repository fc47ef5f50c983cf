//! Turning a `(target, base)` pair into the ordered list of index updates.

use vstd::prelude::*;
use vstd::string::*;
use crate::path::{
    dir_path, join_segments, last_dot, lemma_last_dot_bounds, split_path, split_segments, trim_dir,
    views, find_last_dot,
};

verus! {

/// Why a run stops before any index file is touched.
#[derive(Debug, Clone, Copy, PartialEq, Eq, Structural)]
pub enum BarrelError {
    /// The base is not an existing directory.
    InvalidBase,
    /// The target is not an existing regular file.
    InvalidTarget,
    /// A path cannot be read as text.
    PathEncoding,
    /// The target has no file name below the base directory.
    NotBelowBase,
    /// The target's file name holds no `.`.
    NoExtension,
}

/// The directories between a base and a target, and the target's export name.
pub struct Decomposition {
    /// From the base's first subdirectory down to the target's own directory.
    pub parent_folders: Vec<String>,
    /// The target's file name without its extension.
    pub export_name: String,
}

/// One directory whose index file must re-export `export_name`.
pub struct BacktrackStep {
    pub directory: String,
    pub export_name: String,
    /// Set only on the step closest to the target.
    pub is_leaf: bool,
}

pub open spec fn target_segments(target: Seq<char>) -> Seq<Seq<char>> {
    split_segments(target)
}

pub open spec fn base_segments(base: Seq<char>) -> Seq<Seq<char>> {
    split_segments(dir_path(base))
}

/// The target has a file name below the base: more segments than the base.
pub open spec fn is_below(target: Seq<char>, base: Seq<char>) -> bool {
    target_segments(target).len() > base_segments(base).len()
}

/// The target's segments after the base's, without the file name.
pub open spec fn parent_folders_of(target: Seq<char>, base: Seq<char>) -> Seq<Seq<char>> {
    target_segments(target).subrange(
        base_segments(base).len() as int,
        target_segments(target).len() - 1,
    )
}

pub open spec fn file_name_of(target: Seq<char>) -> Seq<char> {
    target_segments(target).last()
}

pub open spec fn has_extension(target: Seq<char>) -> bool {
    last_dot(file_name_of(target)) >= 0
}

/// The file name up to its last `.`.
pub open spec fn export_name_of(target: Seq<char>) -> Seq<char> {
    file_name_of(target).take(last_dot(file_name_of(target)))
}

/// Splits `target` against `base`: the folders in between and the name to export.
pub fn decompose(target: &str, base: &str) -> (r: Result<Decomposition, BarrelError>)
    ensures
        !is_below(target@, base@) ==> r == Err::<Decomposition, BarrelError>(
            BarrelError::NotBelowBase,
        ),
        is_below(target@, base@) && !has_extension(target@) ==> r == Err::<
            Decomposition,
            BarrelError,
        >(BarrelError::NoExtension),
        is_below(target@, base@) && has_extension(target@) ==> r is Ok && views(
            r->Ok_0.parent_folders@,
        ) == parent_folders_of(target@, base@) && r->Ok_0.export_name@ == export_name_of(
            target@,
        ),
{
    let tsegs = split_path(target);
    let bsegs = split_path(trim_dir(base));
    if tsegs.len() <= bsegs.len() {
        return Err(BarrelError::NotBelowBase);
    }
    let last = tsegs.len() - 1;
    let file = tsegs[last].as_str();
    assert(file@ == views(tsegs@)[last as int]);
    match find_last_dot(file) {
        None => Err(BarrelError::NoExtension),
        Some(k) => {
            proof {
                lemma_last_dot_bounds(file@);
            }
            let mut folders: Vec<String> = Vec::new();
            let mut j: usize = bsegs.len();
            while j < last
                invariant
                    bsegs@.len() <= j <= last,
                    last == tsegs@.len() - 1,
                    views(folders@) =~= views(tsegs@).subrange(bsegs@.len() as int, j as int),
                decreases last - j,
            {
                let ghost before = folders@;
                folders.push(tsegs[j].clone());
                assert(folders@.drop_last() == before);
                assert(views(folders@) =~= views(before).push(views(tsegs@)[j as int]));
                j += 1;
            }
            let name = String::from_str(file.substring_char(0, k));
            Ok(Decomposition { parent_folders: folders, export_name: name })
        },
    }
}

/// The directory of step `i`: the base, then the folders up to the `i`-th.
pub open spec fn step_directory(base: Seq<char>, folders: Seq<Seq<char>>, i: int) -> Seq<char> {
    base + seq!['/'] + join_segments(folders.take(i + 1))
}

/// The name that step `i` re-exports: the target's name on the leaf step,
/// else the next folder inward.
pub open spec fn step_export_name(folders: Seq<Seq<char>>, name: Seq<char>, i: int) -> Seq<
    char,
> {
    if i == folders.len() - 1 {
        name
    } else {
        folders[i + 1]
    }
}

pub open spec fn is_step_of(
    s: BacktrackStep,
    base: Seq<char>,
    folders: Seq<Seq<char>>,
    name: Seq<char>,
    i: int,
) -> bool {
    &&& s.directory@ == step_directory(base, folders, i)
    &&& s.export_name@ == step_export_name(folders, name, i)
    &&& s.is_leaf == (i == folders.len() - 1)
}

/// One step per folder, from the shallowest to the deepest.
pub open spec fn is_plan(
    steps: Seq<BacktrackStep>,
    base: Seq<char>,
    folders: Seq<Seq<char>>,
    name: Seq<char>,
) -> bool {
    &&& steps.len() == folders.len()
    &&& forall|i: int|
        0 <= i < steps.len() ==> is_step_of(#[trigger] steps[i], base, folders, name, i)
}

/// Plans one index update per folder below `base_path`.
pub fn calc_back_paths(parent_folders: &Vec<String>, base_path: &str, target_name: &str) -> (r: Vec<
    BacktrackStep,
>)
    ensures
        is_plan(r@, base_path@, views(parent_folders@), target_name@),
{
    let ghost folders = views(parent_folders@);
    let n = parent_folders.len();
    let mut steps: Vec<BacktrackStep> = Vec::new();
    let mut dir = String::from_str(base_path);
    let sep = "/";
    proof {
        reveal_strlit("/");
    }
    assert(sep@ =~= seq!['/']);
    let mut i: usize = 0;
    while i < n
        invariant
            i <= n == parent_folders@.len() == folders.len(),
            folders == views(parent_folders@),
            sep@ == seq!['/'],
            steps@.len() == i,
            forall|j: int|
                0 <= j < i ==> is_step_of(#[trigger] steps@[j], base_path@, folders, target_name@, j),
            i == 0 ==> dir@ == base_path@,
            i > 0 ==> dir@ == step_directory(base_path@, folders, i - 1),
        decreases n - i,
    {
        let ghost prev = dir@;
        dir.append(sep);
        dir.append(parent_folders[i].as_str());
        assert(parent_folders@[i as int]@ == folders[i as int]);
        assert(folders.take(i + 1).drop_last() =~= folders.take(i as int));
        if i == 0 {
            assert(dir@ =~= step_directory(base_path@, folders, 0));
        } else {
            assert(dir@ =~= step_directory(base_path@, folders, i as int));
        }
        let is_leaf = i == n - 1;
        let export_name = if is_leaf {
            String::from_str(target_name)
        } else {
            parent_folders[i + 1].clone()
        };
        assert(is_leaf ==> export_name@ == target_name@);
        assert(!is_leaf ==> export_name@ == folders[i + 1]);
        steps.push(BacktrackStep { directory: dir.clone(), export_name, is_leaf });
        assert(is_step_of(steps@[i as int], base_path@, folders, target_name@, i as int));
        i += 1;
    }
    steps
}

/// What planning a run of `target` against `base` yields: the error that
/// stops it, or one step per folder between them.
pub open spec fn plan_outcome(
    target: Seq<char>,
    base: Seq<char>,
    r: Result<Vec<BacktrackStep>, BarrelError>,
) -> bool {
    if !is_below(target, base) {
        r == Err::<Vec<BacktrackStep>, BarrelError>(BarrelError::NotBelowBase)
    } else if !has_extension(target) {
        r == Err::<Vec<BacktrackStep>, BarrelError>(BarrelError::NoExtension)
    } else {
        &&& r is Ok
        &&& is_plan(
            r->Ok_0@,
            dir_path(base),
            parent_folders_of(target, base),
            export_name_of(target),
        )
    }
}

/// Plans the index updates that make `base` re-export `target`.
pub fn plan_updates(target: &str, base: &str) -> (r: Result<Vec<BacktrackStep>, BarrelError>)
    ensures
        plan_outcome(target@, base@, r),
{
    match decompose(target, base) {
        Err(e) => Err(e),
        Ok(d) => Ok(calc_back_paths(&d.parent_folders, trim_dir(base), d.export_name.as_str())),
    }
}

/// Decides a whole run from what the file system said of its two arguments:
/// whether the base is a directory, whether the target is a file, and the
/// paths as text (`None` where a path is not valid text).
pub fn plan_invocation(
    target: Option<&str>,
    base: Option<&str>,
    base_is_dir: bool,
    target_is_file: bool,
) -> (r: Result<Vec<BacktrackStep>, BarrelError>)
    ensures
        !base_is_dir ==> r == Err::<Vec<BacktrackStep>, BarrelError>(BarrelError::InvalidBase),
        base_is_dir && !target_is_file ==> r == Err::<Vec<BacktrackStep>, BarrelError>(
            BarrelError::InvalidTarget,
        ),
        base_is_dir && target_is_file && (target is None || base is None) ==> r == Err::<
            Vec<BacktrackStep>,
            BarrelError,
        >(BarrelError::PathEncoding),
        base_is_dir && target_is_file && target is Some && base is Some ==> plan_outcome(
            target->Some_0@,
            base->Some_0@,
            r,
        ),
{
    if !base_is_dir {
        return Err(BarrelError::InvalidBase);
    }
    if !target_is_file {
        return Err(BarrelError::InvalidTarget);
    }
    match (target, base) {
        (Some(t), Some(b)) => plan_updates(t, b),
        _ => Err(BarrelError::PathEncoding),
    }
}

/// A target N folders below the base is planned in exactly N steps, and in
/// none when it lies directly in the base.
pub proof fn lemma_one_step_per_level(
    target: Seq<char>,
    base: Seq<char>,
    r: Result<Vec<BacktrackStep>, BarrelError>,
)
    requires
        is_below(target, base),
        has_extension(target),
        plan_outcome(target, base, r),
    ensures
        r is Ok,
        r->Ok_0@.len() == parent_folders_of(target, base).len(),
        r->Ok_0@.len() == target_segments(target).len() - base_segments(base).len() - 1,
        r->Ok_0@.len() == 0 <==> target_segments(target).len() == base_segments(base).len() + 1,
{
}

} // verus!
