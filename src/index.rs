//! The text of export lines and the decision to append one to an index file.

use vstd::prelude::*;
use vstd::std_specs::iter::IteratorSpec;
use vstd::string::*;
use crate::plan::{
    export_name_of, has_extension, is_below, parent_folders_of, plan_outcome, BacktrackStep,
    BarrelError,
};

verus! {

broadcast use vstd::string::group_string_axioms;

/// The characters of `s`, in order.
pub fn chars_of(s: &str) -> (r: Vec<char>)
    ensures
        r@ == s@,
{
    let mut out: Vec<char> = Vec::new();
    let mut it = s.chars();
    assert(it.remaining() == s@);
    loop
        invariant
            out@ + it.remaining() == s@,
            it.obeys_prophetic_iter_laws(),
        ensures
            out@ == s@,
        decreases s@.len() - out@.len(),
    {
        match it.next() {
            Some(c) => {
                out.push(c);
                assert(out@ + it.remaining() =~= s@);
            },
            None => {
                assert(out@ =~= s@);
                break;
            },
        }
    }
    out
}

/// `needle` stands in `haystack` from index `i` on.
pub open spec fn occurs_at(haystack: Seq<char>, needle: Seq<char>, i: int) -> bool {
    &&& 0 <= i
    &&& i + needle.len() <= haystack.len()
    &&& haystack.subrange(i, i + needle.len()) == needle
}

/// `needle` is a substring of `haystack`.
pub open spec fn contains_text(haystack: Seq<char>, needle: Seq<char>) -> bool {
    exists|i: int| occurs_at(haystack, needle, i)
}

/// Whether `needle` is a substring of `haystack`.
pub fn text_contains(haystack: &str, needle: &str) -> (r: bool)
    ensures
        r == contains_text(haystack@, needle@),
{
    let h = chars_of(haystack);
    let n = chars_of(needle);
    if n.len() > h.len() {
        assert(forall|k: int| !occurs_at(h@, n@, k));
        return false;
    }
    let hn = h.len();
    let last = hn - n.len();
    let mut i: usize = 0;
    loop
        invariant
            h@ == haystack@,
            n@ == needle@,
            hn == h@.len(),
            n@.len() <= h@.len(),
            last == h@.len() - n@.len(),
            i <= last,
            forall|k: int| 0 <= k < i ==> !occurs_at(h@, n@, k),
        ensures
            forall|k: int| 0 <= k <= last ==> !occurs_at(h@, n@, k),
        decreases last - i,
    {
        let mut j: usize = 0;
        while j < n.len()
            invariant
                i + n@.len() <= h@.len(),
                hn == h@.len(),
                j <= n@.len(),
                forall|k: int| 0 <= k < j ==> h@[i + k] == n@[k],
            ensures
                j == n@.len() || (j < n@.len() && h@[i + j] != n@[j as int]),
                forall|k: int| 0 <= k < j ==> h@[i + k] == n@[k],
            decreases n@.len() - j,
        {
            if h[i + j] != n[j] {
                break;
            }
            j += 1;
        }
        if j == n.len() {
            assert(h@.subrange(i as int, i + n@.len()) =~= n@);
            assert(occurs_at(h@, n@, i as int));
            return true;
        }
        assert(h@.subrange(i as int, i + n@.len())[j as int] != n@[j as int]);
        if i == last {
            break;
        }
        i += 1;
    }
    assert(forall|k: int| !occurs_at(h@, n@, k));
    false
}

/// `from "./<name>"`: the part of an export line that names its source.
pub open spec fn match_fragment_of(name: Seq<char>) -> Seq<char> {
    "from \"./"@ + name + "\""@
}

/// `export { default as <name> } from "./<name>"`.
pub open spec fn default_export_of(name: Seq<char>) -> Seq<char> {
    "export { default as "@ + name + " } "@ + match_fragment_of(name)
}

/// `export * from "./<name>"`.
pub open spec fn wildcard_export_of(name: Seq<char>) -> Seq<char> {
    "export * "@ + match_fragment_of(name)
}

/// The line a step writes: a default re-export on the leaf step, a wildcard
/// re-export on every other.
pub open spec fn export_line_of(step: BacktrackStep) -> Seq<char> {
    if step.is_leaf {
        default_export_of(step.export_name@)
    } else {
        wildcard_export_of(step.export_name@)
    }
}

/// Builds `from "./<name>"`.
pub fn match_fragment(name: &str) -> (r: String)
    ensures
        r@ == match_fragment_of(name@),
{
    let mut r = String::from_str("from \"./");
    r.append(name);
    r.append("\"");
    r
}

/// Builds the export line of `step`.
pub fn export_line(step: &BacktrackStep) -> (r: String)
    ensures
        r@ == export_line_of(*step),
{
    let fragment = match_fragment(step.export_name.as_str());
    let mut r;
    if step.is_leaf {
        r = String::from_str("export { default as ");
        r.append(step.export_name.as_str());
        r.append(" } ");
    } else {
        r = String::from_str("export * ");
    }
    r.append(fragment.as_str());
    r
}

/// `<directory>/index.ts`.
pub open spec fn index_path_of(directory: Seq<char>) -> Seq<char> {
    directory + "/index.ts"@
}

/// The path of the index file in `directory`.
pub fn index_file_path(directory: &str) -> (r: String)
    ensures
        r@ == index_path_of(directory@),
{
    let mut r = String::from_str(directory);
    r.append("/index.ts");
    r
}

/// What to do with one index file.
pub enum IndexUpdate {
    /// It already re-exports the step's source.
    Skip,
    /// Append this text: the export line and a line break.
    Append(String),
}

/// The text a step appends: its export line and a line break.
pub open spec fn appended_text(step: BacktrackStep) -> Seq<char> {
    export_line_of(step) + "\n"@
}

/// An index file already holds the step's export when it holds its fragment
/// `from "./<name>"` anywhere.
pub open spec fn already_exported(contents: Seq<char>, step: BacktrackStep) -> bool {
    contains_text(contents, match_fragment_of(step.export_name@))
}

/// An index file's contents after a step.
pub open spec fn updated_contents(contents: Seq<char>, step: BacktrackStep) -> Seq<char> {
    if already_exported(contents, step) {
        contents
    } else {
        contents + appended_text(step)
    }
}

/// Decides, from the current contents of its index file, what a step does.
pub fn index_update(contents: &str, step: &BacktrackStep) -> (r: IndexUpdate)
    ensures
        already_exported(contents@, *step) <==> r is Skip,
        r is Append ==> r->Append_0@ == appended_text(*step),
        r is Append ==> contents@ + r->Append_0@ == updated_contents(contents@, *step),
{
    let fragment = match_fragment(step.export_name.as_str());
    if text_contains(contents, fragment.as_str()) {
        IndexUpdate::Skip
    } else {
        let mut line = export_line(step);
        line.append("\n");
        IndexUpdate::Append(line)
    }
}

/// Appending to a text keeps every substring it had.
pub proof fn lemma_contains_extended(haystack: Seq<char>, needle: Seq<char>, more: Seq<char>)
    requires
        contains_text(haystack, needle),
    ensures
        contains_text(haystack + more, needle),
{
    let i = choose|i: int| occurs_at(haystack, needle, i);
    assert((haystack + more).subrange(i, i + needle.len()) =~= haystack.subrange(
        i,
        i + needle.len(),
    ));
    assert(occurs_at(haystack + more, needle, i));
}

/// Once a step has appended its line, the file holds the step's fragment.
pub proof fn lemma_appended_line_is_found(contents: Seq<char>, step: BacktrackStep)
    ensures
        already_exported(contents + appended_text(step), step),
{
    let name = step.export_name@;
    let fragment = match_fragment_of(name);
    let head = if step.is_leaf {
        "export { default as "@ + name + " } "@
    } else {
        "export * "@
    };
    assert(export_line_of(step) =~= head + fragment);
    let all = contents + appended_text(step);
    let i = (contents.len() + head.len()) as int;
    assert(all.subrange(i, i + fragment.len()) =~= fragment);
    assert(occurs_at(all, fragment, i));
}

/// The index files of a file system, by path; a path that is absent names a
/// file that does not exist yet, which a step creates empty.
pub open spec fn contents_in(fs: Map<Seq<char>, Seq<char>>, path: Seq<char>) -> Seq<char> {
    if fs.contains_key(path) {
        fs[path]
    } else {
        Seq::empty()
    }
}

/// The file system after one step that meets no I/O error.
pub open spec fn apply_step(fs: Map<Seq<char>, Seq<char>>, step: BacktrackStep) -> Map<
    Seq<char>,
    Seq<char>,
> {
    let path = index_path_of(step.directory@);
    let contents = contents_in(fs, path);
    if already_exported(contents, step) {
        fs
    } else {
        fs.insert(path, updated_contents(contents, step))
    }
}

/// The file system after a run of steps, in order, that meets no I/O error.
pub open spec fn apply_steps(fs: Map<Seq<char>, Seq<char>>, steps: Seq<BacktrackStep>) -> Map<
    Seq<char>,
    Seq<char>,
>
    decreases steps.len(),
{
    if steps.len() == 0 {
        fs
    } else {
        apply_step(apply_steps(fs, steps.drop_last()), steps.last())
    }
}

/// Every step of a run finds its export in place in `fs`.
pub open spec fn all_exported(fs: Map<Seq<char>, Seq<char>>, steps: Seq<BacktrackStep>) -> bool {
    forall|i: int|
        0 <= i < steps.len() ==> already_exported(
            contents_in(fs, index_path_of(#[trigger] steps[i].directory@)),
            steps[i],
        )
}

proof fn lemma_step_keeps_text(
    fs: Map<Seq<char>, Seq<char>>,
    step: BacktrackStep,
    path: Seq<char>,
    needle: Seq<char>,
)
    requires
        contains_text(contents_in(fs, path), needle),
    ensures
        contains_text(contents_in(apply_step(fs, step), path), needle),
{
    let p = index_path_of(step.directory@);
    if !already_exported(contents_in(fs, p), step) && path == p {
        lemma_contains_extended(contents_in(fs, path), needle, appended_text(step));
    }
}

proof fn lemma_run_exports_all(fs: Map<Seq<char>, Seq<char>>, steps: Seq<BacktrackStep>)
    ensures
        all_exported(apply_steps(fs, steps), steps),
    decreases steps.len(),
{
    if steps.len() > 0 {
        let init = steps.drop_last();
        let mid = apply_steps(fs, init);
        let last = steps.last();
        lemma_run_exports_all(fs, init);
        let p = index_path_of(last.directory@);
        if !already_exported(contents_in(mid, p), last) {
            lemma_appended_line_is_found(contents_in(mid, p), last);
        }
        assert forall|i: int| 0 <= i < steps.len() implies already_exported(
            contents_in(apply_steps(fs, steps), index_path_of(#[trigger] steps[i].directory@)),
            steps[i],
        ) by {
            if i < steps.len() - 1 {
                assert(init[i] == steps[i]);
                lemma_step_keeps_text(
                    mid,
                    last,
                    index_path_of(steps[i].directory@),
                    match_fragment_of(steps[i].export_name@),
                );
            }
        }
    }
}

proof fn lemma_exported_run_is_noop(fs: Map<Seq<char>, Seq<char>>, steps: Seq<BacktrackStep>)
    requires
        all_exported(fs, steps),
    ensures
        apply_steps(fs, steps) == fs,
    decreases steps.len(),
{
    if steps.len() > 0 {
        let init = steps.drop_last();
        assert forall|i: int| 0 <= i < init.len() implies already_exported(
            contents_in(fs, index_path_of(#[trigger] init[i].directory@)),
            init[i],
        ) by {
            assert(init[i] == steps[i]);
        }
        lemma_exported_run_is_noop(fs, init);
        assert(steps.last() == steps[steps.len() - 1]);
    }
}

/// Running the same steps a second time changes no index file: after the
/// first run every step finds its export in place and is skipped.
pub proof fn lemma_rerun_changes_nothing(fs: Map<Seq<char>, Seq<char>>, steps: Seq<BacktrackStep>)
    ensures
        all_exported(apply_steps(fs, steps), steps),
        apply_steps(apply_steps(fs, steps), steps) == apply_steps(fs, steps),
{
    lemma_run_exports_all(fs, steps);
    lemma_exported_run_is_noop(apply_steps(fs, steps), steps);
}

/// The leaf step of a plan writes a default re-export of the target's name;
/// every other step writes a wildcard re-export of the next folder inward.
pub proof fn lemma_leaf_default_others_wildcard(
    target: Seq<char>,
    base: Seq<char>,
    r: Result<Vec<BacktrackStep>, BarrelError>,
    i: int,
)
    requires
        is_below(target, base),
        has_extension(target),
        plan_outcome(target, base, r),
        0 <= i < r->Ok_0@.len(),
    ensures
        i == r->Ok_0@.len() - 1 ==> export_line_of(r->Ok_0@[i]) == default_export_of(
            export_name_of(target),
        ),
        i < r->Ok_0@.len() - 1 ==> export_line_of(r->Ok_0@[i]) == wildcard_export_of(
            parent_folders_of(target, base)[i + 1],
        ),
{
}

} // verus!
