//! Completion candidates for a partly written path.
use vstd::prelude::*;
use vstd::string::StringExecFns;
use crate::qualified_path::{path_views, QualifiedPath};
use crate::text::{join, same_text, text_starts_with, views};

verus! {

/// Whether the written form of `prefix` begins the written form of `path`.
/// The last segment of `prefix` may be the beginning of a segment.
pub open spec fn is_written_prefix(prefix: Seq<Seq<char>>, path: Seq<Seq<char>>) -> bool {
    join(prefix, '/').is_prefix_of(join(path, '/'))
}

/// The written forms of the paths, one by one.
pub open spec fn written(paths: Seq<Seq<Seq<char>>>) -> Seq<Seq<char>> {
    Seq::new(paths.len(), |i: int| join(paths[i], '/'))
}

/// What is offered for `path` where `n` segments are being written: the
/// path itself if it has no more segments than that, else its first `n`
/// segments followed by the separator.
pub open spec fn step_text(path: Seq<Seq<char>>, n: int) -> Seq<char> {
    if path.len() <= n {
        join(path, '/')
    } else {
        join(path.take(n), '/').push('/')
    }
}

/// The step texts of the paths, each once, in the order of first occurrence.
pub open spec fn steps(paths: Seq<Seq<Seq<char>>>, n: int) -> Seq<Seq<char>>
    decreases paths.len(),
{
    if paths.len() == 0 {
        Seq::empty()
    } else {
        let before = steps(paths.drop_last(), n);
        let text = step_text(paths.last(), n);
        if before.contains(text) {
            before
        } else {
            before.push(text)
        }
    }
}

/// What is offered for the candidates: the candidates in full where there is
/// at most one, or where all take the same next step; else the next steps.
pub open spec fn completions(prefix: Seq<Seq<char>>, candidates: Seq<Seq<Seq<char>>>) -> Seq<
    Seq<char>,
> {
    if candidates.len() <= 1 || steps(candidates, prefix.len() as int).len() == 1 {
        written(candidates)
    } else {
        steps(candidates, prefix.len() as int)
    }
}

/// The paths that `prefix` begins in writing, in order.
pub open spec fn with_written_prefix(paths: Seq<Seq<Seq<char>>>, prefix: Seq<Seq<char>>) -> Seq<
    Seq<Seq<char>>,
>
    decreases paths.len(),
{
    if paths.len() == 0 {
        Seq::empty()
    } else if is_written_prefix(prefix, paths.last()) {
        with_written_prefix(paths.drop_last(), prefix).push(paths.last())
    } else {
        with_written_prefix(paths.drop_last(), prefix)
    }
}

/// The place that `relative` names as seen from `base`: a segment `.` stays
/// in place, a segment `..` leaves the last segment that is not itself `..`,
/// and any other segment is entered.
pub open spec fn resolve(base: Seq<Seq<char>>, relative: Seq<Seq<char>>) -> Seq<Seq<char>>
    decreases relative.len(),
{
    if relative.len() == 0 {
        base
    } else {
        let before = resolve(base, relative.drop_last());
        let segment = relative.last();
        if segment == "."@ {
            before
        } else if segment == ".."@ && before.len() > 0 && before.last() != ".."@ {
            before.drop_last()
        } else {
            before.push(segment)
        }
    }
}

/// The prefix as completed for a relative look-up: after a last segment `.`
/// or `..` an empty segment is being written.
pub open spec fn relative_prefix(prefix: Seq<Seq<char>>) -> Seq<Seq<char>> {
    if prefix.len() > 0 && (prefix.last() == "."@ || prefix.last() == ".."@) {
        prefix.push(Seq::empty())
    } else {
        prefix
    }
}

/// The path without its last segment; the empty path stays empty.
pub open spec fn all_but_last(path: Seq<Seq<char>>) -> Seq<Seq<char>> {
    if path.len() == 0 {
        path
    } else {
        path.drop_last()
    }
}

/// The candidate that `path` gives for a relative look-up of `prefix` from
/// `current`, if it gives one: `path` must begin in writing with the place
/// that the prefix names and reach beyond the segments already written; the
/// candidate is the prefix without the segment being written, followed by
/// `path` from that segment on.
pub open spec fn relative_candidate(
    current: Seq<Seq<char>>,
    prefix: Seq<Seq<char>>,
    path: Seq<Seq<char>>,
) -> Option<Seq<Seq<char>>> {
    let position = resolve(current, relative_prefix(prefix));
    let index = all_but_last(position).len() as int;
    if is_written_prefix(position, path) && path.len() > index {
        Some(all_but_last(relative_prefix(prefix)) + path.skip(index))
    } else {
        None
    }
}

/// The candidates that the paths give for a relative look-up, in order.
pub open spec fn relative_candidates(
    current: Seq<Seq<char>>,
    prefix: Seq<Seq<char>>,
    paths: Seq<Seq<Seq<char>>>,
) -> Seq<Seq<Seq<char>>>
    decreases paths.len(),
{
    if paths.len() == 0 {
        Seq::empty()
    } else {
        let before = relative_candidates(current, prefix, paths.drop_last());
        match relative_candidate(current, prefix, paths.last()) {
            Some(candidate) => before.push(candidate),
            None => before,
        }
    }
}

/// Whether the written form of `prefix` begins the written form of `path`.
pub fn written_starts_with(path: &QualifiedPath, prefix: &QualifiedPath) -> (r: bool)
    ensures
        r == is_written_prefix(prefix@, path@),
{
    let whole = path.to_string();
    let start = prefix.to_string();
    text_starts_with(whole.as_str(), start.as_str())
}

/// The place that `relative` names as seen from `base`.
pub fn resolve_relative(base: &QualifiedPath, relative: &QualifiedPath) -> (r: QualifiedPath)
    ensures
        r@ == resolve(base@, relative@),
{
    let segments = relative.iter();
    let mut place = base.clone();
    let mut i: usize = 0;
    proof {
        assert(relative@.take(0) =~= Seq::empty());
    }
    while i < segments.len()
        invariant
            i <= segments.len(),
            views(segments@) == relative@,
            place@ == resolve(base@, relative@.take(i as int)),
        decreases segments.len() - i,
    {
        proof {
            assert(relative@.take(i + 1).drop_last() =~= relative@.take(i as int));
            assert(relative@.take(i + 1).last() == segments@[i as int]@);
        }
        let segment = segments[i].as_str();
        if same_text(segment, ".") {
        } else {
            let leaves = same_text(segment, "..") && place.len() > 0 && !same_text(
                match place.last() {
                    Some(s) => s.as_str(),
                    None => "",
                },
                "..",
            );
            if leaves {
                place = place.trim_n_right(1);
            } else {
                place = place.child(segment);
            }
        }
        i += 1;
    }
    assert(relative@.take(relative@.len() as int) =~= relative@);
    place
}

/// What is offered for the candidates.
pub fn complete_filtered(prefix: &QualifiedPath, filtered: &Vec<QualifiedPath>) -> (r: Vec<String>)
    ensures
        views(r@) == completions(prefix@, path_views(filtered@)),
{
    let current_index = prefix.len();
    let ghost candidates = path_views(filtered@);
    let mut all: Vec<String> = Vec::new();
    let mut full: Vec<String> = Vec::new();
    let mut i: usize = 0;
    proof {
        assert(candidates.take(0) =~= Seq::empty());
        assert(views(all@) =~= Seq::empty());
    }
    while i < filtered.len()
        invariant
            i <= filtered.len(),
            candidates == path_views(filtered@),
            current_index == prefix@.len(),
            views(all@) == steps(candidates.take(i as int), current_index as int),
            full@.len() == i,
            forall|j: int| 0 <= j < i ==> (#[trigger] full@[j])@ == join(candidates[j], '/'),
        decreases filtered.len() - i,
    {
        proof {
            assert(candidates.take(i + 1).drop_last() =~= candidates.take(i as int));
            assert(candidates.take(i + 1).last() == filtered@[i as int]@);
        }
        let path = &filtered[i];
        full.push(path.to_string());
        let text = if path.len() <= current_index {
            path.to_string()
        } else {
            let mut head = path.trim_n(0, current_index).to_string();
            head.push('/');
            assert(path@.subrange(0, current_index as int) =~= path@.take(current_index as int));
            head
        };
        if !contains_text(&all, text.as_str()) {
            let ghost before = views(all@);
            all.push(text);
            assert(views(all@) =~= before.push(text@));
        }
        i += 1;
    }
    proof {
        assert(candidates.take(candidates.len() as int) =~= candidates);
        assert(views(full@) =~= written(candidates));
    }
    if filtered.len() <= 1 || all.len() == 1 {
        full
    } else {
        all
    }
}

/// Whether one of the texts is `text`.
pub fn contains_text(texts: &Vec<String>, text: &str) -> (r: bool)
    ensures
        r == views(texts@).contains(text@),
{
    let mut i: usize = 0;
    while i < texts.len()
        invariant
            i <= texts.len(),
            forall|j: int| 0 <= j < i ==> views(texts@)[j] != text@,
        decreases texts.len() - i,
    {
        if same_text(texts[i].as_str(), text) {
            assert(views(texts@)[i as int] == text@);
            return true;
        }
        i += 1;
    }
    false
}

/// A way to choose, among known paths, the candidates for a partly written
/// path, and to offer the next step of each.
pub trait PathCompletion {
    /// The candidates that the paths give for `prefix`.
    spec fn candidates(&self, prefix: Seq<Seq<char>>, paths: Seq<Seq<Seq<char>>>) -> Seq<
        Seq<Seq<char>>,
    >;

    /// The candidates that the paths give for `prefix`.
    fn transform_and_filter_path(&self, prefix: &QualifiedPath, paths: &Vec<QualifiedPath>) -> (r:
        Vec<QualifiedPath>)
        ensures
            path_views(r@) == self.candidates(prefix@, path_views(paths@)),
    ;

    /// What is offered for `prefix`: the candidates in full where there is at
    /// most one, or where all take the same next step; else the next steps,
    /// each once.
    fn complete(&self, prefix: &QualifiedPath, paths: &Vec<QualifiedPath>) -> (r: Vec<String>)
        ensures
            views(r@) == completions(prefix@, self.candidates(prefix@, path_views(paths@))),
    {
        let filtered = self.transform_and_filter_path(prefix, paths);
        complete_filtered(prefix, &filtered)
    }
}

/// Completion of a path written from the root.
pub struct AbsolutePathCompletion;

impl PathCompletion for AbsolutePathCompletion {
    open spec fn candidates(&self, prefix: Seq<Seq<char>>, paths: Seq<Seq<Seq<char>>>) -> Seq<
        Seq<Seq<char>>,
    > {
        with_written_prefix(paths, prefix)
    }

    fn transform_and_filter_path(&self, prefix: &QualifiedPath, paths: &Vec<QualifiedPath>) -> (r:
        Vec<QualifiedPath>) {
        let mut out: Vec<QualifiedPath> = Vec::new();
        let mut i: usize = 0;
        proof {
            assert(path_views(paths@).take(0) =~= Seq::empty());
            assert(path_views(out@) =~= Seq::empty());
        }
        while i < paths.len()
            invariant
                i <= paths.len(),
                path_views(out@) == with_written_prefix(
                    path_views(paths@).take(i as int),
                    prefix@,
                ),
            decreases paths.len() - i,
        {
            proof {
                assert(path_views(paths@).take(i + 1).drop_last() =~= path_views(paths@).take(
                    i as int,
                ));
                assert(path_views(paths@).take(i + 1).last() == paths@[i as int]@);
            }
            if written_starts_with(&paths[i], prefix) {
                let ghost before = path_views(out@);
                out.push(paths[i].clone());
                assert(path_views(out@) =~= before.push(paths@[i as int]@));
            }
            i += 1;
        }
        assert(path_views(paths@).take(paths@.len() as int) =~= path_views(paths@));
        out
    }
}

/// Completion of a path written as seen from a current place.
pub struct RelativePathCompletion {
    current_path: QualifiedPath,
}

impl View for RelativePathCompletion {
    type V = Seq<Seq<char>>;

    closed spec fn view(&self) -> Seq<Seq<char>> {
        self.current_path@
    }
}

impl RelativePathCompletion {
    /// Completion as seen from `current_path`.
    pub fn new(current_path: QualifiedPath) -> (r: Self)
        ensures
            r@ == current_path@,
    {
        Self { current_path }
    }
}

impl PathCompletion for RelativePathCompletion {
    open spec fn candidates(&self, prefix: Seq<Seq<char>>, paths: Seq<Seq<Seq<char>>>) -> Seq<
        Seq<Seq<char>>,
    > {
        relative_candidates(self@, prefix, paths)
    }

    fn transform_and_filter_path(&self, prefix: &QualifiedPath, paths: &Vec<QualifiedPath>) -> (r:
        Vec<QualifiedPath>) {
        let relative = match prefix.last() {
            Some(s) => same_text(s.as_str(), ".") || same_text(s.as_str(), ".."),
            None => false,
        };
        let transformed_prefix = if relative {
            prefix.child("")
        } else {
            prefix.clone()
        };
        proof {
            reveal_strlit("");
            assert(""@ =~= Seq::<char>::empty());
        }
        let current_position = resolve_relative(&self.current_path, &transformed_prefix);
        let current_index = if current_position.len() == 0 {
            0
        } else {
            current_position.len() - 1
        };
        let kept = if transformed_prefix.len() == 0 {
            transformed_prefix.clone()
        } else {
            transformed_prefix.trim_n_right(1)
        };
        let mut out: Vec<QualifiedPath> = Vec::new();
        let mut i: usize = 0;
        proof {
            assert(path_views(paths@).take(0) =~= Seq::empty());
            assert(path_views(out@) =~= Seq::empty());
        }
        while i < paths.len()
            invariant
                i <= paths.len(),
                transformed_prefix@ == relative_prefix(prefix@),
                current_position@ == resolve(self@, relative_prefix(prefix@)),
                current_index == all_but_last(current_position@).len(),
                kept@ == all_but_last(relative_prefix(prefix@)),
                path_views(out@) == relative_candidates(
                    self@,
                    prefix@,
                    path_views(paths@).take(i as int),
                ),
            decreases paths.len() - i,
        {
            proof {
                assert(path_views(paths@).take(i + 1).drop_last() =~= path_views(paths@).take(
                    i as int,
                ));
                assert(path_views(paths@).take(i + 1).last() == paths@[i as int]@);
            }
            let path = &paths[i];
            if written_starts_with(path, &current_position) && path.len() > current_index {
                let ghost before = path_views(out@);
                let new_path = kept.concat(&path.trim_n_left(current_index));
                out.push(new_path);
                assert(path_views(out@) =~= before.push(new_path@));
            }
            i += 1;
        }
        assert(path_views(paths@).take(paths@.len() as int) =~= path_views(paths@));
        out
    }
}

} // verus!
