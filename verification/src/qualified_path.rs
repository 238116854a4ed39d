//! Qualified paths and their flat, escaped branch-name encoding.
use vstd::prelude::*;
use vstd::string::StringExecFns;
use crate::text::{join, join_text, split, split_text, strip_chars, trim, trim_text, views, without};

verus! {

/// Separates the segments of a path.
pub const SEPARATOR: char = '/';

/// Prefixes every segment but the last in a native branch name.
pub const ESCAPE_MARK: char = '_';

/// Marks the checked-out branch in a native branch listing.
pub const CHECKOUT_MARK: char = '*';

/// The segments of a path, each prefixed with the escape mark except the last.
pub open spec fn escaped(segments: Seq<Seq<char>>) -> Seq<Seq<char>> {
    Seq::new(
        segments.len(),
        |i: int|
            if i < segments.len() - 1 {
                seq![ESCAPE_MARK] + segments[i]
            } else {
                segments[i]
            },
    )
}

/// The native branch name of a path.
pub open spec fn encode(segments: Seq<Seq<char>>) -> Seq<char> {
    join(escaped(segments), SEPARATOR)
}

/// A native branch name without its markers and surrounding whitespace.
pub open spec fn cleaned(native: Seq<char>) -> Seq<char> {
    trim(without(native, CHECKOUT_MARK, ESCAPE_MARK))
}

/// The path that a native branch name stands for. A name that is empty once
/// cleaned stands for the empty path.
pub open spec fn decode(native: Seq<char>) -> Seq<Seq<char>> {
    if cleaned(native).len() == 0 {
        Seq::<Seq<char>>::empty()
    } else {
        split(cleaned(native), SEPARATOR)
    }
}

/// The segments obtained by splitting every part at the separator.
pub open spec fn split_each(parts: Seq<Seq<char>>) -> Seq<Seq<char>>
    decreases parts.len(),
{
    if parts.len() == 0 {
        Seq::<Seq<char>>::empty()
    } else {
        split_each(parts.drop_last()) + split(parts.last(), SEPARATOR)
    }
}

/// A segment that a native branch name can carry unchanged: not empty, and
/// free of the separator and of both marks.
pub open spec fn plain_segment(segment: Seq<char>) -> bool {
    &&& segment.len() > 0
    &&& !segment.contains(SEPARATOR)
    &&& !segment.contains(ESCAPE_MARK)
    &&& !segment.contains(CHECKOUT_MARK)
}

/// The views of a sequence of paths, element by element.
pub open spec fn path_views(paths: Seq<QualifiedPath>) -> Seq<Seq<Seq<char>>> {
    Seq::new(paths.len(), |i: int| paths[i]@)
}

/// An ordered sequence of path segments.
#[derive(Debug)]
pub struct QualifiedPath {
    path: Vec<String>,
}

impl View for QualifiedPath {
    type V = Seq<Seq<char>>;

    closed spec fn view(&self) -> Seq<Seq<char>> {
        views(self.path@)
    }
}

impl Clone for QualifiedPath {
    fn clone(&self) -> (r: Self)
        ensures
            r@ == self@,
    {
        self.trim_n(0, self.path.len())
    }
}

/// Copies of the paths, one by one.
pub fn clone_paths(paths: &Vec<QualifiedPath>) -> (r: Vec<QualifiedPath>)
    ensures
        path_views(r@) == path_views(paths@),
{
    let mut out: Vec<QualifiedPath> = Vec::new();
    let mut i: usize = 0;
    while i < paths.len()
        invariant
            i <= paths.len(),
            out@.len() == i,
            forall|k: int| 0 <= k < i ==> (#[trigger] out@[k])@ == paths@[k]@,
        decreases paths.len() - i,
    {
        out.push(paths[i].clone());
        i += 1;
    }
    assert(path_views(out@) =~= path_views(paths@));
    out
}

impl PartialEq for QualifiedPath {
    fn eq(&self, other: &Self) -> (r: bool) {
        if self.path.len() != other.path.len() {
            assert(self@.len() != other@.len());
            return false;
        }
        let mut i: usize = 0;
        while i < self.path.len()
            invariant
                i <= self.path.len(),
                self.path.len() == other.path.len(),
                forall|j: int| 0 <= j < i ==> self.path[j]@ == other.path[j]@,
            decreases self.path.len() - i,
        {
            if self.path[i] != other.path[i] {
                assert(self@[i as int] != other@[i as int]);
                return false;
            }
            i += 1;
        }
        assert(self@ =~= other@);
        true
    }
}

impl vstd::std_specs::cmp::PartialEqSpecImpl for QualifiedPath {
    open spec fn obeys_eq_spec() -> bool {
        true
    }

    open spec fn eq_spec(&self, other: &Self) -> bool {
        self@ == other@
    }
}

impl From<String> for QualifiedPath {
    /// Decodes a native branch name.
    fn from(value: String) -> (r: Self)
        ensures
            r@ == decode(value@),
    {
        QualifiedPath::from_native(value.as_str())
    }
}

impl vstd::std_specs::convert::FromSpecImpl<String> for QualifiedPath {
    open spec fn obeys_from_spec() -> bool {
        false
    }

    open spec fn from_spec(v: String) -> Self {
        arbitrary()
    }
}

impl<'a> From<&'a str> for QualifiedPath {
    /// Splits a written path at the separator.
    fn from(value: &'a str) -> (r: Self)
        ensures
            r@ == split(value@, SEPARATOR),
    {
        QualifiedPath::from_text(value)
    }
}

impl<'a> vstd::std_specs::convert::FromSpecImpl<&'a str> for QualifiedPath {
    open spec fn obeys_from_spec() -> bool {
        false
    }

    open spec fn from_spec(v: &'a str) -> Self {
        arbitrary()
    }
}

impl From<Vec<String>> for QualifiedPath {
    /// Splits every part at the separator.
    fn from(value: Vec<String>) -> (r: Self)
        ensures
            r@ == split_each(views(value@)),
    {
        QualifiedPath::from_parts(&value)
    }
}

impl vstd::std_specs::convert::FromSpecImpl<Vec<String>> for QualifiedPath {
    open spec fn obeys_from_spec() -> bool {
        false
    }

    open spec fn from_spec(v: Vec<String>) -> Self {
        arbitrary()
    }
}

impl std::ops::Add for QualifiedPath {
    type Output = QualifiedPath;

    /// This path followed by the segments of `rhs`.
    fn add(self, rhs: Self) -> (r: QualifiedPath)
        ensures
            r@ == self@ + rhs@,
    {
        self.concat(&rhs)
    }
}

impl vstd::std_specs::ops::AddSpecImpl for QualifiedPath {
    open spec fn obeys_add_spec() -> bool {
        false
    }

    open spec fn add_req(self, rhs: Self) -> bool {
        true
    }

    open spec fn add_spec(self, rhs: Self) -> Self {
        arbitrary()
    }
}

impl QualifiedPath {
    /// The empty path.
    pub fn new() -> (r: Self)
        ensures
            r@ == Seq::<Seq<char>>::empty(),
    {
        let r = QualifiedPath { path: Vec::new() };
        assert(r@ =~= Seq::<Seq<char>>::empty());
        r
    }

    /// The path that a native branch name stands for.
    pub fn from_native(native: &str) -> (r: Self)
        ensures
            r@ == decode(native@),
    {
        let stripped = strip_chars(native, CHECKOUT_MARK, ESCAPE_MARK);
        let clean = trim_text(stripped.as_str());
        if clean.as_str().unicode_len() == 0 {
            QualifiedPath::new()
        } else {
            QualifiedPath { path: split_text(clean.as_str(), SEPARATOR) }
        }
    }

    /// The path written as `text`, segments separated by `/`. The empty text
    /// gives the path of one empty segment.
    pub fn from_text(text: &str) -> (r: Self)
        ensures
            r@ == split(text@, SEPARATOR),
    {
        QualifiedPath { path: split_text(text, SEPARATOR) }
    }

    /// The path of the one segment `segment`, taken as it is.
    pub fn of_segment(segment: &str) -> (r: Self)
        ensures
            r@ == seq![segment@],
    {
        let mut path: Vec<String> = Vec::new();
        path.push(String::from_str(segment));
        let r = QualifiedPath { path };
        assert(r@ =~= seq![segment@]);
        r
    }

    /// This path followed by the one segment `segment`, taken as it is.
    pub fn child(&self, segment: &str) -> (r: Self)
        ensures
            r@ == self@.push(segment@),
    {
        let mut path = self.clone().path;
        let ghost before = views(path@);
        path.push(String::from_str(segment));
        let r = QualifiedPath { path };
        assert(r@ =~= before.push(segment@));
        r
    }

    /// The path made of the segments of every part in turn.
    pub fn from_parts(parts: &Vec<String>) -> (r: Self)
        ensures
            r@ == split_each(views(parts@)),
    {
        let mut r = QualifiedPath::new();
        let mut i: usize = 0;
        while i < parts.len()
            invariant
                i <= parts.len(),
                r@ == split_each(views(parts@).take(i as int)),
            decreases parts.len() - i,
        {
            proof {
                let next = views(parts@).take(i + 1);
                assert(next.drop_last() =~= views(parts@).take(i as int));
                assert(next.last() == parts@[i as int]@);
            }
            r.push(parts[i].as_str());
            i += 1;
        }
        assert(views(parts@).take(parts@.len() as int) =~= views(parts@));
        r
    }

    /// The native branch name: every segment but the last carries the escape
    /// mark, and the segments are joined by `/`. The empty path gives the
    /// empty name.
    pub fn to_git_branch(&self) -> (r: String)
        ensures
            r@ == encode(self@),
    {
        let n = self.path.len();
        let mut marked: Vec<String> = Vec::new();
        let mut i: usize = 0;
        while i < n
            invariant
                i <= n,
                n == self.path.len(),
                views(marked@) == escaped(self@).take(i as int),
            decreases n - i,
        {
            let mut segment = String::new();
            if i < n - 1 {
                segment.push(ESCAPE_MARK);
            }
            segment.append(self.path[i].as_str());
            proof {
                assert(Seq::<char>::empty().push(ESCAPE_MARK) =~= seq![ESCAPE_MARK]);
                assert(Seq::<char>::empty() + self.path[i as int]@ =~= self.path[i as int]@);
                assert(segment@ == escaped(self@)[i as int]);
            }
            let ghost before = views(marked@);
            marked.push(segment);
            assert(views(marked@) =~= before.push(segment@));
            assert(escaped(self@).take(i + 1) =~= escaped(self@).take(i as int).push(
                escaped(self@)[i as int],
            ));
            i += 1;
        }
        assert(escaped(self@).take(n as int) =~= escaped(self@));
        join_text(&marked, SEPARATOR)
    }

    /// The segments joined by `/`.
    pub fn to_string(&self) -> (r: String)
        ensures
            r@ == join(self@, SEPARATOR),
    {
        join_text(&self.path, SEPARATOR)
    }

    /// Appends the segments of `path`.
    pub fn push(&mut self, path: &str)
        ensures
            final(self)@ == old(self)@ + split(path@, SEPARATOR),
    {
        let mut pieces = split_text(path, SEPARATOR);
        let ghost before = self@;
        let ghost added = views(pieces@);
        self.path.append(&mut pieces);
        assert(self@ =~= before + added);
    }

    /// The segments from index `n_left` up to, not including, `n_right`.
    pub fn trim_n(&self, n_left: usize, n_right: usize) -> (r: QualifiedPath)
        requires
            n_left <= n_right <= self@.len(),
        ensures
            r@ == self@.subrange(n_left as int, n_right as int),
    {
        let mut v: Vec<String> = Vec::new();
        let mut i: usize = n_left;
        while i < n_right
            invariant
                n_left <= i <= n_right <= self.path.len(),
                v.len() == i - n_left,
                forall|j: int| 0 <= j < v.len() ==> v[j]@ == self.path[n_left + j]@,
            decreases n_right - i,
        {
            v.push(self.path[i].clone());
            i += 1;
        }
        let r = QualifiedPath { path: v };
        assert(r@ =~= self@.subrange(n_left as int, n_right as int));
        r
    }

    /// The path without its first `n` segments.
    pub fn trim_n_left(&self, n: usize) -> (r: QualifiedPath)
        requires
            n <= self@.len(),
        ensures
            r@ == self@.skip(n as int),
    {
        self.trim_n(n, self.path.len())
    }

    /// The path without its last `n` segments.
    pub fn trim_n_right(&self, n: usize) -> (r: QualifiedPath)
        requires
            n <= self@.len(),
        ensures
            r@ == self@.take(self@.len() - n),
    {
        self.trim_n(0, self.path.len() - n)
    }

    /// The first segment, if any.
    pub fn first(&self) -> (r: Option<&String>)
        ensures
            match r {
                Some(s) => self@.len() > 0 && s@ == self@.first(),
                None => self@.len() == 0,
            },
    {
        if self.path.len() == 0 {
            None
        } else {
            Some(&self.path[0])
        }
    }

    /// The last segment, if any.
    pub fn last(&self) -> (r: Option<&String>)
        ensures
            match r {
                Some(s) => self@.len() > 0 && s@ == self@.last(),
                None => self@.len() == 0,
            },
    {
        if self.path.len() == 0 {
            None
        } else {
            Some(&self.path[self.path.len() - 1])
        }
    }

    /// Whether the path has no segment.
    pub fn is_empty(&self) -> (r: bool)
        ensures
            r == (self@.len() == 0),
    {
        self.path.len() == 0
    }

    /// The segments in order.
    pub fn iter(&self) -> (r: &Vec<String>)
        ensures
            views(r@) == self@,
    {
        &self.path
    }

    /// The single-segment path of the segment at `index`, if there is one.
    pub fn get(&self, index: usize) -> (r: Option<QualifiedPath>)
        ensures
            match r {
                Some(p) => index < self@.len() && p@ == seq![self@[index as int]],
                None => index >= self@.len(),
            },
    {
        if index < self.path.len() {
            let p = self.trim_n(index, index + 1);
            assert(p@ =~= seq![self@[index as int]]);
            Some(p)
        } else {
            None
        }
    }

    /// Whether the segments of `prefix` are the first segments of this path.
    pub fn starts_with(&self, prefix: &QualifiedPath) -> (r: bool)
        ensures
            r == prefix@.is_prefix_of(self@),
    {
        if prefix.path.len() > self.path.len() {
            return false;
        }
        let mut i: usize = 0;
        while i < prefix.path.len()
            invariant
                i <= prefix.path.len() <= self.path.len(),
                forall|j: int| 0 <= j < i ==> self.path[j]@ == prefix.path[j]@,
            decreases prefix.path.len() - i,
        {
            if self.path[i] != prefix.path[i] {
                assert(self@.subrange(0, prefix@.len() as int)[i as int] == self@[i as int]);
                assert(prefix@[i as int] != self@[i as int]);
                return false;
            }
            i += 1;
        }
        assert(prefix@ =~= self@.subrange(0, prefix@.len() as int));
        true
    }

    /// The number of segments.
    pub fn len(&self) -> (r: usize)
        ensures
            r == self@.len(),
    {
        self.path.len()
    }

    /// This path followed by the segments of `other`.
    pub fn concat(&self, other: &QualifiedPath) -> (r: QualifiedPath)
        ensures
            r@ == self@ + other@,
    {
        let mut v = self.clone().path;
        let mut w = other.clone().path;
        let ghost a = views(v@);
        let ghost b = views(w@);
        v.append(&mut w);
        let r = QualifiedPath { path: v };
        assert(r@ =~= a + b);
        r
    }
}

} // verus!
