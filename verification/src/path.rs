//! Descriptor paths as a root and a sequence of segments, and their purely
//! lexical resolution.

use crate::text::{
    forward_slashes, lemma_absent_mark, push_forward_slashed, same_text, split, split_on, views,
};
use vstd::string::StringExecFns;
use vstd::prelude::*;

verus! {

/// The absolute path of a descriptor file: a root (such as `/` or a drive),
/// which is carried along unread, and the names below it, outermost first.
#[derive(Debug)]
pub struct DescriptorPath {
    pub root: String,
    pub segments: Vec<String>,
}

/// The mathematical value of a `DescriptorPath`.
pub struct PathView {
    pub root: Seq<char>,
    pub segments: Seq<Seq<char>>,
}

/// The name of the directory that is the top of the repository.
pub const ROOT_MARKER: &'static str = "SE-CustomerPortal";

/// The views of a sequence of strings.
pub open spec fn texts(strings: Seq<String>) -> Seq<Seq<char>> {
    strings.map_values(|s: String| s@)
}

/// The segment that stands for the parent directory in a reference.
pub open spec fn parent_token() -> Seq<char> {
    ".."@
}

/// The separator of segments in a project reference.
pub open spec fn reference_separator() -> Seq<char> {
    "\\"@
}

/// The separator of segments in a build target and in a path's text.
pub open spec fn target_separator() -> Seq<char> {
    "/"@
}

/// The names written one after the other, each behind a `/`.
pub open spec fn slashed(names: Seq<Seq<char>>) -> Seq<char>
    decreases names.len(),
{
    if names.len() == 0 {
        Seq::empty()
    } else {
        slashed(names.drop_last()) + "/"@ + names.last()
    }
}

impl PathView {
    /// The path one level up; a path without segments stays as it is.
    pub open spec fn pop(self) -> PathView {
        if self.segments.len() > 0 {
            PathView { root: self.root, segments: self.segments.drop_last() }
        } else {
            self
        }
    }

    /// The path one level down, in `segment`; an empty segment names nothing
    /// and leaves the path as it is. Any other segment is one name as it
    /// stands, whatever characters it holds.
    pub open spec fn descend(self, segment: Seq<char>) -> PathView {
        if segment.len() > 0 {
            PathView { root: self.root, segments: self.segments.push(segment) }
        } else {
            self
        }
    }

    /// The path reached by descending through `names` in turn.
    pub open spec fn descend_all(self, names: Seq<Seq<char>>) -> PathView
        decreases names.len(),
    {
        if names.len() == 0 {
            self
        } else {
            self.descend_all(names.drop_last()).descend(names.last())
        }
    }

    /// One step of a reference: the parent token goes up, any other segment
    /// goes down.
    pub open spec fn step(self, segment: Seq<char>) -> PathView {
        if segment == parent_token() {
            self.pop()
        } else {
            self.descend(segment)
        }
    }

    /// The path reached by taking the steps `names` in turn.
    pub open spec fn walk(self, names: Seq<Seq<char>>) -> PathView
        decreases names.len(),
    {
        if names.len() == 0 {
            self
        } else {
            self.walk(names.drop_last()).step(names.last())
        }
    }

    /// A build target below this directory: its `/`-separated segments are
    /// appended as they stand, `.` and `..` too; only empty ones are passed
    /// over.
    pub open spec fn join(self, target: Seq<char>) -> PathView {
        self.descend_all(split(target, target_separator()))
    }

    /// A project reference resolved against this directory: its
    /// `\`-separated segments are walked from here. Only the backslash
    /// separates: a forward slash is part of the name it stands in.
    pub open spec fn resolve(self, reference: Seq<char>) -> PathView {
        self.walk(split(reference, reference_separator()))
    }

    /// The last segment, if there is one.
    pub open spec fn file_name(self) -> Option<Seq<char>> {
        if self.segments.len() > 0 {
            Some(self.segments.last())
        } else {
            None
        }
    }

    /// The directories on the way to the file: every segment but the last.
    pub open spec fn directories(self) -> Seq<Seq<char>> {
        self.pop().segments
    }

    /// The directory below which the build targets of the pipeline
    /// descriptor at this path are read: the outermost directory above the
    /// descriptor that is named like the repository's top directory, or,
    /// where none is, the directory that holds the descriptor. The
    /// descriptor's own name is never part of it.
    pub open spec fn anchor(self) -> PathView {
        match self.directories().index_of_first(ROOT_MARKER@) {
            Some(i) => PathView { root: self.root, segments: self.directories().take(i + 1) },
            None => self.pop(),
        }
    }

    /// The file lies in or below the repository's top directory.
    pub open spec fn is_anchored(self) -> bool {
        self.directories().contains(ROOT_MARKER@)
    }

    /// The directories between the repository's top directory and the file,
    /// outermost first.
    pub open spec fn directories_in_repository(self) -> Seq<Seq<char>> {
        let dirs = self.directories();
        match dirs.index_of_first(ROOT_MARKER@) {
            Some(i) => dirs.skip(i + 1),
            None => dirs,
        }
    }

    /// The glob that covers the file's directory: the directories below the
    /// repository's top, each after a `/`, then `/*`, all with forward
    /// slashes only, and a closing `;`.
    pub open spec fn glob(self) -> Seq<char> {
        forward_slashes(slashed(self.directories_in_repository()) + "/*"@) + ";"@
    }

    /// No segment is the parent token.
    pub open spec fn is_traversal_free(self) -> bool {
        !self.segments.contains(parent_token())
    }
}

/// A segment that names something: it is not empty.
pub open spec fn is_name(segment: Seq<char>) -> bool {
    segment.len() > 0
}

/// Descending through names appends those of them that are not empty and
/// leaves the root alone.
pub proof fn lemma_descend_all_appends(dir: PathView, names: Seq<Seq<char>>)
    ensures
        dir.descend_all(names).root == dir.root,
        dir.descend_all(names).segments == dir.segments + names.filter(|n: Seq<char>| is_name(n)),
    decreases names.len(),
{
    let named = |n: Seq<char>| is_name(n);
    if names.len() == 0 {
        reveal(Seq::filter);
        assert(dir.segments + names.filter(named) =~= dir.segments);
    } else {
        let init = names.drop_last();
        lemma_descend_all_appends(dir, init);
        init.lemma_filter_push(names.last(), named);
        assert(init.push(names.last()) =~= names);
        assert(dir.descend_all(names).segments =~= dir.segments + names.filter(named));
    }
}

/// Steps none of which is the parent token only ever go down.
pub proof fn lemma_walk_without_parent(dir: PathView, names: Seq<Seq<char>>)
    requires
        !names.contains(parent_token()),
    ensures
        dir.walk(names) == dir.descend_all(names),
    decreases names.len(),
{
    if names.len() > 0 {
        let init = names.drop_last();
        assert forall|i: int| 0 <= i < init.len() implies init[i] != parent_token() by {
            assert(names[i] == init[i]);
            assert(names.contains(names[i]));
        }
        assert(!init.contains(parent_token()));
        lemma_walk_without_parent(dir, init);
        assert(names.contains(names.last()));
    }
}

/// Walking from a path without parent tokens leads to a path without parent
/// tokens.
pub proof fn lemma_walk_traversal_free(dir: PathView, names: Seq<Seq<char>>)
    requires
        dir.is_traversal_free(),
    ensures
        dir.walk(names).is_traversal_free(),
    decreases names.len(),
{
    if names.len() > 0 {
        lemma_walk_traversal_free(dir, names.drop_last());
        let at = dir.walk(names.drop_last());
        let next = at.step(names.last());
        assert forall|i: int| 0 <= i < next.segments.len() implies next.segments[i]
            != parent_token() by {
            if i < at.segments.len() {
                assert(next.segments[i] == at.segments[i]);
                assert(at.segments.contains(at.segments[i]));
            }
        }
    }
}

/// A reference in which no segment is the parent token resolves to the
/// directory followed by the reference's segments, in order and once each:
/// resolution adds nothing and takes nothing away. (Empty segments, which
/// name nothing, are passed over.)
pub proof fn lemma_resolve_without_traversal(dir: PathView, reference: Seq<char>)
    requires
        !split(reference, reference_separator()).contains(parent_token()),
    ensures
        dir.resolve(reference).root == dir.root,
        dir.resolve(reference).segments == dir.segments + split(
            reference,
            reference_separator(),
        ).filter(|n: Seq<char>| is_name(n)),
{
    let names = split(reference, reference_separator());
    lemma_walk_without_parent(dir, names);
    lemma_descend_all_appends(dir, names);
}

/// A reference without a backslash is a single name, whatever else it
/// holds: it goes one level up if it is the parent token and one level down
/// otherwise, forward slashes and all.
pub proof fn lemma_resolve_single_name(dir: PathView, reference: Seq<char>)
    requires
        !reference.contains('\\'),
    ensures
        split(reference, reference_separator()) == seq![reference],
        dir.resolve(reference) == dir.step(reference),
{
    reveal_strlit("\\");
    assert(reference_separator() =~= seq!['\\']);
    lemma_absent_mark(reference, '\\');
    let names = seq![reference];
    assert(names.drop_last() =~= Seq::<Seq<char>>::empty());
    assert(dir.walk(names.drop_last()) == dir);
}

/// A reference resolved against a directory without parent tokens holds no
/// parent token.
pub proof fn lemma_resolve_traversal_free(dir: PathView, reference: Seq<char>)
    requires
        dir.is_traversal_free(),
    ensures
        dir.resolve(reference).is_traversal_free(),
{
    lemma_walk_traversal_free(dir, split(reference, reference_separator()));
}

/// Two files in the same directory are covered by the same glob: the glob
/// does not depend on the file's own name.
pub proof fn lemma_glob_ignores_file_name(a: PathView, b: PathView)
    requires
        a.segments.len() > 0,
        b.segments.len() > 0,
        a.segments.drop_last() == b.segments.drop_last(),
    ensures
        a.is_anchored() == b.is_anchored(),
        a.glob() == b.glob(),
{
}

impl View for DescriptorPath {
    type V = PathView;

    open spec fn view(&self) -> PathView {
        PathView { root: self.root@, segments: texts(self.segments@) }
    }
}

impl Clone for DescriptorPath {
    fn clone(&self) -> (copy: Self)
        ensures
            copy@ == self@,
    {
        let mut segments: Vec<String> = Vec::new();
        let mut i: usize = 0;
        while i < self.segments.len()
            invariant
                i <= self.segments.len(),
                texts(segments@) == texts(self.segments@).take(i as int),
            decreases self.segments.len() - i,
        {
            let ghost before = segments@;
            let segment = self.segments[i].clone();
            segments.push(segment);
            assert(texts(segments@) =~= texts(before).push(self.segments@[i as int]@));
            assert(texts(segments@) =~= texts(self.segments@).take(i + 1));
            i += 1;
        }
        assert(texts(segments@) =~= texts(self.segments@));
        DescriptorPath { root: self.root.clone(), segments }
    }
}

impl DescriptorPath {
    /// The path that is the root alone.
    pub fn new(root: &str) -> (path: Self)
        ensures
            path@ == (PathView { root: root@, segments: Seq::empty() }),
    {
        let path = DescriptorPath { root: root.to_owned(), segments: Vec::new() };
        assert(path@.segments =~= Seq::empty());
        path
    }

    /// Whether the two paths have the same root and the same segments.
    pub fn same_as(&self, other: &DescriptorPath) -> (same: bool)
        ensures
            same == (self@ == other@),
    {
        if !same_text(self.root.as_str(), other.root.as_str()) {
            return false;
        }
        if self.segments.len() != other.segments.len() {
            assert(self@.segments.len() != other@.segments.len());
            return false;
        }
        let mut i: usize = 0;
        while i < self.segments.len()
            invariant
                i <= self.segments.len(),
                self.segments.len() == other.segments.len(),
                self@.segments.take(i as int) == other@.segments.take(i as int),
            decreases self.segments.len() - i,
        {
            if !same_text(self.segments[i].as_str(), other.segments[i].as_str()) {
                assert(self@.segments[i as int] != other@.segments[i as int]);
                return false;
            }
            assert(self@.segments.take(i + 1) =~= self@.segments.take(i as int).push(
                self@.segments[i as int],
            ));
            assert(other@.segments.take(i + 1) =~= other@.segments.take(i as int).push(
                other@.segments[i as int],
            ));
            i += 1;
        }
        assert(self@.segments =~= self@.segments.take(i as int));
        assert(other@.segments =~= other@.segments.take(i as int));
        true
    }

    /// Goes one level up; a path without segments stays as it is.
    pub fn pop(&mut self)
        ensures
            final(self)@ == old(self)@.pop(),
    {
        if self.segments.len() > 0 {
            self.segments.pop();
            assert(self@.segments =~= old(self)@.segments.drop_last());
        }
    }

    /// Goes one level down, into `segment`; an empty segment is passed over.
    /// The segment is taken as one name as it stands: it is not cut at `/`
    /// or `\`, and `.` and `..` are names like any other here.
    pub fn descend(&mut self, segment: &str)
        ensures
            final(self)@ == old(self)@.descend(segment@),
    {
        if !segment.is_empty() {
            self.segments.push(segment.to_owned());
            assert(self@.segments =~= old(self)@.segments.push(segment@));
        }
    }

    /// The last segment, if there is one.
    pub fn file_name(&self) -> (name: Option<&str>)
        ensures
            name is Some <==> self@.file_name() is Some,
            name matches Some(n) ==> Some(n@) == self@.file_name(),
    {
        if self.segments.len() > 0 {
            Some(self.segments[self.segments.len() - 1].as_str())
        } else {
            None
        }
    }

    /// The path of a build target that is written relative to this
    /// directory, with `/` between its segments. Empty pieces are passed
    /// over; every other piece, `.` and `..` too, becomes a segment as it
    /// stands, and nothing is cut at `\`.
    pub fn join(&self, target: &str) -> (path: DescriptorPath)
        ensures
            path@ == self@.join(target@),
    {
        let names = split_on(target, "/");
        let mut path = self.clone();
        let mut i: usize = 0;
        while i < names.len()
            invariant
                i <= names.len(),
                path@ == self@.descend_all(views(names@).take(i as int)),
            decreases names.len() - i,
        {
            path.descend(names[i]);
            assert(views(names@).take(i + 1).drop_last() =~= views(names@).take(i as int));
            i += 1;
        }
        assert(views(names@).take(i as int) =~= views(names@));
        path
    }

    /// The path that a project reference names when it is read in this
    /// directory: the reference's `\`-separated segments are taken in turn,
    /// `..` going one level up and any other segment one level down. Nothing
    /// on disk is looked at, and going up from the root changes nothing.
    ///
    /// The backslash is the only separator of a reference. What stands
    /// between two backslashes is one name, also where it holds a forward
    /// slash: `../S/S.csproj` is a single segment and goes one level down,
    /// not up. A segment `.` is a name too and is kept.
    pub fn resolve(&self, reference: &str) -> (path: DescriptorPath)
        ensures
            path@ == self@.resolve(reference@),
            !reference@.contains('\\') ==> path@ == self@.step(reference@),
    {
        proof {
            if !reference@.contains('\\') {
                lemma_resolve_single_name(self@, reference@);
            }
        }
        let names = split_on(reference, "\\");
        let mut path = self.clone();
        let mut i: usize = 0;
        while i < names.len()
            invariant
                i <= names.len(),
                path@ == self@.walk(views(names@).take(i as int)),
            decreases names.len() - i,
        {
            if same_text(names[i], "..") {
                path.pop();
            } else {
                path.descend(names[i]);
            }
            assert(views(names@).take(i + 1).drop_last() =~= views(names@).take(i as int));
            i += 1;
        }
        assert(views(names@).take(i as int) =~= views(names@));
        path
    }

    /// The index of the first segment before `limit` that is the repository's
    /// top directory.
    fn marker_index(&self, limit: usize) -> (found: Option<usize>)
        requires
            limit <= self.segments.len(),
        ensures
            match found {
                Some(i) => i < limit && self@.segments.take(limit as int).index_of_first(
                    ROOT_MARKER@,
                ) == Some(i as int),
                None => self@.segments.take(limit as int).index_of_first(ROOT_MARKER@) is None,
            },
    {
        let ghost names = self@.segments.take(limit as int);
        let mut i: usize = 0;
        while i < limit
            invariant
                i <= limit <= self.segments.len(),
                names == self@.segments.take(limit as int),
                forall|j: int| 0 <= j < i ==> names[j] != ROOT_MARKER@,
            decreases limit - i,
        {
            if same_text(self.segments[i].as_str(), ROOT_MARKER) {
                proof {
                    assert(names[i as int] == ROOT_MARKER@);
                    names.index_of_first_ensures(ROOT_MARKER@);
                }
                return Some(i);
            }
            i += 1;
        }
        proof {
            names.index_of_first_ensures(ROOT_MARKER@);
        }
        None
    }

    /// The directory below which the build targets of the pipeline
    /// descriptor at this path are read: this path up to and including the
    /// first of its directories that is named like the repository's top
    /// directory, or, where none is, the directory that holds the
    /// descriptor.
    pub fn anchor(&self) -> (path: DescriptorPath)
        ensures
            path@ == self@.anchor(),
    {
        let mut path = self.clone();
        path.pop();
        if self.segments.len() == 0 {
            proof {
                self@.directories().index_of_first_ensures(ROOT_MARKER@);
            }
            return path;
        }
        let limit = self.segments.len() - 1;
        assert(self@.directories() =~= self@.segments.take(limit as int));
        match self.marker_index(limit) {
            Some(i) => {
                path.segments.truncate(i + 1);
                assert(path@.segments =~= self@.directories().take(i + 1));
                path
            },
            None => path,
        }
    }

    /// Whether the file lies in or below the repository's top directory.
    pub fn is_anchored(&self) -> (anchored: bool)
        ensures
            anchored == self@.is_anchored(),
    {
        if self.segments.len() == 0 {
            return false;
        }
        let limit = self.segments.len() - 1;
        proof {
            assert(self@.directories() =~= self@.segments.take(limit as int));
            self@.directories().index_of_first_ensures(ROOT_MARKER@);
        }
        self.marker_index(limit).is_some()
    }

    /// The glob that covers the directory of the file.
    pub fn glob(&self) -> (glob: String)
        requires
            self@.is_anchored(),
        ensures
            glob@ == self@.glob(),
    {
        let limit = self.segments.len() - 1;
        proof {
            assert(self@.directories() =~= self@.segments.take(limit as int));
            self@.directories().index_of_first_ensures(ROOT_MARKER@);
        }
        let first = match self.marker_index(limit) {
            Some(i) => i + 1,
            None => 0,
        };
        let ghost below = self@.directories_in_repository();
        let mut glob = String::new();
        let mut i: usize = first;
        while i < limit
            invariant
                first <= i <= limit,
                limit == self.segments.len() - 1,
                below == self@.segments.subrange(first as int, limit as int),
                glob@ == forward_slashes(slashed(below.take(i - first))),
            decreases limit - i,
        {
            glob.append("/");
            push_forward_slashed(&mut glob, self.segments[i].as_str());
            proof {
                reveal_strlit("/");
                let upto = below.take(i + 1 - first);
                assert(upto.drop_last() =~= below.take(i - first));
                assert(upto.last() == self@.segments[i as int]);
                assert(glob@ =~= forward_slashes(slashed(upto)));
            }
            i += 1;
        }
        glob.append("/*");
        glob.append(";");
        proof {
            reveal_strlit("/*");
            assert(below.take(limit - first) =~= below);
            assert(glob@ =~= self@.glob());
        }
        glob
    }
}

} // verus!
