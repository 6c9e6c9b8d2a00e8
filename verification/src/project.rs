//! Project descriptors: the references a project declares, resolved against
//! the directory of its descriptor.

use crate::path::{lemma_resolve_traversal_free, DescriptorPath, PathView};
use crate::text::{
    contains, fenced, fenced_span, occurs, skip_multispace, skip_whitespace, split, split_on,
    tag, trim_end_matches, trimmed_end, views, NotFound,
};
use vstd::prelude::*;

verus! {

/// A reference from one project to another, resolved when it was read.
#[derive(Debug)]
pub struct ProjectReference {
    pub include_path: DescriptorPath,
}

/// A project: where its descriptor lies and which projects it references, in
/// the order in which the descriptor declares them.
#[derive(Debug)]
pub struct Project {
    pub path: DescriptorPath,
    pub references: Vec<ProjectReference>,
}

/// The mathematical value of a `Project`.
pub struct ProjectView {
    pub path: PathView,
    pub references: Seq<PathView>,
}

/// The paths that a sequence of references holds.
pub open spec fn reference_paths(references: Seq<ProjectReference>) -> Seq<PathView> {
    references.map_values(|r: ProjectReference| r.include_path@)
}

/// The views of a sequence of paths.
pub open spec fn path_views(paths: Seq<DescriptorPath>) -> Seq<PathView> {
    paths.map_values(|p: DescriptorPath| p@)
}

/// The views of a sequence of projects.
pub open spec fn project_views(projects: Seq<Project>) -> Seq<ProjectView> {
    projects.map_values(|p: Project| p@)
}

impl Clone for ProjectReference {
    fn clone(&self) -> (copy: Self)
        ensures
            copy.include_path@ == self.include_path@,
    {
        ProjectReference { include_path: self.include_path.clone() }
    }
}

impl Clone for Project {
    fn clone(&self) -> (copy: Self)
        ensures
            copy@ == self@,
    {
        let mut references: Vec<ProjectReference> = Vec::new();
        let mut i: usize = 0;
        while i < self.references.len()
            invariant
                i <= self.references.len(),
                reference_paths(references@) == self@.references.take(i as int),
            decreases self.references.len() - i,
        {
            let ghost before = references@;
            let reference = self.references[i].clone();
            references.push(reference);
            assert(reference_paths(references@) =~= reference_paths(before).push(
                reference.include_path@,
            ));
            assert(reference_paths(references@) =~= self@.references.take(i + 1));
            i += 1;
        }
        assert(reference_paths(references@) =~= self@.references);
        Project { path: self.path.clone(), references }
    }
}

impl ProjectView {
    /// The path filter of the project: the glob that covers the directory of
    /// its descriptor.
    pub open spec fn path_filter(self) -> Seq<char> {
        self.path.glob()
    }
}

impl View for Project {
    type V = ProjectView;

    open spec fn view(&self) -> ProjectView {
        ProjectView { path: self.path@, references: reference_paths(self.references@) }
    }
}

/// The lines of a descriptor: its text cut at every line feed. A carriage
/// return before the line feed stays at the end of its line, and a text
/// that ends in a line feed has an empty last line; neither declares
/// anything.
pub open spec fn lines(text: Seq<char>) -> Seq<Seq<char>> {
    split(text, "\n"@)
}

/// The line speaks of a test project: it names a descriptor that ends in
/// `Tests` or `Test`, or holds `.Test` anywhere.
pub open spec fn is_test_line(line: Seq<char>) -> bool {
    ||| occurs(line, "Tests.csproj"@)
    ||| occurs(line, "Test.csproj"@)
    ||| occurs(line, ".Test"@)
}

/// The reference that a line of a project descriptor declares: after
/// optional white space the line goes on with `<ProjectReference`, optional
/// white space, `Include=` and a value in double quotes. The first component
/// is what follows the closing quote, the second is the value.
pub open spec fn include_in(line: Seq<char>) -> Option<(Seq<char>, Seq<char>)> {
    let element = skip_multispace(line);
    if "<ProjectReference"@.is_prefix_of(element) {
        let attribute = skip_multispace(element.skip("<ProjectReference"@.len() as int));
        if "Include="@.is_prefix_of(attribute) {
            fenced_span(attribute.skip("Include="@.len() as int), "\""@, "\""@)
        } else {
            None
        }
    } else {
        None
    }
}

/// The references that the lines declare, in order, those of test lines left
/// out.
pub open spec fn includes_in(lines: Seq<Seq<char>>) -> Seq<Seq<char>>
    decreases lines.len(),
{
    if lines.len() == 0 {
        Seq::empty()
    } else {
        let before = includes_in(lines.drop_last());
        let line = lines.last();
        if is_test_line(line) {
            before
        } else {
            match include_in(line) {
                Some((_, reference)) => before.push(reference),
                None => before,
            }
        }
    }
}

/// The paths that the descriptor at `path` with the text `text` references:
/// each declared reference resolved against the descriptor's directory.
pub open spec fn resolved_includes(path: PathView, text: Seq<char>) -> Seq<PathView> {
    includes_in(lines(text)).map_values(|reference: Seq<char>| path.pop().resolve(reference))
}

/// The project that the descriptor at `path` with the text `text` describes.
pub open spec fn project_of(path: PathView, text: Seq<char>) -> ProjectView {
    ProjectView { path, references: resolved_includes(path, text) }
}

/// A line that speaks of a test project declares no reference, whatever
/// else stands on it.
pub proof fn lemma_test_line_declares_nothing(before: Seq<Seq<char>>, line: Seq<char>)
    requires
        is_test_line(line),
    ensures
        includes_in(before.push(line)) == includes_in(before),
{
    assert(before.push(line).drop_last() =~= before);
}

/// Where the directory of a descriptor holds no parent token, none of the
/// paths it references does.
pub proof fn lemma_includes_traversal_free(path: PathView, text: Seq<char>)
    requires
        path.pop().is_traversal_free(),
    ensures
        forall|i: int|
            0 <= i < resolved_includes(path, text).len() ==> (#[trigger] resolved_includes(
                path,
                text,
            )[i]).is_traversal_free(),
{
    let raw = includes_in(lines(text));
    assert forall|i: int| 0 <= i < resolved_includes(path, text).len() implies (
    #[trigger] resolved_includes(path, text)[i]).is_traversal_free() by {
        lemma_resolve_traversal_free(path.pop(), raw[i]);
    }
}

/// The path filter of a project depends on nothing but where its descriptor
/// lies: two projects at the same path have the same filter, whatever they
/// reference, and asking twice gives the same answer.
pub proof fn lemma_path_filter_depends_on_path(a: ProjectView, b: ProjectView)
    requires
        a.path == b.path,
    ensures
        a.path_filter() == b.path_filter(),
{
}

/// The name under which the project at `path` is shown: the file name with
/// every trailing `.csproj` taken off.
pub open spec fn project_name(path: PathView) -> Seq<char> {
    trimmed_end(path.segments.last(), ".csproj"@)
}

/// Whether the line speaks of a test project.
pub fn is_test_reference(line: &str) -> (excluded: bool)
    ensures
        excluded == is_test_line(line@),
{
    contains(line, "Tests.csproj") || contains(line, "Test.csproj") || contains(line, ".Test")
}

/// Reads the project reference that `input` declares, if it declares one:
/// the value of `Include` and what follows its closing quote.
pub fn extract_include<'a>(input: &'a str) -> (r: Result<(&'a str, String), NotFound>)
    ensures
        match include_in(input@) {
            Some((rest, reference)) => r matches Ok((x, y)) && x@ == rest && y@ == reference,
            None => r is Err,
        },
{
    let input = skip_whitespace(input);
    let input = match tag(input, "<ProjectReference") {
        Some(rest) => rest,
        None => { return Err(NotFound); },
    };
    let input = skip_whitespace(input);
    let input = match tag(input, "Include=") {
        Some(rest) => rest,
        None => { return Err(NotFound); },
    };
    match fenced(input, "\"", "\"") {
        Ok((rest, path)) => Ok((rest, path.to_owned())),
        Err(e) => Err(e),
    }
}

/// The paths of the projects that the descriptor at `project_path` with the
/// text `text` references, in the order of their declaration. Lines that
/// speak of a test project are passed over.
pub fn extract_includes(project_path: &DescriptorPath, text: &str) -> (paths: Vec<DescriptorPath>)
    ensures
        path_views(paths@) == resolved_includes(project_path@, text@),
{
    let all = split_on(text, "\n");
    let mut includes: Vec<String> = Vec::new();
    let mut i: usize = 0;
    while i < all.len()
        invariant
            i <= all.len(),
            crate::path::texts(includes@) == includes_in(views(all@).take(i as int)),
        decreases all.len() - i,
    {
        let line = all[i];
        let ghost before = includes@;
        proof {
            assert(views(all@).take(i + 1).drop_last() =~= views(all@).take(i as int));
        }
        if !is_test_reference(line) {
            if let Ok((_, raw)) = extract_include(line) {
                includes.push(raw);
                assert(crate::path::texts(includes@) =~= crate::path::texts(before).push(
                    raw@,
                ));
            }
        }
        i += 1;
    }
    assert(views(all@).take(i as int) =~= views(all@));

    let mut directory = project_path.clone();
    directory.pop();
    let mut resolved_paths: Vec<DescriptorPath> = Vec::new();
    let mut k: usize = 0;
    while k < includes.len()
        invariant
            k <= includes.len(),
            directory@ == project_path@.pop(),
            crate::path::texts(includes@) == includes_in(lines(text@)),
            path_views(resolved_paths@) == resolved_includes(project_path@, text@).take(k as int),
        decreases includes.len() - k,
    {
        let ghost before = resolved_paths@;
        let path = directory.resolve(includes[k].as_str());
        resolved_paths.push(path);
        assert(path_views(resolved_paths@) =~= path_views(before).push(path@));
        assert(path_views(resolved_paths@) =~= resolved_includes(project_path@, text@).take(
            k + 1,
        ));
        k += 1;
    }
    assert(path_views(resolved_paths@) =~= resolved_includes(project_path@, text@));
    resolved_paths
}

/// The name under which the project at `path` is shown.
pub fn project_name_from_path(path: &DescriptorPath) -> (name: String)
    requires
        path@.file_name() is Some,
    ensures
        name@ == project_name(path@),
{
    let file_name = path.segments[path.segments.len() - 1].as_str();
    trim_end_matches(file_name, ".csproj").to_owned()
}

impl Project {
    /// The project whose descriptor lies at `path` and reads `text`. The
    /// projects it references are named, not read.
    pub fn new(path: DescriptorPath, text: &str) -> (project: Project)
        ensures
            project@ == project_of(path@, text@),
            path@.pop().is_traversal_free() ==> forall|i: int|
                0 <= i < project@.references.len() ==> (
                #[trigger] project@.references[i]).is_traversal_free(),
    {
        proof {
            if path@.pop().is_traversal_free() {
                lemma_includes_traversal_free(path@, text@);
            }
        }
        let includes = extract_includes(&path, text);
        let mut references: Vec<ProjectReference> = Vec::new();
        let ghost wanted = path_views(includes@);
        for resolved in it: includes
            invariant
                path_views(it.seq()) == wanted,
                reference_paths(references@) == wanted.take(it.index() as int),
        {
            let ghost before = references@;
            let reference = ProjectReference { include_path: resolved };
            references.push(reference);
            assert(reference_paths(references@) =~= reference_paths(before).push(resolved@));
            assert(reference_paths(references@) =~= wanted.take(it.index() + 1));
        }
        assert(reference_paths(references@) =~= wanted);
        Project { path, references }
    }

    /// The glob that covers the project's directory, as the build service
    /// writes path filters: the directories from the repository's top down to
    /// the one that holds the descriptor, then a wildcard, with forward
    /// slashes and a closing semicolon.
    pub fn azure_path_filter(&self) -> (filter: String)
        requires
            self@.path.is_anchored(),
        ensures
            filter@ == self@.path_filter(),
    {
        self.path.glob()
    }
}

} // verus!
