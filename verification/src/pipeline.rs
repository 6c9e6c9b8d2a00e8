//! Pipeline descriptors: the projects a pipeline builds, the projects those
//! reference, and the path filter that covers them all.

use crate::filter::{
    canonical, insert_ascending, is_ascending, join_with, lemma_ascending_of,
};
use crate::path::{texts, DescriptorPath, PathView};
use crate::project::{
    is_test_line, is_test_reference, lines, path_views, project_of, project_views, Project,
    ProjectView,
};
use crate::store::{DescriptorStore, MissingDescriptor};
use crate::text::{
    extension_is, extract_fenced, first_fenced, has_extension, lemma_absent_mark,
    lemma_first_fenced_between_quotes, same_text, split, split_on, views, NotFound,
};
use vstd::prelude::*;

verus! {

/// The extension of a project descriptor's file name.
pub const PROJECT_EXTENSION: &'static str = "csproj";

/// A pipeline: where its descriptor lies, the name it is shown under, and
/// the projects it builds directly, in the order in which the descriptor
/// names them.
#[derive(Debug)]
pub struct Pipeline {
    pub path: DescriptorPath,
    pub name: String,
    pub projects: Vec<Project>,
}

/// The mathematical value of a `Pipeline`.
pub struct PipelineView {
    pub path: PathView,
    pub name: Seq<char>,
    pub projects: Seq<ProjectView>,
}

impl Clone for Pipeline {
    fn clone(&self) -> (copy: Self)
        ensures
            copy@ == self@,
    {
        let mut projects: Vec<Project> = Vec::new();
        let mut i: usize = 0;
        while i < self.projects.len()
            invariant
                i <= self.projects.len(),
                project_views(projects@) == self@.projects.take(i as int),
            decreases self.projects.len() - i,
        {
            let ghost before = projects@;
            let project = self.projects[i].clone();
            projects.push(project);
            assert(project_views(projects@) =~= project_views(before).push(project@));
            assert(project_views(projects@) =~= self@.projects.take(i + 1));
            i += 1;
        }
        assert(project_views(projects@) =~= self@.projects);
        Pipeline { path: self.path.clone(), name: self.name.clone(), projects }
    }
}

impl View for Pipeline {
    type V = PipelineView;

    open spec fn view(&self) -> PipelineView {
        PipelineView {
            path: self.path@,
            name: self.name@,
            projects: project_views(self.projects@),
        }
    }
}

/// The file name among the pieces of a path's text, the pieces being what
/// stands between its separators: the last piece that is neither empty nor
/// `.`, both of which name nothing. Where that piece is `..`, the text names
/// no file.
pub open spec fn last_name(pieces: Seq<Seq<char>>) -> Option<Seq<char>>
    decreases pieces.len(),
{
    if pieces.len() == 0 {
        None
    } else if pieces.last().len() == 0 || pieces.last() == "."@ {
        last_name(pieces.drop_last())
    } else if pieces.last() == ".."@ {
        None
    } else {
        Some(pieces.last())
    }
}

/// The file that a build target names, `/` standing between its pieces.
pub open spec fn target_file_name(target: Seq<char>) -> Option<Seq<char>> {
    last_name(split(target, "/"@))
}

/// The text names a file whose extension is `ext`.
pub open spec fn names_file_with_extension(target: Seq<char>, ext: Seq<char>) -> bool {
    match target_file_name(target) {
        Some(name) => has_extension(name, ext),
        None => false,
    }
}

/// The build target that `line` names between a pair of `fence`s: its first
/// fenced span, provided that this names a file with the extension `ext`.
/// The first component is what follows the closing fence.
pub open spec fn project_path_in(line: Seq<char>, ext: Seq<char>, fence: Seq<char>) -> Option<
    (Seq<char>, Seq<char>),
> {
    match first_fenced(line, fence, fence) {
        Some((rest, span)) => if names_file_with_extension(span, ext) {
            Some((rest, span))
        } else {
            None
        },
        None => None,
    }
}

/// The build target that a line of a pipeline descriptor names: the one in
/// double quotes, or else the one in single quotes.
pub open spec fn target_in(line: Seq<char>) -> Option<Seq<char>> {
    match project_path_in(line, PROJECT_EXTENSION@, "\""@) {
        Some((_, target)) => Some(target),
        None => match project_path_in(line, PROJECT_EXTENSION@, "'"@) {
            Some((_, target)) => Some(target),
            None => None,
        },
    }
}

/// The build targets that the lines name, in order, those of test lines left
/// out.
pub open spec fn targets_in(lines: Seq<Seq<char>>) -> Seq<Seq<char>>
    decreases lines.len(),
{
    if lines.len() == 0 {
        Seq::empty()
    } else {
        let before = targets_in(lines.drop_last());
        let line = lines.last();
        if is_test_line(line) {
            before
        } else {
            match target_in(line) {
                Some(target) => before.push(target),
                None => before,
            }
        }
    }
}

/// The paths of the projects that the pipeline descriptor at `path` with the
/// text `text` builds: each build target read below the anchor of `path`,
/// which is the repository's top directory where the descriptor lies below
/// one, and the descriptor's own directory where it does not.
pub open spec fn project_paths(path: PathView, text: Seq<char>) -> Seq<PathView> {
    targets_in(lines(text)).map_values(|target: Seq<char>| path.anchor().join(target))
}

/// The name under which the pipeline at `path` is shown: that of the
/// directory which holds the descriptor.
pub open spec fn pipeline_name(path: PathView) -> Seq<char> {
    path.segments[path.segments.len() - 2]
}

/// The store holds a text for every one of the paths.
pub open spec fn all_present(store: Map<PathView, Seq<char>>, paths: Seq<PathView>) -> bool {
    forall|i: int| 0 <= i < paths.len() ==> store.contains_key(#[trigger] paths[i])
}

/// `paths[i]` is the first of the paths for which the store holds no text.
pub open spec fn first_missing(store: Map<PathView, Seq<char>>, paths: Seq<PathView>, i: int) -> bool {
    &&& 0 <= i < paths.len()
    &&& !store.contains_key(paths[i])
    &&& forall|j: int| 0 <= j < i ==> store.contains_key(#[trigger] paths[j])
}

/// The projects at `paths`, each as the text that the store holds for it
/// describes it.
pub open spec fn loaded(store: Map<PathView, Seq<char>>, paths: Seq<PathView>) -> Seq<
    ProjectView,
> {
    paths.map_values(|path: PathView| project_of(path, store[path]))
}

/// The filters that a project brings into a pipeline's path filter: its own
/// and those of the projects it references.
pub open spec fn project_filters(project: ProjectView) -> Seq<Seq<char>> {
    seq![project.path_filter()] + project.references.map_values(|path: PathView| path.glob())
}

/// The filters that the projects bring in, project by project.
pub open spec fn closure_filters(projects: Seq<ProjectView>) -> Seq<Seq<char>>
    decreases projects.len(),
{
    if projects.len() == 0 {
        Seq::empty()
    } else {
        closure_filters(projects.drop_last()) + project_filters(projects.last())
    }
}

/// Every project and every project it references lies in the repository.
pub open spec fn all_anchored(projects: Seq<ProjectView>) -> bool {
    forall|k: int|
        0 <= k < projects.len() ==> {
            &&& (#[trigger] projects[k]).path.is_anchored()
            &&& forall|i: int|
                0 <= i < projects[k].references.len() ==> (
                #[trigger] projects[k].references[i]).is_anchored()
        }
}

/// The store holds the descriptors of all projects that the projects
/// reference.
pub open spec fn references_present(
    store: Map<PathView, Seq<char>>,
    projects: Seq<ProjectView>,
) -> bool {
    forall|k: int|
        0 <= k < projects.len() ==> all_present(store, (#[trigger] projects[k]).references)
}

/// A line that speaks of a test project names no build target, whatever
/// else stands on it.
pub proof fn lemma_test_line_names_nothing(before: Seq<Seq<char>>, line: Seq<char>)
    requires
        is_test_line(line),
    ensures
        targets_in(before.push(line)) == targets_in(before),
{
    assert(before.push(line).drop_last() =~= before);
}

/// A build target is read alike in double and in single quotes: where the
/// target stands between the first two quotes of a line, names a project
/// descriptor and holds no quote itself, it is the line's target, be the
/// quotes double ones or, on a line without any double quote, single ones.
pub proof fn lemma_target_in_either_quotes(before: Seq<char>, target: Seq<char>, rest: Seq<char>)
    requires
        names_file_with_extension(target, PROJECT_EXTENSION@),
        !before.contains('"') && !target.contains('"') && !rest.contains('"'),
        !before.contains('\'') && !target.contains('\''),
    ensures
        target_in(before + seq!['"'] + target + seq!['"'] + rest) == Some(target),
        target_in(before + seq!['\''] + target + seq!['\''] + rest) == Some(target),
{
    reveal_strlit("\"");
    reveal_strlit("'");
    assert("\""@ =~= seq!['"']);
    assert("'"@ =~= seq!['\'']);
    lemma_first_fenced_between_quotes(before, '"', target, rest);
    let single = before + seq!['\''] + target + seq!['\''] + rest;
    assert(!single.contains('"')) by {
        if single.contains('"') {
            let i = choose|i: int| 0 <= i < single.len() && single[i] == '"';
            if i < before.len() {
                assert(before[i] == '"');
            } else if i < before.len() + 1 {
            } else if i < before.len() + 1 + target.len() {
                assert(target[i - before.len() - 1] == '"');
            } else if i < before.len() + 2 + target.len() {
            } else {
                assert(rest[i - before.len() - 2 - target.len()] == '"');
            }
        }
    }
    lemma_absent_mark(single, '"');
    lemma_first_fenced_between_quotes(before, '\'', target, rest);
}

/// The file that the build target `target` names: the last of its
/// `/`-separated pieces that is neither empty nor `.`, unless that piece is
/// `..`.
pub fn file_name_of_target<'a>(target: &'a str) -> (name: Option<&'a str>)
    ensures
        match target_file_name(target@) {
            Some(n) => name matches Some(found) && found@ == n,
            None => name is None,
        },
{
    let pieces = split_on(target, "/");
    let mut i: usize = pieces.len();
    assert(views(pieces@).take(i as int) =~= views(pieces@));
    while i > 0
        invariant
            i <= pieces.len(),
            views(pieces@) == split(target@, "/"@),
            target_file_name(target@) == last_name(views(pieces@).take(i as int)),
        decreases i,
    {
        let piece = pieces[i - 1];
        proof {
            assert(views(pieces@).take(i as int).last() == piece@);
            assert(views(pieces@).take(i as int).drop_last() =~= views(pieces@).take(i - 1));
        }
        if piece.is_empty() || same_text(piece, ".") {
            i -= 1;
        } else if same_text(piece, "..") {
            return None;
        } else {
            return Some(piece);
        }
    }
    None
}

/// Reads the build target that `input` names between a pair of
/// `fence_char`s, if it names one with the extension `project_extension`:
/// the target and what follows its closing fence.
pub fn extract_project_path<'a>(input: &'a str, project_extension: &str, fence_char: &str) -> (r:
    Result<(&'a str, String), NotFound>)
    ensures
        match project_path_in(input@, project_extension@, fence_char@) {
            Some((rest, target)) => r matches Ok((x, y)) && x@ == rest && y@ == target,
            None => r is Err,
        },
{
    let (input, path) = match extract_fenced(input, fence_char, fence_char) {
        Ok(found) => found,
        Err(e) => { return Err(e); },
    };
    let accepted = match file_name_of_target(path) {
        Some(name) => extension_is(name, project_extension),
        None => false,
    };
    if accepted {
        Ok((input, path.to_owned()))
    } else {
        Err(NotFound)
    }
}

/// The paths of the projects that the pipeline descriptor at `path` with the
/// text `text` builds, in the order in which it names them. Lines that speak
/// of a test project are passed over; on the others a target in double
/// quotes is looked for first, then one in single quotes.
pub fn extract_project_paths(path: &DescriptorPath, text: &str) -> (paths: Vec<DescriptorPath>)
    ensures
        path_views(paths@) == project_paths(path@, text@),
{
    let base_path = path.anchor();
    let all = split_on(text, "\n");
    let mut paths: Vec<DescriptorPath> = Vec::new();
    let mut i: usize = 0;
    while i < all.len()
        invariant
            i <= all.len(),
            base_path@ == path@.anchor(),
            path_views(paths@) == targets_in(views(all@).take(i as int)).map_values(
                |target: Seq<char>| path@.anchor().join(target),
            ),
        decreases all.len() - i,
    {
        let line = all[i];
        let ghost before = paths@;
        let ghost join = |target: Seq<char>| path@.anchor().join(target);
        proof {
            assert(views(all@).take(i + 1).drop_last() =~= views(all@).take(i as int));
        }
        if !is_test_reference(line) {
            if let Ok((_, project_path)) = extract_project_path(line, PROJECT_EXTENSION, "\"") {
                let combined_path = base_path.join(project_path.as_str());
                paths.push(combined_path);
                assert(path_views(paths@) =~= path_views(before).push(join(project_path@)));
            } else if let Ok((_, project_path)) = extract_project_path(
                line,
                PROJECT_EXTENSION,
                "'",
            ) {
                let combined_path = base_path.join(project_path.as_str());
                paths.push(combined_path);
                assert(path_views(paths@) =~= path_views(before).push(join(project_path@)));
            }
        }
        assert(path_views(paths@) =~= targets_in(views(all@).take(i + 1)).map_values(join));
        i += 1;
    }
    assert(views(all@).take(i as int) =~= views(all@));
    paths
}

/// The projects at `paths`, each read from the text that `store` holds for
/// it. Fails with the first path for which `store` holds none.
pub fn load_projects(paths: Vec<DescriptorPath>, store: &DescriptorStore) -> (r: Result<
    Vec<Project>,
    MissingDescriptor,
>)
    ensures
        match r {
            Ok(projects) => {
                &&& all_present(store@, path_views(paths@))
                &&& project_views(projects@) == loaded(store@, path_views(paths@))
            },
            Err(missing) => exists|i: int|
                first_missing(store@, path_views(paths@), i) && missing.path@ == path_views(
                    paths@,
                )[i],
        },
{
    let ghost wanted = path_views(paths@);
    let mut projects: Vec<Project> = Vec::new();
    for path in it: paths
        invariant
            path_views(it.seq()) == wanted,
            forall|j: int| 0 <= j < it.index() ==> store@.contains_key(#[trigger] wanted[j]),
            project_views(projects@) == loaded(store@, wanted).take(it.index() as int),
    {
        let ghost before = projects@;
        let ghost i = it.index() as int;
        assert(path@ == wanted[i]);
        match store.get(&path) {
            Some(text) => {
                let project = Project::new(path, text);
                projects.push(project);
                assert(project_views(projects@) =~= project_views(before).push(project@));
                assert(project_views(projects@) =~= loaded(store@, wanted).take(i + 1));
            },
            None => {
                assert(first_missing(store@, wanted, i));
                return Err(MissingDescriptor { path });
            },
        }
    }
    assert(project_views(projects@) =~= loaded(store@, wanted));
    Ok(projects)
}

/// The projects that the pipeline descriptor at `path` with the text `text`
/// builds, each read from the text that `store` holds for it.
pub fn extract_projects(path: &DescriptorPath, text: &str, store: &DescriptorStore) -> (r: Result<
    Vec<Project>,
    MissingDescriptor,
>)
    ensures
        match r {
            Ok(projects) => {
                &&& all_present(store@, project_paths(path@, text@))
                &&& project_views(projects@) == loaded(store@, project_paths(path@, text@))
            },
            Err(missing) => exists|i: int|
                first_missing(store@, project_paths(path@, text@), i) && missing.path@
                    == project_paths(path@, text@)[i],
        },
{
    load_projects(extract_project_paths(path, text), store)
}

/// The projects that `project` references, each read from the text that
/// `store` holds for it: one step further along the references.
pub fn deep_search_for_projects(project: &Project, store: &DescriptorStore) -> (r: Result<
    Vec<Project>,
    MissingDescriptor,
>)
    ensures
        match r {
            Ok(projects) => {
                &&& all_present(store@, project@.references)
                &&& project_views(projects@) == loaded(store@, project@.references)
            },
            Err(missing) => exists|i: int|
                first_missing(store@, project@.references, i) && missing.path@
                    == project@.references[i],
        },
{
    let mut paths: Vec<DescriptorPath> = Vec::new();
    let mut i: usize = 0;
    while i < project.references.len()
        invariant
            i <= project.references.len(),
            path_views(paths@) == project@.references.take(i as int),
        decreases project.references.len() - i,
    {
        let ghost before = paths@;
        let path = project.references[i].include_path.clone();
        paths.push(path);
        assert(path_views(paths@) =~= path_views(before).push(path@));
        assert(path_views(paths@) =~= project@.references.take(i + 1));
        i += 1;
    }
    assert(path_views(paths@) =~= project@.references);
    load_projects(paths, store)
}

impl Pipeline {
    /// The pipeline whose descriptor lies at `path` and reads `text`, with
    /// the projects it builds read from the texts that `store` holds. Fails
    /// with the first of these projects for which `store` holds no text.
    pub fn new(path: DescriptorPath, text: &str, store: &DescriptorStore) -> (r: Result<
        Pipeline,
        MissingDescriptor,
    >)
        requires
            path@.segments.len() >= 2,
        ensures
            match r {
                Ok(pipeline) => {
                    &&& all_present(store@, project_paths(path@, text@))
                    &&& pipeline@ == (PipelineView {
                        path: path@,
                        name: pipeline_name(path@),
                        projects: loaded(store@, project_paths(path@, text@)),
                    })
                },
                Err(missing) => exists|i: int|
                    first_missing(store@, project_paths(path@, text@), i) && missing.path@
                        == project_paths(path@, text@)[i],
            },
    {
        let name = path.segments[path.segments.len() - 2].clone();
        let projects = match extract_projects(&path, text, store) {
            Ok(projects) => projects,
            Err(missing) => { return Err(missing); },
        };
        Ok(Pipeline { name, path, projects })
    }

    /// Whether every project of the pipeline, and every project that one of
    /// them references, lies in the repository.
    pub fn is_anchored(&self) -> (anchored: bool)
        ensures
            anchored == all_anchored(self@.projects),
    {
        let mut k: usize = 0;
        while k < self.projects.len()
            invariant
                k <= self.projects.len(),
                all_anchored(self@.projects.take(k as int)),
            decreases self.projects.len() - k,
        {
            let project = &self.projects[k];
            assert(self@.projects[k as int] == project@);
            if !project.path.is_anchored() {
                return false;
            }
            let mut i: usize = 0;
            while i < project.references.len()
                invariant
                    i <= project.references.len(),
                    k < self.projects.len(),
                    self@.projects[k as int] == project@,
                    forall|j: int| 0 <= j < i ==> (#[trigger] project@.references[j]).is_anchored(),
                decreases project.references.len() - i,
            {
                if !project.references[i].include_path.is_anchored() {
                    assert(!project@.references[i as int].is_anchored());
                    return false;
                }
                i += 1;
            }
            assert forall|n: int| 0 <= n < k + 1 implies {
                &&& (#[trigger] self@.projects.take(k + 1)[n]).path.is_anchored()
                &&& forall|i: int|
                    0 <= i < self@.projects.take(k + 1)[n].references.len() ==> (
                    #[trigger] self@.projects.take(k + 1)[n].references[i]).is_anchored()
            } by {
                if n < k {
                    assert(self@.projects.take(k + 1)[n] == self@.projects.take(k as int)[n]);
                }
            }
            k += 1;
        }
        assert(self@.projects.take(k as int) =~= self@.projects);
        true
    }

    /// The path filter of the pipeline: the filter of every project it
    /// builds and of every project that one of those references, each once,
    /// in ascending order, with a blank between neighbours. The referenced
    /// projects are read from the texts that `store` holds; the first one
    /// for which it holds none is reported.
    pub fn complete_path_filter(&self, store: &DescriptorStore) -> (r: Result<
        String,
        MissingDescriptor,
    >)
        requires
            all_anchored(self@.projects),
        ensures
            match r {
                Ok(filter) => {
                    &&& references_present(store@, self@.projects)
                    &&& filter@ == canonical(closure_filters(self@.projects))
                },
                Err(missing) => exists|k: int, i: int|
                    {
                        &&& 0 <= k < self@.projects.len()
                        &&& references_present(store@, self@.projects.take(k))
                        &&& first_missing(store@, self@.projects[k].references, i)
                        &&& missing.path@ == self@.projects[k].references[i]
                    },
            },
    {
        let mut dependencies: Vec<String> = Vec::new();
        let ghost all = self@.projects;
        assert(texts(dependencies@).to_set() =~= closure_filters(all.take(0)).to_set());
        let mut k: usize = 0;
        while k < self.projects.len()
            invariant
                k <= self.projects.len(),
                all == self@.projects,
                all_anchored(all),
                references_present(store@, all.take(k as int)),
                is_ascending(texts(dependencies@)),
                texts(dependencies@).to_set() == closure_filters(all.take(k as int)).to_set(),
            decreases self.projects.len() - k,
        {
            let project = &self.projects[k];
            let ghost done = closure_filters(all.take(k as int));
            let ghost own = project_filters(project@);
            proof {
                assert(all[k as int] == project@);
                assert(all.take(k + 1).drop_last() =~= all.take(k as int));
                assert(all.take(k + 1).last() == project@);
            }
            let filter = project.azure_path_filter();
            insert_ascending(&mut dependencies, filter);
            proof {
                assert(done + own.take(1) =~= done.push(filter@));
                done.lemma_push_to_set_commute(filter@);
            }

            let related_projects = match deep_search_for_projects(project, store) {
                Ok(related) => related,
                Err(missing) => { return Err(missing); },
            };
            let ghost related = project_views(related_projects@);
            for related_project in it: related_projects
                invariant
                    project_views(it.seq()) == related,
                    related == loaded(store@, project@.references),
                    own == project_filters(project@),
                    forall|i: int|
                        0 <= i < project@.references.len() ==> (
                        #[trigger] project@.references[i]).is_anchored(),
                    is_ascending(texts(dependencies@)),
                    texts(dependencies@).to_set() == (done + own.take(1 + it.index())).to_set(),
            {
                let ghost i = it.index() as int;
                assert(related_project@ == related[i]);
                assert(related.len() == it.seq().len());
                assert(related.len() == project@.references.len());
                assert(related[i] == project_of(
                    project@.references[i],
                    store@[project@.references[i]],
                ));
                let filter = related_project.azure_path_filter();
                insert_ascending(&mut dependencies, filter);
                proof {
                    let sofar = done + own.take(1 + i);
                    assert(own[1 + i] == project@.references[i].glob());
                    assert(done + own.take(1 + i + 1) =~= sofar.push(filter@));
                    sofar.lemma_push_to_set_commute(filter@);
                }
            }
            proof {
                assert(own.take(1 + related.len() as int) =~= own);
                assert forall|n: int| 0 <= n < k + 1 implies all_present(
                    store@,
                    (#[trigger] all.take(k + 1)[n]).references,
                ) by {
                    if n < k {
                        assert(all.take(k + 1)[n] == all.take(k as int)[n]);
                    }
                }
            }
            k += 1;
        }
        proof {
            assert(all.take(k as int) =~= all);
            lemma_ascending_of(texts(dependencies@));
        }
        Ok(join_with(&dependencies, " "))
    }
}

} // verus!
