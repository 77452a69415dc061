//! The in-memory tree of files and directories, the options of a write, and
//! the search for the repository that encloses a directory.

use vstd::prelude::*;
use vstd::string::StrSliceExecFns;

verus! {

/// A file with its whole content, or a directory with its named children.
#[derive(Debug, PartialEq, Eq)]
pub enum TreeNode {
    File(String),
    Directory(Vec<(String, TreeNode)>),
}

/// The mathematical value of a `TreeNode`.
pub enum TreeModel {
    File(Seq<char>),
    Directory(Seq<(Seq<char>, TreeModel)>),
}

impl View for TreeNode {
    type V = TreeModel;

    open spec fn view(&self) -> TreeModel
        decreases self,
    {
        match self {
            TreeNode::File(content) => TreeModel::File(content@),
            TreeNode::Directory(children) => TreeModel::Directory(
                Seq::new(
                    children@.len(),
                    // The bound keeps the descent inside the value itself.
                    |i: int|
                        (
                            children@[i].0@,
                            if 0 <= i < children@.len() {
                                children@[i].1.view()
                            } else {
                                TreeModel::File(Seq::empty())
                            },
                        ),
                ),
            ),
        }
    }
}

/// The children of a directory, as mathematical values.
pub open spec fn children_model(children: Seq<(String, TreeNode)>) -> Seq<(Seq<char>, TreeModel)> {
    Seq::new(children.len(), |i: int| (children[i].0@, children[i].1@))
}

/// A directory's view is the model of its children.
pub proof fn lemma_directory_view(children: Vec<(String, TreeNode)>)
    ensures
        TreeNode::Directory(children)@ == TreeModel::Directory(children_model(children@)),
{
    let node = TreeNode::Directory(children);
    assert(node@->Directory_0 =~= children_model(children@));
}

impl TreeModel {
    /// Whether no name occurs twice in a directory, here and below.
    pub open spec fn well_formed(self) -> bool
        decreases self,
    {
        match self {
            TreeModel::File(_) => true,
            TreeModel::Directory(children) => {
                &&& forall|i: int, j: int|
                    0 <= i < j < children.len() ==> (#[trigger] children[i]).0 != (
                    #[trigger] children[j]).0
                &&& forall|i: int|
                    0 <= i < children.len() ==> (#[trigger] children[i]).1.well_formed()
            },
        }
    }
}

/// How a tree is laid onto a directory.
#[derive(Clone, Copy, Debug, PartialEq, Eq)]
pub struct WriteOptions {
    /// The permission bits meant for the directories that are created.
    pub dir_perms: u32,
    /// Whether a file that is already there is replaced.
    pub overwrite: bool,
    /// Whether the actions are only reported.
    pub dry_run: bool,
}

impl Default for WriteOptions {
    fn default() -> (options: Self)
        ensures
            options.dir_perms == 0o755,
            options.overwrite,
            !options.dry_run,
    {
        WriteOptions { dir_perms: 0o755, overwrite: true, dry_run: false }
    }
}

/// What was found in one directory on the way up from the starting point.
#[derive(Debug, PartialEq, Eq)]
pub struct DirProbe {
    /// The content of the regular file `config` in it, where there is one
    /// and it could be read.
    pub config: Option<String>,
    /// Whether it holds a directory `.cs01-root`.
    pub has_metadata_dir: bool,
}

/// The mathematical value of a `DirProbe`.
pub struct ProbeModel {
    pub config: Option<Seq<char>>,
    pub has_metadata_dir: bool,
}

impl View for DirProbe {
    type V = ProbeModel;

    open spec fn view(&self) -> ProbeModel {
        ProbeModel {
            config: match self.config {
                Some(content) => Some(content@),
                None => None,
            },
            has_metadata_dir: self.has_metadata_dir,
        }
    }
}

/// The two layouts of a repository.
#[derive(Clone, Copy, Debug, PartialEq, Eq, Structural)]
pub enum RepoKind {
    /// The metadata lies in the directory itself.
    Bare,
    /// The metadata lies in the directory `.cs01-root`.
    Standard,
}

/// Whether the character is white space: the characters that have the
/// Unicode property of that name.
pub open spec fn is_space(c: char) -> bool {
    let code = c as u32;
    ||| 0x09 <= code <= 0x0D
    ||| code == 0x20
    ||| code == 0x85
    ||| code == 0xA0
    ||| code == 0x1680
    ||| 0x2000 <= code <= 0x200A
    ||| code == 0x2028
    ||| code == 0x2029
    ||| code == 0x202F
    ||| code == 0x205F
    ||| code == 0x3000
}

/// The number of white-space characters at the start of the text.
pub open spec fn leading_spaces(s: Seq<char>) -> nat
    decreases s.len(),
{
    if s.len() > 0 && is_space(s[0]) {
        1 + leading_spaces(s.skip(1))
    } else {
        0
    }
}

/// The number of white-space characters at the end of the text.
pub open spec fn trailing_spaces(s: Seq<char>) -> nat
    decreases s.len(),
{
    if s.len() > 0 && is_space(s.last()) {
        1 + trailing_spaces(s.drop_last())
    } else {
        0
    }
}

/// The text without the white space at its start and at its end.
pub open spec fn trimmed(s: Seq<char>) -> Seq<char> {
    let rest = s.skip(leading_spaces(s) as int);
    rest.take(rest.len() - trailing_spaces(rest))
}

/// The marker that opens the configuration of a repository.
pub open spec fn core_marker() -> Seq<char> {
    seq!['[', 'c', 'o', 'r', 'e', ']']
}

/// Whether the text, once trimmed, begins with `[core]`.
pub open spec fn has_core_marker(content: Seq<char>) -> bool {
    let text = trimmed(content);
    text.len() >= 6 && text.take(6) == core_marker()
}

/// The layout that a directory shows: bare where its `config` begins with
/// the marker, else standard where it holds the metadata directory.
pub open spec fn probe_kind(probe: ProbeModel) -> Option<RepoKind> {
    if probe.config is Some && has_core_marker(probe.config->Some_0) {
        Some(RepoKind::Bare)
    } else if probe.has_metadata_dir {
        Some(RepoKind::Standard)
    } else {
        None
    }
}

/// The repository found on the way up: how many levels above the starting
/// point its root lies, and its layout.
#[derive(Clone, Copy, Debug, PartialEq, Eq, Structural)]
pub struct RepoRoot {
    pub level: usize,
    pub kind: RepoKind,
}

/// Whether `found` is what the search gives for the directories `levels`,
/// listed from the starting point upwards: the first of them that shows a
/// layout, with that layout, or nothing where none shows one.
pub open spec fn located(levels: Seq<ProbeModel>, found: Option<RepoRoot>) -> bool {
    match found {
        Some(root) => {
            &&& root.level < levels.len()
            &&& probe_kind(levels[root.level as int]) == Some(root.kind)
            &&& forall|j: int| 0 <= j < root.level ==> probe_kind(#[trigger] levels[j]) is None
        },
        None => forall|j: int| 0 <= j < levels.len() ==> probe_kind(#[trigger] levels[j]) is None,
    }
}

/// White space at the end of a text ends after its last character that is
/// none.
pub proof fn lemma_trailing_spaces_bound(s: Seq<char>, k: int)
    requires
        0 <= k < s.len(),
        !is_space(s[k]),
    ensures
        trailing_spaces(s) <= s.len() - 1 - k,
    decreases s.len(),
{
    if k < s.len() - 1 && is_space(s.last()) {
        lemma_trailing_spaces_bound(s.drop_last(), k);
    }
}

/// There is no more white space at the end of a text than characters in it.
pub proof fn lemma_trailing_spaces_len(s: Seq<char>)
    ensures
        trailing_spaces(s) <= s.len(),
    decreases s.len(),
{
    if s.len() > 0 && is_space(s.last()) {
        lemma_trailing_spaces_len(s.drop_last());
    }
}

/// A text begins with the marker once trimmed exactly where it does after
/// its leading white space.
pub proof fn lemma_marker_after_leading_spaces(content: Seq<char>)
    ensures
        has_core_marker(content) <==> ({
            let rest = content.skip(leading_spaces(content) as int);
            rest.len() >= 6 && rest.take(6) == core_marker()
        }),
{
    let rest = content.skip(leading_spaces(content) as int);
    let text = trimmed(content);
    lemma_trailing_spaces_len(rest);
    if rest.len() >= 6 && rest.take(6) == core_marker() {
        assert(rest[5] == rest.take(6)[5]);
        assert(!is_space(rest[5]));
        lemma_trailing_spaces_bound(rest, 5);
        assert(text.take(6) =~= rest.take(6));
    }
    if text.len() >= 6 && text.take(6) == core_marker() {
        assert(text.take(6) =~= rest.take(6));
    }
}

/// Whether the character is white space.
pub fn is_space_char(c: char) -> (r: bool)
    ensures
        r == is_space(c),
{
    let code: u32 = c as u32;
    (0x09 <= code && code <= 0x0D) || code == 0x20 || code == 0x85 || code == 0xA0 || code
        == 0x1680 || (0x2000 <= code && code <= 0x200A) || code == 0x2028 || code == 0x2029
        || code == 0x202F || code == 0x205F || code == 0x3000
}

/// Whether the text, once trimmed, begins with `[core]`.
pub fn starts_with_core_marker(content: &str) -> (r: bool)
    ensures
        r == has_core_marker(content@),
{
    let n: usize = content.unicode_len();
    let mut i: usize = 0;
    proof {
        assert(content@.skip(0) =~= content@);
    }
    while i < n && is_space_char(content.get_char(i))
        invariant
            i <= n,
            n == content@.len(),
            leading_spaces(content@) == i + leading_spaces(content@.skip(i as int)),
        decreases n - i,
    {
        proof {
            assert(content@.skip(i as int)[0] == content@[i as int]);
            assert(content@.skip(i as int).skip(1) =~= content@.skip(i + 1));
        }
        i += 1;
    }
    proof {
        if i < n {
            assert(content@.skip(i as int)[0] == content@[i as int]);
        }
        assert(leading_spaces(content@) == i);
        lemma_marker_after_leading_spaces(content@);
    }
    let ghost rest = content@.skip(i as int);
    if n - i < 6 {
        return false;
    }
    let found = content.get_char(i) == '[' && content.get_char(i + 1) == 'c' && content.get_char(
        i + 2,
    ) == 'o' && content.get_char(i + 3) == 'r' && content.get_char(i + 4) == 'e'
        && content.get_char(i + 5) == ']';
    proof {
        if found {
            assert(rest.take(6) =~= core_marker());
        } else {
            assert(rest.take(6)[0] == rest[0] && rest.take(6)[1] == rest[1] && rest.take(6)[2]
                == rest[2] && rest.take(6)[3] == rest[3] && rest.take(6)[4] == rest[4]
                && rest.take(6)[5] == rest[5]);
        }
    }
    found
}

/// The layout that a directory shows, if any. The `config` file is looked at
/// before the metadata directory.
pub fn repo_kind(probe: &DirProbe) -> (kind: Option<RepoKind>)
    ensures
        kind == probe_kind(probe@),
{
    let bare = match &probe.config {
        Some(content) => starts_with_core_marker(content.as_str()),
        None => false,
    };
    if bare {
        Some(RepoKind::Bare)
    } else if probe.has_metadata_dir {
        Some(RepoKind::Standard)
    } else {
        None
    }
}

/// The views of the probes.
pub open spec fn probes_model(levels: Seq<DirProbe>) -> Seq<ProbeModel> {
    Seq::new(levels.len(), |i: int| levels[i]@)
}

/// Finds the root of the repository that holds the starting directory.
///
/// `levels` holds what was found in the starting directory and in each of its
/// ancestors, from the starting directory upwards. The first directory that
/// shows a layout is the root.
pub fn cs01_path(levels: &Vec<DirProbe>) -> (found: Option<RepoRoot>)
    ensures
        located(probes_model(levels@), found),
{
    let mut i: usize = 0;
    while i < levels.len()
        invariant
            i <= levels.len(),
            forall|j: int| 0 <= j < i ==> probe_kind(#[trigger] probes_model(levels@)[j]) is None,
        decreases levels.len() - i,
    {
        match repo_kind(&levels[i]) {
            Some(kind) => {
                return Some(RepoRoot { level: i, kind });
            },
            None => {},
        }
        i += 1;
    }
    None
}

/// Whether the starting directory lies in a repository.
pub fn in_repo(levels: &Vec<DirProbe>) -> (inside: bool)
    ensures
        inside == exists|j: int|
            0 <= j < levels@.len() && probe_kind(#[trigger] probes_model(levels@)[j]) is Some,
{
    cs01_path(levels).is_some()
}

/// However deep below a directory with the metadata directory the search
/// starts, it finds that directory, as long as no directory on the way up to
/// it shows a layout of its own.
pub proof fn lemma_found_from_any_depth(
    levels: Seq<ProbeModel>,
    depth: int,
    found: Option<RepoRoot>,
)
    requires
        0 <= depth < levels.len(),
        levels[depth].has_metadata_dir,
        forall|j: int| 0 <= j < depth ==> probe_kind(#[trigger] levels[j]) is None,
        located(levels, found),
    ensures
        found is Some,
        found->Some_0.level == depth,
{
    assert(probe_kind(levels[depth]) is Some);
    if found is Some {
        let level = found->Some_0.level as int;
        if level < depth {
            assert(probe_kind(levels[level]) is None);
        }
    }
}

/// The search has one answer: two results for the same directories are the
/// same.
pub proof fn lemma_located_unique(
    levels: Seq<ProbeModel>,
    first: Option<RepoRoot>,
    second: Option<RepoRoot>,
)
    requires
        located(levels, first),
        located(levels, second),
    ensures
        first == second,
{
    if first is Some && second is Some {
        let a = first->Some_0.level as int;
        let b = second->Some_0.level as int;
        if a < b {
            assert(probe_kind(levels[a]) is None);
        }
        if b < a {
            assert(probe_kind(levels[b]) is None);
        }
    } else if first is Some {
        assert(probe_kind(levels[first->Some_0.level as int]) is None);
    } else if second is Some {
        assert(probe_kind(levels[second->Some_0.level as int]) is None);
    }
}

/// Whether no name occurs twice among the children.
fn has_distinct_names(children: &Vec<(String, TreeNode)>) -> (r: bool)
    ensures
        r == forall|a: int, b: int|
            0 <= a < b < children@.len() ==> (#[trigger] children_model(children@)[a]).0 != (
            #[trigger] children_model(children@)[b]).0,
{
    let ghost model = children_model(children@);
    let mut j: usize = 0;
    while j < children.len()
        invariant
            j <= children.len(),
            model == children_model(children@),
            forall|a: int, b: int| 0 <= a < b < j ==> (#[trigger] model[a]).0 != (#[trigger] model[b]).0,
        decreases children.len() - j,
    {
        let mut i: usize = 0;
        while i < j
            invariant
                i <= j < children.len(),
                model == children_model(children@),
                forall|a: int| 0 <= a < i ==> (#[trigger] model[a]).0 != model[j as int].0,
            decreases j - i,
        {
            if children[i].0 == children[j].0 {
                proof {
                    assert(model[i as int].0 == model[j as int].0);
                }
                return false;
            }
            i += 1;
        }
        j += 1;
    }
    true
}

impl TreeNode {
    /// Whether no name occurs twice in a directory, here and below.
    pub fn is_well_formed(&self) -> (r: bool)
        ensures
            r == self@.well_formed(),
        decreases self,
    {
        match self {
            TreeNode::File(_) => true,
            TreeNode::Directory(children) => {
                proof {
                    lemma_directory_view(*children);
                }
                proof {
                    assert(self@->Directory_0 == children_model(children@));
                }
                if !has_distinct_names(children) {
                    return false;
                }
                let mut i: usize = 0;
                while i < children.len()
                    invariant
                        i <= children.len(),
                        *self == TreeNode::Directory(*children),
                        self@ == TreeModel::Directory(children_model(children@)),
                        forall|a: int, b: int|
                            0 <= a < b < children@.len() ==> (#[trigger] children_model(
                                children@,
                            )[a]).0 != (#[trigger] children_model(children@)[b]).0,
                        forall|k: int|
                            0 <= k < i ==> (#[trigger] children_model(children@)[k]).1.well_formed(),
                    decreases children.len() - i,
                {
                    if !children[i].1.is_well_formed() {
                        proof {
                            assert(self@->Directory_0 == children_model(children@));
                            assert(children_model(children@)[i as int].1 == children@[i as int].1@);
                            assert(!self@->Directory_0[i as int].1.well_formed());
                        }
                        return false;
                    }
                    i += 1;
                }
                true
            },
        }
    }
}

} // verus!
