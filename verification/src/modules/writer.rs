//! Laying a tree onto a directory, node by node: the order in which the nodes
//! are visited and what is done at each of them.

use vstd::prelude::*;
use crate::modules::files::{TreeModel, TreeNode, WriteOptions, children_model, lemma_directory_view};

verus! {

/// What a step finds at its path in the tree.
#[derive(Debug, PartialEq, Eq)]
pub enum StepKind {
    Directory,
    File(String),
}

/// The mathematical value of a `StepKind`.
pub enum NodeModel {
    Directory,
    File(Seq<char>),
}

impl View for StepKind {
    type V = NodeModel;

    open spec fn view(&self) -> NodeModel {
        match self {
            StepKind::Directory => NodeModel::Directory,
            StepKind::File(content) => NodeModel::File(content@),
        }
    }
}

/// One node of the tree with the names that lead to it from the root of the
/// tree.
#[derive(Debug, PartialEq, Eq)]
pub struct WriteStep {
    pub path: Vec<String>,
    pub kind: StepKind,
}

/// The mathematical value of a `WriteStep`.
pub struct StepModel {
    pub path: Seq<Seq<char>>,
    pub node: NodeModel,
}

/// The names of a path, as texts.
pub open spec fn path_model(path: Seq<String>) -> Seq<Seq<char>> {
    Seq::new(path.len(), |i: int| path[i]@)
}

impl View for WriteStep {
    type V = StepModel;

    open spec fn view(&self) -> StepModel {
        StepModel { path: path_model(self.path@), node: self.kind@ }
    }
}

/// The steps, as mathematical values.
pub open spec fn steps_model(steps: Seq<WriteStep>) -> Seq<StepModel> {
    Seq::new(steps.len(), |i: int| steps[i]@)
}

/// The number of children of a directory; none for a file.
pub open spec fn child_count(tree: TreeModel) -> nat {
    match tree {
        TreeModel::File(_) => 0,
        TreeModel::Directory(children) => children.len(),
    }
}

/// The nodes of the tree that stands at `path`, each with its own path: the
/// node itself first, then its children in their order, each with all that
/// lies below it. So a directory always comes before what it holds.
pub open spec fn tree_steps(tree: TreeModel, path: Seq<Seq<char>>) -> Seq<StepModel>
    decreases tree, child_count(tree) + 1,
{
    match tree {
        TreeModel::File(content) => seq![StepModel { path, node: NodeModel::File(content) }],
        TreeModel::Directory(children) => seq![StepModel { path, node: NodeModel::Directory }]
            + children_steps(tree, path, children.len()),
    }
}

/// The nodes of the first `n` children of the directory `tree`, which stands
/// at `path`.
pub open spec fn children_steps(tree: TreeModel, path: Seq<Seq<char>>, n: nat) -> Seq<StepModel>
    decreases tree, n,
{
    match tree {
        TreeModel::File(_) => Seq::empty(),
        TreeModel::Directory(children) => if n == 0 || n > children.len() {
            Seq::empty()
        } else {
            children_steps(tree, path, (n - 1) as nat) + tree_steps(
                children[n - 1].1,
                path.push(children[n - 1].0),
            )
        },
    }
}

/// What is done at a node.
#[derive(Clone, Copy, Debug, PartialEq, Eq, Structural)]
pub enum WriteAction {
    /// Nothing: the directory is there already, or the file is and is kept.
    Keep,
    /// The directory is created, with every ancestor that is missing.
    CreateDir,
    /// The file is written with its whole content, after every missing
    /// directory above it was created.
    WriteFile,
    /// A dry run says that the directory would be created.
    ReportCreateDir,
    /// A dry run says that the file would be written.
    ReportWriteFile,
}

impl WriteAction {
    /// Whether the action changes what is on disk.
    pub open spec fn mutates(self) -> bool {
        self == WriteAction::CreateDir || self == WriteAction::WriteFile
    }
}

/// What is done at a node, given whether something exists at its path.
///
/// A file that exists is kept unless files are overwritten; a directory that
/// exists is kept always. What is missing is created or written, or only
/// reported in a dry run.
pub open spec fn action_for(node: NodeModel, exists: bool, overwrite: bool, dry_run: bool) -> WriteAction {
    match node {
        NodeModel::File(_) => if !overwrite && exists {
            WriteAction::Keep
        } else if dry_run {
            WriteAction::ReportWriteFile
        } else {
            WriteAction::WriteFile
        },
        NodeModel::Directory => if exists {
            WriteAction::Keep
        } else if dry_run {
            WriteAction::ReportCreateDir
        } else {
            WriteAction::CreateDir
        },
    }
}

/// Decides what is done at a node, given whether something exists at its
/// path. A dry run never gives an action that changes the disk.
pub fn write_action(kind: &StepKind, exists: bool, options: &WriteOptions) -> (action: WriteAction)
    ensures
        action == action_for(kind@, exists, options.overwrite, options.dry_run),
        options.dry_run ==> !action.mutates(),
        !options.overwrite && exists ==> action == WriteAction::Keep,
{
    match kind {
        StepKind::File(_) => {
            if !options.overwrite && exists {
                WriteAction::Keep
            } else if options.dry_run {
                WriteAction::ReportWriteFile
            } else {
                WriteAction::WriteFile
            }
        },
        StepKind::Directory => {
            if exists {
                WriteAction::Keep
            } else if options.dry_run {
                WriteAction::ReportCreateDir
            } else {
                WriteAction::CreateDir
            }
        },
    }
}

/// A copy of the path with one more name at its end.
fn extended_path(path: &Vec<String>, name: &str) -> (longer: Vec<String>)
    ensures
        path_model(longer@) == path_model(path@).push(name@),
{
    let mut longer: Vec<String> = Vec::new();
    let mut i: usize = 0;
    while i < path.len()
        invariant
            i <= path.len(),
            longer@.len() == i,
            forall|k: int| 0 <= k < i ==> (#[trigger] longer@[k])@ == path@[k]@,
        decreases path.len() - i,
    {
        longer.push(path[i].clone());
        i += 1;
    }
    longer.push(name.to_owned());
    proof {
        assert(path_model(longer@) =~= path_model(path@).push(name@));
    }
    longer
}

/// Adds the nodes of `tree`, which stands at `path`, to the steps.
fn collect_steps(tree: &TreeNode, path: &Vec<String>, steps: &mut Vec<WriteStep>)
    ensures
        steps_model(final(steps)@) == steps_model(old(steps)@) + tree_steps(
            tree@,
            path_model(path@),
        ),
    decreases tree,
{
    let ghost before = steps_model(steps@);
    let ghost at = path_model(path@);
    match tree {
        TreeNode::File(content) => {
            steps.push(WriteStep { path: copied_path(path), kind: StepKind::File(content.clone()) });
            proof {
                assert(steps_model(steps@) =~= before + tree_steps(tree@, at));
            }
        },
        TreeNode::Directory(children) => {
            proof {
                lemma_directory_view(*children);
            }
            steps.push(WriteStep { path: copied_path(path), kind: StepKind::Directory });
            proof {
                assert(steps_model(steps@) =~= before + seq![
                    StepModel { path: at, node: NodeModel::Directory },
                ]);
            }
            let mut i: usize = 0;
            while i < children.len()
                invariant
                    i <= children.len(),
                    *tree == TreeNode::Directory(*children),
                    tree@ == TreeModel::Directory(children_model(children@)),
                    at == path_model(path@),
                    steps_model(steps@) == before + seq![
                        StepModel { path: at, node: NodeModel::Directory },
                    ] + children_steps(tree@, at, i as nat),
                decreases children.len() - i,
            {
                let below = extended_path(path, children[i].0.as_str());
                collect_steps(&children[i].1, &below, steps);
                proof {
                    assert(children_model(children@)[i as int] == (
                        children@[i as int].0@,
                        children@[i as int].1@,
                    ));
                    assert(steps_model(steps@) =~= before + seq![
                        StepModel { path: at, node: NodeModel::Directory },
                    ] + children_steps(tree@, at, (i + 1) as nat));
                }
                i += 1;
            }
            proof {
                assert(steps_model(steps@) =~= before + tree_steps(tree@, at));
            }
        },
    }
}

/// A copy of the path.
fn copied_path(path: &Vec<String>) -> (same: Vec<String>)
    ensures
        path_model(same@) == path_model(path@),
{
    let mut same: Vec<String> = Vec::new();
    let mut i: usize = 0;
    while i < path.len()
        invariant
            i <= path.len(),
            same@.len() == i,
            forall|k: int| 0 <= k < i ==> (#[trigger] same@[k])@ == path@[k]@,
        decreases path.len() - i,
    {
        same.push(path[i].clone());
        i += 1;
    }
    proof {
        assert(path_model(same@) =~= path_model(path@));
    }
    same
}

/// The nodes of the tree in the order in which they are written: each with
/// the names that lead to it from the root of the tree, a directory before
/// everything in it.
pub fn write_steps(tree: &TreeNode) -> (steps: Vec<WriteStep>)
    ensures
        steps_model(steps@) == tree_steps(tree@, Seq::empty()),
{
    let mut steps: Vec<WriteStep> = Vec::new();
    let root: Vec<String> = Vec::new();
    proof {
        assert(path_model(root@) =~= Seq::empty());
        assert(steps_model(steps@) =~= Seq::empty());
    }
    collect_steps(tree, &root, &mut steps);
    proof {
        assert(Seq::<StepModel>::empty() + tree_steps(tree@, Seq::empty()) =~= tree_steps(
            tree@,
            Seq::empty(),
        ));
    }
    steps
}

/// The child of the directory `tree` to which the step at position `i`
/// among the steps of its first `n` children belongs.
pub open spec fn owner(tree: TreeModel, path: Seq<Seq<char>>, n: nat, i: int) -> int
    decreases n,
{
    if n == 0 {
        0
    } else if i >= children_steps(tree, path, (n - 1) as nat).len() {
        n - 1
    } else {
        owner(tree, path, (n - 1) as nat, i)
    }
}

/// Each step among those of the first `n` children of a directory is a step
/// of the child that owns it, at the place where that child's steps begin.
pub proof fn lemma_owner(tree: TreeModel, path: Seq<Seq<char>>, n: nat, i: int)
    requires
        tree is Directory,
        n <= tree->Directory_0.len(),
        0 <= i < children_steps(tree, path, n).len(),
    ensures
        ({
            let children = tree->Directory_0;
            let m = owner(tree, path, n, i);
            let start = children_steps(tree, path, m as nat).len();
            let inner = tree_steps(children[m].1, path.push(children[m].0));
            &&& 0 <= m < n
            &&& start <= i < start + inner.len()
            &&& children_steps(tree, path, n)[i] == inner[i - start]
        }),
    decreases n,
{
    if n > 0 {
        let before = children_steps(tree, path, (n - 1) as nat);
        if i < before.len() {
            lemma_owner(tree, path, (n - 1) as nat, i);
        }
    }
}

/// Every step of a tree lies at or below the path at which the tree stands.
pub proof fn lemma_steps_below(tree: TreeModel, path: Seq<Seq<char>>, i: int)
    requires
        0 <= i < tree_steps(tree, path).len(),
    ensures
        path.is_prefix_of(tree_steps(tree, path)[i].path),
    decreases tree,
{
    match tree {
        TreeModel::File(_) => {
            assert(path.subrange(0, path.len() as int) =~= path);
        },
        TreeModel::Directory(children) => {
            if i == 0 {
                assert(path.subrange(0, path.len() as int) =~= path);
            } else {
                lemma_owner(tree, path, children.len(), i - 1);
                let m = owner(tree, path, children.len(), i - 1);
                let start = children_steps(tree, path, m as nat).len();
                let below = path.push(children[m].0);
                lemma_steps_below(children[m].1, below, i - 1 - start);
                let target = tree_steps(tree, path)[i].path;
                assert(below.is_prefix_of(target));
                assert(target.subrange(0, path.len() as int) =~= below.subrange(
                    0,
                    path.len() as int,
                ));
                assert(below.subrange(0, path.len() as int) =~= path);
            }
        },
    }
}

/// In a tree that holds no name twice in a directory, the path of a file
/// leads to nothing else: it is no other step's path, nor the beginning of
/// one.
pub proof fn lemma_file_path_apart(tree: TreeModel, path: Seq<Seq<char>>, i: int, j: int)
    requires
        tree.well_formed(),
        0 <= i < tree_steps(tree, path).len(),
        0 <= j < tree_steps(tree, path).len(),
        i != j,
        tree_steps(tree, path)[i].node is File,
    ensures
        !tree_steps(tree, path)[i].path.is_prefix_of(tree_steps(tree, path)[j].path),
    decreases tree,
{
    match tree {
        TreeModel::File(_) => {},
        TreeModel::Directory(children) => {
            let steps = tree_steps(tree, path);
            lemma_owner(tree, path, children.len(), i - 1);
            let mi = owner(tree, path, children.len(), i - 1);
            let si = children_steps(tree, path, mi as nat).len();
            let below_i = path.push(children[mi].0);
            lemma_steps_below(children[mi].1, below_i, i - 1 - si);
            let pi = steps[i].path;
            assert(pi.subrange(0, below_i.len() as int)[path.len() as int] == below_i[path.len() as int]);
            if j == 0 {
            } else {
                lemma_owner(tree, path, children.len(), j - 1);
                let mj = owner(tree, path, children.len(), j - 1);
                let sj = children_steps(tree, path, mj as nat).len();
                let below_j = path.push(children[mj].0);
                lemma_steps_below(children[mj].1, below_j, j - 1 - sj);
                let pj = steps[j].path;
                assert(pj.subrange(0, below_j.len() as int)[path.len() as int] == below_j[path.len() as int]);
                if mi == mj {
                    lemma_file_path_apart(children[mi].1, below_i, i - 1 - si, j - 1 - sj);
                } else {
                    if pi.is_prefix_of(pj) {
                        assert(pj.subrange(0, pi.len() as int)[path.len() as int] == pi[path.len() as int]);
                        assert(children[mi].0 == children[mj].0);
                        assert(false);
                    }
                }
            }
        },
    }
}

/// Whether the tree holds a file with this content at the names `rel`,
/// counted from the root of the tree.
pub open spec fn holds_file(tree: TreeModel, rel: Seq<Seq<char>>, content: Seq<char>) -> bool
    decreases rel.len(),
{
    match tree {
        TreeModel::File(text) => rel.len() == 0 && text == content,
        TreeModel::Directory(children) => rel.len() > 0 && exists|m: int|
            0 <= m < children.len() && (#[trigger] children[m]).0 == rel[0] && holds_file(
                children[m].1,
                rel.skip(1),
                content,
            ),
    }
}

/// The steps of the first children of a directory stay where they are when
/// more children are counted in.
pub proof fn lemma_children_steps_grow(tree: TreeModel, path: Seq<Seq<char>>, m: nat, n: nat)
    requires
        tree is Directory,
        m <= n <= tree->Directory_0.len(),
    ensures
        children_steps(tree, path, m).is_prefix_of(children_steps(tree, path, n)),
    decreases n,
{
    let short = children_steps(tree, path, m);
    if m == n {
        assert(short.subrange(0, short.len() as int) =~= short);
    } else {
        lemma_children_steps_grow(tree, path, m, (n - 1) as nat);
        let middle = children_steps(tree, path, (n - 1) as nat);
        let long = children_steps(tree, path, n);
        assert(long.subrange(0, short.len() as int) =~= middle.subrange(0, short.len() as int));
    }
}

/// Every file that the tree holds is one of its steps, with its content and
/// with its names after the path at which the tree stands.
pub proof fn lemma_file_is_step(
    tree: TreeModel,
    path: Seq<Seq<char>>,
    rel: Seq<Seq<char>>,
    content: Seq<char>,
) -> (k: int)
    requires
        holds_file(tree, rel, content),
    ensures
        0 <= k < tree_steps(tree, path).len(),
        tree_steps(tree, path)[k] == (StepModel { path: path + rel, node: NodeModel::File(content) }),
    decreases rel.len(),
{
    match tree {
        TreeModel::File(_) => {
            assert(path + rel =~= path);
            0
        },
        TreeModel::Directory(children) => {
            let m = choose|m: int|
                0 <= m < children.len() && (#[trigger] children[m]).0 == rel[0] && holds_file(
                    children[m].1,
                    rel.skip(1),
                    content,
                );
            let below = path.push(children[m].0);
            let inner = lemma_file_is_step(children[m].1, below, rel.skip(1), content);
            assert(below + rel.skip(1) =~= path + rel);
            let start = children_steps(tree, path, m as nat).len();
            let upto = children_steps(tree, path, (m + 1) as nat);
            lemma_children_steps_grow(tree, path, (m + 1) as nat, children.len());
            let all = children_steps(tree, path, children.len());
            assert(all.subrange(0, upto.len() as int)[start + inner] == all[start + inner]);
            1 + start + inner
        },
    }
}

/// Every step but the first comes after the step of the directory that
/// holds its node: a directory is visited before anything in it.
pub proof fn lemma_parent_comes_first(tree: TreeModel, path: Seq<Seq<char>>, j: int) -> (i: int)
    requires
        0 < j < tree_steps(tree, path).len(),
    ensures
        0 <= i < j,
        tree_steps(tree, path)[i].node is Directory,
        tree_steps(tree, path)[j].path.len() > 0,
        tree_steps(tree, path)[i].path == tree_steps(tree, path)[j].path.drop_last(),
    decreases tree,
{
    match tree {
        TreeModel::File(_) => 0,
        TreeModel::Directory(children) => {
            lemma_owner(tree, path, children.len(), j - 1);
            let m = owner(tree, path, children.len(), j - 1);
            let start = children_steps(tree, path, m as nat).len();
            let below = path.push(children[m].0);
            let inner = j - 1 - start;
            lemma_children_steps_grow(tree, path, m as nat, children.len());
            if inner == 0 {
                lemma_first_step(children[m].1, below);
                assert(below.drop_last() =~= path);
                0
            } else {
                let parent = lemma_parent_comes_first(children[m].1, below, inner);
                lemma_children_steps_grow(tree, path, (m + 1) as nat, children.len());
                let upto = children_steps(tree, path, (m + 1) as nat);
                let all = children_steps(tree, path, children.len());
                assert(all.subrange(0, upto.len() as int)[start + parent] == all[start + parent]);
                1 + start + parent
            }
        },
    }
}

/// The first step of a tree is its root, at the path at which the tree
/// stands.
pub proof fn lemma_first_step(tree: TreeModel, path: Seq<Seq<char>>)
    ensures
        tree_steps(tree, path).len() > 0,
        tree_steps(tree, path)[0].path == path,
        tree is Directory <==> tree_steps(tree, path)[0].node is Directory,
{
}

} // verus!
