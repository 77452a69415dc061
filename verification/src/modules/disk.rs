//! What a write does to the target directory, as mathematics: the paths that
//! exist below the target, how each action changes them, and where an action
//! fails and ends the write. The laws of the writer are stated and proved
//! over this model. It knows the failures that the shape of the disk brings
//! about, not those of the machine (a full disk, a missing permission).

use vstd::prelude::*;
use crate::modules::files::TreeModel;
use crate::modules::writer::{
    NodeModel, StepModel, WriteAction, action_for, children_steps, holds_file,
    lemma_file_is_step, lemma_file_path_apart, lemma_parent_comes_first, tree_steps,
};

verus! {

/// What exists at a path.
pub enum Entry {
    Directory,
    File(Seq<char>),
}

/// The paths that exist at and below the target directory, each with what
/// is there. A path is the names that lead to it from the target; the empty
/// path is the target itself.
pub type Disk = Map<Seq<Seq<char>>, Entry>;

/// Whether a regular file stands on the way to `path`: at a path that `path`
/// begins with and that is shorter.
pub open spec fn file_above(disk: Disk, path: Seq<Seq<char>>) -> bool {
    exists|q: Seq<Seq<char>>|
        #[trigger] disk.dom().contains(q) && q.is_prefix_of(path) && q != path && disk[q] is File
}

/// Whether the action fails at the step. No directory can be created below
/// a regular file or in the place of one, and no file can be written below
/// a regular file or in the place of a directory.
pub open spec fn blocked(disk: Disk, step: StepModel, action: WriteAction) -> bool {
    match action {
        WriteAction::CreateDir => file_above(disk, step.path) || (disk.dom().contains(step.path)
            && disk[step.path] is File),
        WriteAction::WriteFile => file_above(disk, step.path) || (disk.dom().contains(step.path)
            && disk[step.path] is Directory),
        _ => false,
    }
}

/// The disk after the directory at `path` was created together with every
/// ancestor that was missing. What existed stays as it was.
pub open spec fn with_dirs(disk: Disk, path: Seq<Seq<char>>) -> Disk {
    Map::new(
        |p: Seq<Seq<char>>| disk.dom().contains(p) || p.is_prefix_of(path),
        |p: Seq<Seq<char>>|
            if disk.dom().contains(p) {
                disk[p]
            } else {
                Entry::Directory
            },
    )
}

/// The disk after the file at `path` was written with `content`, once the
/// directories above it were created where they were missing.
pub open spec fn with_file(disk: Disk, path: Seq<Seq<char>>, content: Seq<char>) -> Disk {
    let prepared = if path.len() > 0 {
        with_dirs(disk, path.drop_last())
    } else {
        disk
    };
    prepared.insert(path, Entry::File(content))
}

/// The disk after the action was carried out at the step, where it does not
/// fail there.
pub open spec fn applied(disk: Disk, step: StepModel, action: WriteAction) -> Disk {
    match (action, step.node) {
        (WriteAction::CreateDir, _) => with_dirs(disk, step.path),
        (WriteAction::WriteFile, NodeModel::File(content)) => with_file(disk, step.path, content),
        _ => disk,
    }
}

/// How a write ended: the disk as it then is, and whether every step was
/// taken. A write that is not done stopped at the first step that failed,
/// with the disk as the steps before it left it.
pub struct Run {
    pub disk: Disk,
    pub done: bool,
}

/// The write of the steps in their order, each with the action that the
/// state of the disk at that moment calls for. The first step that fails
/// ends it.
pub open spec fn written(disk: Disk, steps: Seq<StepModel>, overwrite: bool, dry_run: bool) -> Run
    decreases steps.len(),
{
    if steps.len() == 0 {
        Run { disk, done: true }
    } else {
        let before = written(disk, steps.drop_last(), overwrite, dry_run);
        let step = steps.last();
        let action = action_for(
            step.node,
            before.disk.dom().contains(step.path),
            overwrite,
            dry_run,
        );
        if !before.done || blocked(before.disk, step, action) {
            Run { disk: before.disk, done: false }
        } else {
            Run { disk: applied(before.disk, step, action), done: true }
        }
    }
}

/// Whether the disk has room for the steps: no regular file stands on the
/// way to a step's path, and, where files are overwritten, no directory
/// stands in the place of a file.
pub open spec fn fits(disk: Disk, steps: Seq<StepModel>, overwrite: bool) -> bool {
    forall|j: int|
        0 <= j < steps.len() ==> {
            &&& !file_above(disk, (#[trigger] steps[j]).path)
            &&& overwrite && steps[j].node is File && disk.dom().contains(steps[j].path)
                ==> disk[steps[j].path] is File
        }
}

/// A target directory with nothing in it.
pub open spec fn empty_target() -> Disk {
    Map::empty().insert(Seq::<Seq<char>>::empty(), Entry::Directory)
}

/// A dry run is always done and leaves the disk as it is, whatever the tree
/// and whatever was there before.
pub proof fn lemma_dry_run_changes_nothing(disk: Disk, steps: Seq<StepModel>, overwrite: bool)
    ensures
        written(disk, steps, overwrite, true) == (Run { disk, done: true }),
    decreases steps.len(),
{
    if steps.len() > 0 {
        lemma_dry_run_changes_nothing(disk, steps.drop_last(), overwrite);
    }
}

/// Without overwriting, a write replaces nothing, whether it is done or
/// not: every path that existed before still exists afterwards and holds
/// what it held.
pub proof fn lemma_nothing_replaced(disk: Disk, steps: Seq<StepModel>, dry_run: bool)
    ensures
        forall|p: Seq<Seq<char>>| #[trigger]
            disk.dom().contains(p) ==> written(disk, steps, false, dry_run).disk.dom().contains(p)
                && written(disk, steps, false, dry_run).disk[p] == disk[p],
    decreases steps.len(),
{
    if steps.len() > 0 {
        lemma_nothing_replaced(disk, steps.drop_last(), dry_run);
    }
}

/// What a path's parent begins with, the path begins with.
pub proof fn lemma_prefix_of_parent(q: Seq<Seq<char>>, path: Seq<Seq<char>>)
    requires
        path.len() > 0,
        q.is_prefix_of(path.drop_last()),
    ensures
        q.is_prefix_of(path),
        q != path,
{
    assert(path.subrange(0, q.len() as int) =~= path.drop_last().subrange(0, q.len() as int));
}

/// Every path begins with itself.
pub proof fn lemma_prefix_of_itself(path: Seq<Seq<char>>)
    ensures
        path.is_prefix_of(path),
{
    assert(path.subrange(0, path.len() as int) =~= path);
}

/// Every path that a write brings into being is the path of one of its
/// steps, or leads to one.
pub proof fn lemma_new_paths(
    disk: Disk,
    steps: Seq<StepModel>,
    overwrite: bool,
    dry_run: bool,
    p: Seq<Seq<char>>,
)
    requires
        written(disk, steps, overwrite, dry_run).disk.dom().contains(p),
        !disk.dom().contains(p),
    ensures
        exists|j: int| 0 <= j < steps.len() && p.is_prefix_of(#[trigger] steps[j].path),
    decreases steps.len(),
{
    if steps.len() > 0 {
        let earlier = steps.drop_last();
        let before = written(disk, earlier, overwrite, dry_run).disk;
        if before.dom().contains(p) {
            lemma_new_paths(disk, earlier, overwrite, dry_run, p);
            let j = choose|j: int| 0 <= j < earlier.len() && p.is_prefix_of(#[trigger] earlier[j].path);
            assert(steps[j] == earlier[j]);
        } else {
            let last = steps.len() - 1;
            let path = steps[last].path;
            if p != path {
                if path.len() > 0 && p.is_prefix_of(path.drop_last()) {
                    lemma_prefix_of_parent(p, path);
                }
            } else {
                lemma_prefix_of_itself(path);
            }
            assert(p.is_prefix_of(steps[last].path));
        }
    }
}

/// A write removes nothing: every path that existed before exists
/// afterwards.
pub proof fn lemma_paths_stay(
    disk: Disk,
    steps: Seq<StepModel>,
    overwrite: bool,
    dry_run: bool,
    p: Seq<Seq<char>>,
)
    requires
        disk.dom().contains(p),
    ensures
        written(disk, steps, overwrite, dry_run).disk.dom().contains(p),
    decreases steps.len(),
{
    if steps.len() > 0 {
        lemma_paths_stay(disk, steps.drop_last(), overwrite, dry_run, p);
    }
}

/// A write that is done was done after each of its steps.
pub proof fn lemma_done_before(
    disk: Disk,
    steps: Seq<StepModel>,
    overwrite: bool,
    dry_run: bool,
    n: int,
)
    requires
        0 <= n <= steps.len(),
        written(disk, steps, overwrite, dry_run).done,
    ensures
        written(disk, steps.take(n), overwrite, dry_run).done,
    decreases steps.len(),
{
    if n < steps.len() {
        assert(steps.drop_last().take(n) =~= steps.take(n));
        lemma_done_before(disk, steps.drop_last(), overwrite, dry_run, n);
    } else {
        assert(steps.take(n) =~= steps);
    }
}

/// Once the step of a file was taken, the file is on disk with the content
/// that the tree gives it, and no later step changes that. The tree holds no
/// name twice in a directory, the write is no dry run and is done so far,
/// and where files are not overwritten nothing was at the file's path
/// before.
pub proof fn lemma_file_stays(
    disk: Disk,
    tree: TreeModel,
    base: Seq<Seq<char>>,
    overwrite: bool,
    k: int,
    n: int,
)
    requires
        tree.well_formed(),
        0 <= k < n <= tree_steps(tree, base).len(),
        tree_steps(tree, base)[k].node is File,
        overwrite || !disk.dom().contains(tree_steps(tree, base)[k].path),
        written(disk, tree_steps(tree, base).take(n), overwrite, false).done,
    ensures
        ({
            let steps = tree_steps(tree, base);
            let after = written(disk, steps.take(n), overwrite, false).disk;
            &&& after.dom().contains(steps[k].path)
            &&& after[steps[k].path] == Entry::File(steps[k].node->File_0)
        }),
    decreases n,
{
    let steps = tree_steps(tree, base);
    let p = steps[k].path;
    let earlier = steps.take(n - 1);
    assert(steps.take(n).drop_last() =~= earlier);
    assert(steps.take(n).last() == steps[n - 1]);
    let before = written(disk, earlier, overwrite, false).disk;
    lemma_prefix_of_itself(p);
    if n == k + 1 {
        if !overwrite && before.dom().contains(p) {
            lemma_new_paths(disk, earlier, overwrite, false, p);
            let j = choose|j: int| 0 <= j < earlier.len() && p.is_prefix_of(#[trigger] earlier[j].path);
            lemma_file_path_apart(tree, base, k, j);
        }
    } else {
        lemma_file_stays(disk, tree, base, overwrite, k, n - 1);
        lemma_file_path_apart(tree, base, k, n - 1);
    }
}

/// A write that is no dry run and is done has put every file of the tree on
/// disk with its content, where files are overwritten or nothing was at its
/// path before. The tree holds no name twice in a directory.
pub proof fn lemma_write_yields_file(
    disk: Disk,
    tree: TreeModel,
    rel: Seq<Seq<char>>,
    content: Seq<char>,
    overwrite: bool,
)
    requires
        tree.well_formed(),
        holds_file(tree, rel, content),
        overwrite || !disk.dom().contains(rel),
        written(disk, tree_steps(tree, Seq::empty()), overwrite, false).done,
    ensures
        written(disk, tree_steps(tree, Seq::empty()), overwrite, false).disk.dom().contains(rel),
        written(disk, tree_steps(tree, Seq::empty()), overwrite, false).disk[rel] == Entry::File(
            content,
        ),
{
    let base = Seq::<Seq<char>>::empty();
    let steps = tree_steps(tree, base);
    let k = lemma_file_is_step(tree, base, rel, content);
    assert(base + rel =~= rel);
    assert(steps.take(steps.len() as int) =~= steps);
    lemma_file_stays(disk, tree, base, overwrite, k, steps.len() as int);
}

/// A step that the disk has room for does not fail, and the disk has room
/// for all the steps afterwards as it had before. The tree holds no name
/// twice in a directory.
pub proof fn lemma_fits_kept(
    disk: Disk,
    tree: TreeModel,
    base: Seq<Seq<char>>,
    overwrite: bool,
    dry_run: bool,
    k: int,
)
    requires
        tree.well_formed(),
        0 <= k < tree_steps(tree, base).len(),
        fits(disk, tree_steps(tree, base), overwrite),
    ensures
        ({
            let steps = tree_steps(tree, base);
            let action = action_for(
                steps[k].node,
                disk.dom().contains(steps[k].path),
                overwrite,
                dry_run,
            );
            &&& !blocked(disk, steps[k], action)
            &&& fits(applied(disk, steps[k], action), steps, overwrite)
        }),
{
    let steps = tree_steps(tree, base);
    let step = steps[k];
    let path = step.path;
    let action = action_for(step.node, disk.dom().contains(path), overwrite, dry_run);
    let after = applied(disk, step, action);
    assert(!file_above(disk, path));
    assert forall|j: int| 0 <= j < steps.len() implies !file_above(
        after,
        (#[trigger] steps[j]).path,
    ) && (overwrite && steps[j].node is File && after.dom().contains(steps[j].path)
        ==> after[steps[j].path] is File) by {
        let pj = steps[j].path;
        assert(!file_above(disk, pj));
        if file_above(after, pj) {
            let q = choose|q: Seq<Seq<char>>|
                #[trigger] after.dom().contains(q) && q.is_prefix_of(pj) && q != pj
                    && after[q] is File;
            if disk.dom().contains(q) && disk[q] is File {
                assert(file_above(disk, pj));
            } else {
                // Only the step's own file is new as a file.
                assert(q == path && step.node is File);
                lemma_file_path_apart(tree, base, k, j);
            }
        }
        if overwrite && steps[j].node is File && after.dom().contains(pj) && !(after[pj] is File) {
            // A directory that is new leads to the step's path.
            assert(!disk.dom().contains(pj));
            if action == WriteAction::WriteFile && path.len() > 0 && pj.is_prefix_of(
                path.drop_last(),
            ) {
                lemma_prefix_of_parent(pj, path);
            }
            assert(pj.is_prefix_of(path) && j != k);
            lemma_file_path_apart(tree, base, j, k);
        }
    }
}

/// On a disk that has room for the steps of the tree, the write is done
/// after any number of them, and the disk still has room for all. The tree
/// holds no name twice in a directory.
pub proof fn lemma_fitting_steps_succeed(
    disk: Disk,
    tree: TreeModel,
    base: Seq<Seq<char>>,
    overwrite: bool,
    dry_run: bool,
    n: int,
)
    requires
        tree.well_formed(),
        0 <= n <= tree_steps(tree, base).len(),
        fits(disk, tree_steps(tree, base), overwrite),
    ensures
        written(disk, tree_steps(tree, base).take(n), overwrite, dry_run).done,
        fits(
            written(disk, tree_steps(tree, base).take(n), overwrite, dry_run).disk,
            tree_steps(tree, base),
            overwrite,
        ),
    decreases n,
{
    let steps = tree_steps(tree, base);
    if n > 0 {
        lemma_fitting_steps_succeed(disk, tree, base, overwrite, dry_run, n - 1);
        assert(steps.take(n).drop_last() =~= steps.take(n - 1));
        assert(steps.take(n).last() == steps[n - 1]);
        let before = written(disk, steps.take(n - 1), overwrite, dry_run).disk;
        lemma_fits_kept(before, tree, base, overwrite, dry_run, n - 1);
    }
}

/// On a disk that has room for the steps of the tree, the write is done: no
/// step fails. The tree holds no name twice in a directory.
pub proof fn lemma_fitting_write_succeeds(
    disk: Disk,
    tree: TreeModel,
    overwrite: bool,
    dry_run: bool,
)
    requires
        tree.well_formed(),
        fits(disk, tree_steps(tree, Seq::empty()), overwrite),
    ensures
        written(disk, tree_steps(tree, Seq::empty()), overwrite, dry_run).done,
{
    let steps = tree_steps(tree, Seq::empty());
    lemma_fitting_steps_succeed(disk, tree, Seq::empty(), overwrite, dry_run, steps.len() as int);
    assert(steps.take(steps.len() as int) =~= steps);
}

/// An empty target directory has room for every tree that is a directory.
pub proof fn lemma_empty_target_fits(tree: TreeModel, overwrite: bool)
    requires
        tree is Directory,
    ensures
        fits(empty_target(), tree_steps(tree, Seq::empty()), overwrite),
{
    let steps = tree_steps(tree, Seq::empty());
    assert forall|j: int| 0 <= j < steps.len() implies !file_above(
        empty_target(),
        (#[trigger] steps[j]).path,
    ) && (overwrite && steps[j].node is File && empty_target().dom().contains(steps[j].path)
        ==> empty_target()[steps[j].path] is File) by {
        if j > 0 {
            lemma_parent_comes_first(tree, Seq::empty(), j);
        }
    }
}

/// Writing again without overwriting repairs and does no more. What existed
/// is left as it was, whether the write is done or not. On a disk that has
/// room for the tree the write is done, and every file of the tree that was
/// missing is there afterwards with its content. The tree holds no name
/// twice in a directory.
pub proof fn lemma_repair(disk: Disk, tree: TreeModel, rel: Seq<Seq<char>>, content: Seq<char>)
    requires
        tree.well_formed(),
        holds_file(tree, rel, content),
    ensures
        ({
            let after = written(disk, tree_steps(tree, Seq::empty()), false, false);
            &&& forall|p: Seq<Seq<char>>| #[trigger]
                disk.dom().contains(p) ==> after.disk.dom().contains(p) && after.disk[p] == disk[p]
            &&& fits(disk, tree_steps(tree, Seq::empty()), false) ==> after.done
            &&& after.done ==> after.disk.dom().contains(rel)
            &&& after.done && !disk.dom().contains(rel) ==> after.disk[rel] == Entry::File(content)
        }),
{
    let steps = tree_steps(tree, Seq::empty());
    let after = written(disk, steps, false, false);
    lemma_nothing_replaced(disk, steps, false);
    if fits(disk, steps, false) {
        lemma_fitting_write_succeeds(disk, tree, false, false);
    }
    if after.done && !disk.dom().contains(rel) {
        lemma_write_yields_file(disk, tree, rel, content, false);
    }
}

/// After a write that is no dry run and is done, something exists at the
/// path of each step.
pub proof fn lemma_step_paths_exist(disk: Disk, steps: Seq<StepModel>, overwrite: bool, j: int)
    requires
        0 <= j < steps.len(),
        written(disk, steps, overwrite, false).done,
    ensures
        written(disk, steps, overwrite, false).disk.dom().contains(steps[j].path),
    decreases steps.len(),
{
    let earlier = steps.drop_last();
    let path = steps.last().path;
    if j < earlier.len() {
        lemma_step_paths_exist(disk, earlier, overwrite, j);
        let before = written(disk, earlier, overwrite, false).disk;
        assert(before.dom().contains(steps[j].path));
    } else {
        lemma_prefix_of_itself(path);
    }
}

/// Once something exists at every step's path, a write without overwriting
/// is done and does nothing.
pub proof fn lemma_complete_disk_is_kept(disk: Disk, steps: Seq<StepModel>, dry_run: bool)
    requires
        forall|j: int| 0 <= j < steps.len() ==> disk.dom().contains(#[trigger] steps[j].path),
    ensures
        written(disk, steps, false, dry_run) == (Run { disk, done: true }),
    decreases steps.len(),
{
    if steps.len() > 0 {
        let earlier = steps.drop_last();
        assert forall|j: int| 0 <= j < earlier.len() implies disk.dom().contains(
            #[trigger] earlier[j].path,
        ) by {
            assert(earlier[j] == steps[j]);
        }
        lemma_complete_disk_is_kept(disk, earlier, dry_run);
        assert(steps.last() == steps[steps.len() - 1]);
    }
}

/// Writing twice without overwriting is writing once: after a write that is
/// done, a second one finds everything in place, is done and changes
/// nothing.
pub proof fn lemma_second_write_changes_nothing(disk: Disk, steps: Seq<StepModel>, overwrite: bool)
    requires
        written(disk, steps, overwrite, false).done,
    ensures
        written(written(disk, steps, overwrite, false).disk, steps, false, false) == (Run {
            disk: written(disk, steps, overwrite, false).disk,
            done: true,
        }),
{
    let once = written(disk, steps, overwrite, false).disk;
    assert forall|j: int| 0 <= j < steps.len() implies once.dom().contains(
        #[trigger] steps[j].path,
    ) by {
        lemma_step_paths_exist(disk, steps, overwrite, j);
    }
    lemma_complete_disk_is_kept(once, steps, false);
}

/// What stands at the path of a directory of the tree while a write goes
/// on: what was there before, where something was, even a regular file;
/// else a directory, once the step was taken. The tree holds no name twice
/// in a directory, and the write is no dry run and is done so far.
pub proof fn lemma_directory_stays(
    disk: Disk,
    tree: TreeModel,
    base: Seq<Seq<char>>,
    overwrite: bool,
    k: int,
    n: int,
)
    requires
        tree.well_formed(),
        0 <= k < tree_steps(tree, base).len(),
        0 <= n <= tree_steps(tree, base).len(),
        tree_steps(tree, base)[k].node is Directory,
        written(disk, tree_steps(tree, base).take(n), overwrite, false).done,
    ensures
        ({
            let steps = tree_steps(tree, base);
            let after = written(disk, steps.take(n), overwrite, false).disk;
            let p = steps[k].path;
            &&& disk.dom().contains(p) ==> after.dom().contains(p) && after[p] == disk[p]
            &&& !disk.dom().contains(p) && after.dom().contains(p) ==> after[p] is Directory
            &&& n > k ==> after.dom().contains(p)
        }),
    decreases n,
{
    let steps = tree_steps(tree, base);
    let p = steps[k].path;
    if n > 0 {
        let earlier = steps.take(n - 1);
        assert(steps.take(n).drop_last() =~= earlier);
        assert(steps.take(n).last() == steps[n - 1]);
        lemma_directory_stays(disk, tree, base, overwrite, k, n - 1);
        lemma_prefix_of_itself(p);
        if steps[n - 1].node is File {
            lemma_prefix_of_itself(steps[n - 1].path);
            lemma_file_path_apart(tree, base, n - 1, k);
        }
    }
}

/// After a write that is no dry run and is done, something stands at the
/// path of every directory of the tree: what was there before, or a new
/// directory. The tree holds no name twice in a directory.
pub proof fn lemma_write_yields_directory(
    disk: Disk,
    tree: TreeModel,
    overwrite: bool,
    k: int,
)
    requires
        tree.well_formed(),
        0 <= k < tree_steps(tree, Seq::empty()).len(),
        tree_steps(tree, Seq::empty())[k].node is Directory,
        written(disk, tree_steps(tree, Seq::empty()), overwrite, false).done,
    ensures
        ({
            let steps = tree_steps(tree, Seq::empty());
            let after = written(disk, steps, overwrite, false).disk;
            let p = steps[k].path;
            &&& after.dom().contains(p)
            &&& after[p] == if disk.dom().contains(p) {
                disk[p]
            } else {
                Entry::Directory
            }
        }),
{
    let steps = tree_steps(tree, Seq::empty());
    assert(steps.take(steps.len() as int) =~= steps);
    lemma_directory_stays(disk, tree, Seq::empty(), overwrite, k, steps.len() as int);
}

/// A file cannot be written below a regular file: where the target holds
/// only the regular file `a`, the write of the tree `a/f` is not done and
/// leaves the disk as it was, whatever the names and the contents, and
/// whether files are overwritten or not.
pub proof fn lemma_write_below_a_file_fails(
    a: Seq<char>,
    f: Seq<char>,
    kept: Seq<char>,
    content: Seq<char>,
    overwrite: bool,
)
    ensures
        ({
            let below = TreeModel::Directory(seq![(f, TreeModel::File(content))]);
            let tree = TreeModel::Directory(seq![(a, below)]);
            let disk = empty_target().insert(seq![a], Entry::File(kept));
            written(disk, tree_steps(tree, Seq::empty()), overwrite, false) == (Run {
                disk,
                done: false,
            })
        }),
{
    let below = TreeModel::Directory(seq![(f, TreeModel::File(content))]);
    let tree = TreeModel::Directory(seq![(a, below)]);
    let root = Seq::<Seq<char>>::empty();
    let disk = empty_target().insert(seq![a], Entry::File(kept));
    let steps = tree_steps(tree, root);
    reveal_with_fuel(tree_steps, 4);
    reveal_with_fuel(children_steps, 4);
    assert(root.push(a) =~= seq![a]);
    assert(seq![a].push(f) =~= seq![a, f]);
    let s0 = StepModel { path: root, node: NodeModel::Directory };
    let s1 = StepModel { path: seq![a], node: NodeModel::Directory };
    let s2 = StepModel { path: seq![a, f], node: NodeModel::File(content) };
    assert(tree_steps(TreeModel::File(content), seq![a, f]) =~= seq![s2]);
    assert(children_steps(below, seq![a], 1) =~= seq![s2]);
    assert(tree_steps(below, seq![a]) =~= seq![s1, s2]);
    assert(children_steps(tree, root, 1) =~= seq![s1, s2]);
    assert(steps =~= seq![s0, s1, s2]);
    reveal_with_fuel(written, 5);
    assert(steps.drop_last() =~= seq![s0, s1]);
    assert(seq![s0, s1].drop_last() =~= seq![s0]);
    assert(seq![s0].drop_last() =~= Seq::<StepModel>::empty());
    assert(written(disk, seq![s0], overwrite, false) == Run { disk, done: true });
    assert(disk.dom().contains(seq![a]));
    assert(written(disk, seq![s0, s1], overwrite, false) == Run { disk, done: true });
    assert(seq![a, f].subrange(0, 1) =~= seq![a]);
    assert(seq![a].is_prefix_of(seq![a, f]));
    assert(file_above(disk, seq![a, f]));
    assert(!disk.dom().contains(seq![a, f])) by {
        assert(seq![a, f].len() == 2);
    }
}

} // verus!
