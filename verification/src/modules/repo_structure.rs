//! The layout of a new repository.

use vstd::prelude::*;
use vstd::string::StringExecFns;
use crate::modules::config::{
    ConfigError, ConfigFault, ConfigModel, ConfigValue, config_text, entries_model, header_line,
    lemma_object_view, obj_to_str, sections_text, setting_line, settings_text, subsections_text,
};
use crate::modules::disk::{
    Disk, Entry, empty_target, fits, lemma_empty_target_fits, lemma_fitting_write_succeeds,
    lemma_repair, lemma_write_yields_file, written,
};
use crate::modules::files::{TreeModel, TreeNode, children_model, lemma_directory_view};
use crate::modules::writer::{holds_file, tree_steps};
use crate::modules::json::{bool_text, digits_text, distinct_keys};

verus! {

/// The name of the directory that holds the metadata of a repository with a
/// working tree.
pub open spec fn metadata_dir_name() -> Seq<char> {
    ".cs01-root"@
}

/// The settings that a new repository starts with.
pub open spec fn core_settings(bare: bool) -> Seq<(Seq<char>, ConfigModel)> {
    seq![
        ("bare"@, ConfigModel::Bool(bare)),
        ("repositoryformatversion"@, ConfigModel::Number(0)),
        ("filemode"@, ConfigModel::Bool(true)),
        ("logallrefupdates"@, ConfigModel::Bool(true)),
    ]
}

/// The configuration that a new repository starts with: the section `core`,
/// without a subsection, with its four settings.
pub open spec fn repo_config(bare: bool) -> ConfigModel {
    ConfigModel::Object(
        seq![
            (
                "core"@,
                ConfigModel::Object(
                    seq![(Seq::<char>::empty(), ConfigModel::Object(core_settings(bare)))],
                ),
            ),
        ],
    )
}

/// The text of the file `config` of a new repository.
pub open spec fn repo_config_text(bare: bool) -> Seq<char> {
    "[core]\n  bare = "@ + bool_text(bare)
        + "\n  repositoryformatversion = 0\n  filemode = true\n  logallrefupdates = true\n"@
}

/// The reference to a branch: `ref: refs/heads/` and the branch's name.
pub open spec fn branch_ref(branch: Seq<char>) -> Seq<char> {
    "ref: refs/heads/"@ + branch
}

/// The text of the file `description`.
pub open spec fn description_text() -> Seq<char> {
    "Unnamed repository; edit this file 'description' to name the repository.\n"@
}

/// The text of the file `info/exclude`.
pub open spec fn exclude_text() -> Seq<char> {
    "# cs01 ls-files --others --exclude-from=.cs01/info/exclude\n# Lines that start with '#' are comments.\n# For a project mostly in C, the following would be a good set of\n# exclude patterns (uncomment them if you want to use them):\n# *.[oa]\n# *~\n"@
}

/// The names of the sample hooks.
pub open spec fn hook_names() -> Seq<Seq<char>> {
    seq![
        "applypatch-msg.sample"@,
        "commit-msg.sample"@,
        "fsmonitor-watchman.sample"@,
        "post-update.sample"@,
        "pre-applypatch.sample"@,
        "pre-commit.sample"@,
        "pre-merge-commit.sample"@,
        "prepare-commit-msg.sample"@,
        "pre-push.sample"@,
        "pre-rebase.sample"@,
        "pre-receive.sample"@,
        "push-to-checkout.sample"@,
        "sendemail-validate.sample"@,
        "update.sample"@,
    ]
}

/// The directory `hooks`: one empty file for each sample hook.
pub open spec fn hooks_tree() -> TreeModel {
    TreeModel::Directory(
        Seq::new(14, |i: int| (hook_names()[i], TreeModel::File(Seq::<char>::empty()))),
    )
}

/// A directory without children.
pub open spec fn empty_dir() -> TreeModel {
    TreeModel::Directory(Seq::empty())
}

/// The metadata of a new repository on `branch` whose file `config` holds
/// `config`.
pub open spec fn metadata_tree(branch: Seq<char>, config: Seq<char>) -> TreeModel {
    TreeModel::Directory(
        seq![
            ("HEAD"@, TreeModel::File(branch_ref(branch) + "\n"@)),
            ("config"@, TreeModel::File(config)),
            ("description"@, TreeModel::File(description_text())),
            ("hooks"@, hooks_tree()),
            ("info"@, TreeModel::Directory(seq![("exclude"@, TreeModel::File(exclude_text()))])),
            (
                "objects"@,
                TreeModel::Directory(seq![("info"@, empty_dir()), ("pack"@, empty_dir())]),
            ),
            (
                "refs"@,
                TreeModel::Directory(
                    seq![
                        (
                            "heads"@,
                            TreeModel::Directory(seq![(branch, TreeModel::File(branch_ref(branch)))]),
                        ),
                        ("tags"@, empty_dir()),
                    ],
                ),
            ),
        ],
    )
}

/// The tree of a new repository: the metadata itself where the repository is
/// bare, else a directory that holds the metadata under `.cs01-root`.
pub open spec fn repo_tree(bare: bool, branch: Seq<char>) -> TreeModel {
    let metadata = metadata_tree(branch, repo_config_text(bare));
    if bare {
        metadata
    } else {
        TreeModel::Directory(seq![(metadata_dir_name(), metadata)])
    }
}

/// A file under its name.
fn file_entry(name: &str, content: String) -> (entry: (String, TreeNode))
    ensures
        entry.0@ == name@,
        entry.1@ == TreeModel::File(content@),
{
    (name.to_owned(), TreeNode::File(content))
}

/// A directory under its name.
fn dir_entry(name: &str, children: Vec<(String, TreeNode)>) -> (entry: (String, TreeNode))
    ensures
        entry.0@ == name@,
        entry.1@ == TreeModel::Directory(children_model(children@)),
{
    proof {
        lemma_directory_view(children);
    }
    (name.to_owned(), TreeNode::Directory(children))
}

/// The configuration that a new repository starts with.
pub fn build_repo_config(bare: bool) -> (config: ConfigValue)
    ensures
        config@ == repo_config(bare),
        config@.well_formed(),
{
    let mut settings: Vec<(String, ConfigValue)> = Vec::new();
    settings.push(("bare".to_owned(), ConfigValue::Bool(bare)));
    settings.push(("repositoryformatversion".to_owned(), ConfigValue::Number(0)));
    settings.push(("filemode".to_owned(), ConfigValue::Bool(true)));
    settings.push(("logallrefupdates".to_owned(), ConfigValue::Bool(true)));
    let mut subsections: Vec<(String, ConfigValue)> = Vec::new();
    subsections.push(("".to_owned(), ConfigValue::Object(settings)));
    let mut sections: Vec<(String, ConfigValue)> = Vec::new();
    sections.push(("core".to_owned(), ConfigValue::Object(subsections)));
    let config = ConfigValue::Object(sections);
    proof {
        reveal_strlit("");
        reveal_strlit("bare");
        reveal_strlit("repositoryformatversion");
        reveal_strlit("filemode");
        reveal_strlit("logallrefupdates");
        lemma_object_view(settings);
        lemma_object_view(subsections);
        lemma_object_view(sections);
        assert(""@ =~= Seq::<char>::empty());
        assert(entries_model(settings@) =~= core_settings(bare));
        assert(entries_model(subsections@) =~= seq![
            (Seq::<char>::empty(), ConfigModel::Object(core_settings(bare))),
        ]);
        assert(entries_model(sections@) =~= repo_config(bare)->Object_0);
        let core = core_settings(bare);
        assert(core[0].0.len() == 4 && core[1].0.len() == 23 && core[2].0.len() == 8
            && core[3].0.len() == 16);
        assert(distinct_keys(core));
        assert forall|i: int| 0 <= i < core.len() implies (#[trigger] core[i]).1.well_formed() by {
            assert(core[i].1 is Bool || core[i].1 is Number);
        }
        assert(ConfigModel::Object(core).well_formed());
        let inner = ConfigModel::Object(
            seq![(Seq::<char>::empty(), ConfigModel::Object(core_settings(bare)))],
        );
        assert(inner.well_formed());
    }
    config
}

/// The four lines of the settings that a new repository starts with.
pub proof fn lemma_core_settings_text(bare: bool)
    ensures
        settings_text(core_settings(bare)) == "  bare = "@ + bool_text(bare)
            + "\n  repositoryformatversion = 0\n  filemode = true\n  logallrefupdates = true\n"@,
{
    let core = core_settings(bare);
    let one = core.take(1);
    let two = core.take(2);
    let three = core.take(3);
    assert(one.drop_last() =~= Seq::empty());
    assert(two.drop_last() =~= one);
    assert(three.drop_last() =~= two);
    assert(core.drop_last() =~= three);
    reveal_with_fuel(digits_text, 2);
    reveal_strlit("  ");
    reveal_strlit(" = ");
    reveal_strlit("\n");
    reveal_strlit("bare");
    reveal_strlit("repositoryformatversion");
    reveal_strlit("filemode");
    reveal_strlit("logallrefupdates");
    reveal_strlit("  bare = ");
    reveal_strlit(
        "\n  repositoryformatversion = 0\n  filemode = true\n  logallrefupdates = true\n",
    );
    let first = "  bare = "@ + bool_text(bare) + "\n"@;
    assert(settings_text(one) == first) by {
        assert(settings_text(one.drop_last()) == Seq::<char>::empty());
        assert(Seq::<char>::empty() + setting_line("bare"@, bool_text(bare)) =~= first);
    }
    let second = first + "  repositoryformatversion = 0\n"@;
    reveal_strlit("  repositoryformatversion = 0\n");
    assert(settings_text(two) == second) by {
        assert(setting_line("repositoryformatversion"@, seq!['0'])
            =~= "  repositoryformatversion = 0\n"@);
    }
    let third = second + "  filemode = true\n"@;
    reveal_strlit("  filemode = true\n");
    assert(settings_text(three) == third) by {
        assert(setting_line("filemode"@, bool_text(true)) =~= "  filemode = true\n"@);
    }
    let fourth = third + "  logallrefupdates = true\n"@;
    reveal_strlit("  logallrefupdates = true\n");
    assert(settings_text(core) == fourth) by {
        assert(setting_line("logallrefupdates"@, bool_text(true))
            =~= "  logallrefupdates = true\n"@);
    }
    assert(fourth =~= "  bare = "@ + bool_text(bare)
        + "\n  repositoryformatversion = 0\n  filemode = true\n  logallrefupdates = true\n"@);
}

/// The text of the configuration that a new repository starts with.
pub proof fn lemma_repo_config_text(bare: bool)
    ensures
        config_text(repo_config(bare)) == Ok::<Seq<char>, ConfigFault>(repo_config_text(bare)),
{
    lemma_core_settings_text(bare);
    let subsections = seq![(Seq::<char>::empty(), ConfigModel::Object(core_settings(bare)))];
    let sections = seq![("core"@, ConfigModel::Object(subsections))];
    assert(subsections.drop_last() =~= Seq::empty());
    assert(sections.drop_last() =~= Seq::empty());
    reveal_strlit("[");
    reveal_strlit("core");
    reveal_strlit("]\n");
    reveal_strlit("[core]\n  bare = ");
    reveal_strlit("  bare = ");
    let lines = "  bare = "@ + bool_text(bare)
        + "\n  repositoryformatversion = 0\n  filemode = true\n  logallrefupdates = true\n"@;
    assert(header_line("core"@, Seq::empty()) + lines =~= repo_config_text(bare));
    assert(subsections_text("core"@, subsections.drop_last()) == Ok::<Seq<char>, ConfigFault>(
        Seq::empty(),
    ));
    assert(Seq::<char>::empty() + (header_line("core"@, Seq::empty()) + lines)
        =~= repo_config_text(bare));
    assert(subsections_text("core"@, subsections) == Ok::<Seq<char>, ConfigFault>(
        repo_config_text(bare),
    ));
    assert(sections_text(sections.drop_last()) == Ok::<Seq<char>, ConfigFault>(Seq::empty()));
    assert(sections_text(sections) == Ok::<Seq<char>, ConfigFault>(repo_config_text(bare)));
}

/// The names of the sample hooks.
fn sample_hooks() -> (names: Vec<&'static str>)
    ensures
        names@.len() == 14,
        forall|i: int| 0 <= i < 14 ==> (#[trigger] names@[i])@ == hook_names()[i],
{
    vec![
        "applypatch-msg.sample",
        "commit-msg.sample",
        "fsmonitor-watchman.sample",
        "post-update.sample",
        "pre-applypatch.sample",
        "pre-commit.sample",
        "pre-merge-commit.sample",
        "prepare-commit-msg.sample",
        "pre-push.sample",
        "pre-rebase.sample",
        "pre-receive.sample",
        "push-to-checkout.sample",
        "sendemail-validate.sample",
        "update.sample",
    ]
}

/// The directory `hooks`.
fn build_hooks() -> (hooks: Vec<(String, TreeNode)>)
    ensures
        TreeModel::Directory(children_model(hooks@)) == hooks_tree(),
{
    let names = sample_hooks();
    let mut hooks: Vec<(String, TreeNode)> = Vec::new();
    let mut i: usize = 0;
    while i < names.len()
        invariant
            i <= names.len(),
            names@.len() == 14,
            forall|k: int| 0 <= k < 14 ==> (#[trigger] names@[k])@ == hook_names()[k],
            hooks@.len() == i,
            forall|k: int|
                0 <= k < i ==> (#[trigger] hooks@[k]).0@ == hook_names()[k] && hooks@[k].1@
                    == TreeModel::File(Seq::<char>::empty()),
        decreases names.len() - i,
    {
        proof {
            reveal_strlit("");
            assert(""@ =~= Seq::<char>::empty());
        }
        hooks.push(file_entry(names[i], "".to_owned()));
        i += 1;
    }
    proof {
        assert(children_model(hooks@) =~= hooks_tree()->Directory_0);
    }
    hooks
}

/// Builds the tree of a new repository on the branch `initial_branch`.
///
/// The metadata holds `HEAD`, which names the branch, the file `config`, the
/// file `description`, the sample hooks, `info/exclude`, the two directories
/// of `objects`, the branch's own reference under `refs/heads` and the
/// directory `refs/tags`. A bare repository is the metadata itself; any other
/// holds it in the directory `.cs01-root`.
pub fn build_repo_tree(bare: bool, initial_branch: &str) -> (r: Result<TreeNode, ConfigError>)
    ensures
        r matches Ok(tree) && tree@ == repo_tree(bare, initial_branch@) && tree@.well_formed(),
{
    proof {
        lemma_repo_tree_well_formed(bare, initial_branch@);
    }
    let mut reference = String::from_str("ref: refs/heads/");
    reference.append(initial_branch);

    let config = build_repo_config(bare);
    proof {
        lemma_repo_config_text(bare);
    }
    let config_content = match obj_to_str(&config) {
        Ok(text) => text,
        Err(error) => {
            return Err(error);
        },
    };

    let mut head = reference.clone();
    head.append("\n");

    let mut internal: Vec<(String, TreeNode)> = Vec::new();
    internal.push(file_entry("HEAD", head));
    internal.push(file_entry("config", config_content));
    internal.push(
        file_entry(
            "description",
            "Unnamed repository; edit this file 'description' to name the repository.\n".to_owned(),
        ),
    );
    internal.push(dir_entry("hooks", build_hooks()));

    let mut info: Vec<(String, TreeNode)> = Vec::new();
    info.push(
        file_entry(
            "exclude",
            "# cs01 ls-files --others --exclude-from=.cs01/info/exclude\n# Lines that start with '#' are comments.\n# For a project mostly in C, the following would be a good set of\n# exclude patterns (uncomment them if you want to use them):\n# *.[oa]\n# *~\n".to_owned(),
        ),
    );
    proof {
        assert(children_model(info@) =~= seq![("exclude"@, TreeModel::File(exclude_text()))]);
    }
    internal.push(dir_entry("info", info));

    let mut objects: Vec<(String, TreeNode)> = Vec::new();
    let none: Vec<(String, TreeNode)> = Vec::new();
    proof {
        assert(children_model(none@) =~= Seq::empty());
    }
    objects.push(dir_entry("info", none));
    let none: Vec<(String, TreeNode)> = Vec::new();
    proof {
        assert(children_model(none@) =~= Seq::empty());
    }
    objects.push(dir_entry("pack", none));
    proof {
        assert(children_model(objects@) =~= seq![("info"@, empty_dir()), ("pack"@, empty_dir())]);
    }
    internal.push(dir_entry("objects", objects));

    let mut heads: Vec<(String, TreeNode)> = Vec::new();
    heads.push(file_entry(initial_branch, reference));
    proof {
        assert(children_model(heads@) =~= seq![
            (initial_branch@, TreeModel::File(branch_ref(initial_branch@))),
        ]);
    }
    let mut refs: Vec<(String, TreeNode)> = Vec::new();
    refs.push(dir_entry("heads", heads));
    let none: Vec<(String, TreeNode)> = Vec::new();
    proof {
        assert(children_model(none@) =~= Seq::empty());
    }
    refs.push(dir_entry("tags", none));
    proof {
        assert(children_model(refs@) =~= seq![
            (
                "heads"@,
                TreeModel::Directory(
                    seq![(initial_branch@, TreeModel::File(branch_ref(initial_branch@)))],
                ),
            ),
            ("tags"@, empty_dir()),
        ]);
    }
    internal.push(dir_entry("refs", refs));
    proof {
        assert(children_model(internal@) =~= metadata_tree(
            initial_branch@,
            repo_config_text(bare),
        )->Directory_0);
        lemma_directory_view(internal);
    }

    if bare {
        Ok(TreeNode::Directory(internal))
    } else {
        let mut root: Vec<(String, TreeNode)> = Vec::new();
        root.push(dir_entry(".cs01-root", internal));
        proof {
            assert(children_model(root@) =~= seq![
                (metadata_dir_name(), metadata_tree(initial_branch@, repo_config_text(bare))),
            ]);
            lemma_directory_view(root);
        }
        Ok(TreeNode::Directory(root))
    }
}

/// No two sample hooks have the same name.
pub proof fn lemma_hook_names_distinct()
    ensures
        forall|i: int, j: int| 0 <= i < j < 14 ==> hook_names()[i] != hook_names()[j],
{
    reveal_strlit("applypatch-msg.sample");
    reveal_strlit("commit-msg.sample");
    reveal_strlit("fsmonitor-watchman.sample");
    reveal_strlit("post-update.sample");
    reveal_strlit("pre-applypatch.sample");
    reveal_strlit("pre-commit.sample");
    reveal_strlit("pre-merge-commit.sample");
    reveal_strlit("prepare-commit-msg.sample");
    reveal_strlit("pre-push.sample");
    reveal_strlit("pre-rebase.sample");
    reveal_strlit("pre-receive.sample");
    reveal_strlit("push-to-checkout.sample");
    reveal_strlit("sendemail-validate.sample");
    reveal_strlit("update.sample");
    let names = hook_names();
    assert(names[0][0] == 'a' && names[0].len() == 21);
    assert(names[1][0] == 'c' && names[1].len() == 17);
    assert(names[2][0] == 'f' && names[2].len() == 25);
    assert(names[3][1] == 'o' && names[3].len() == 18);
    assert(names[4][0] == 'p' && names[4].len() == 21);
    assert(names[5][4] == 'c' && names[5].len() == 17);
    assert(names[6][0] == 'p' && names[6].len() == 23);
    assert(names[7][0] == 'p' && names[7].len() == 25);
    assert(names[8][0] == 'p' && names[8].len() == 15);
    assert(names[9][4] == 'r' && names[9].len() == 17);
    assert(names[10][1] == 'r' && names[10].len() == 18);
    assert(names[11][1] == 'u' && names[11].len() == 23);
    assert(names[12][0] == 's' && names[12].len() == 25);
    assert(names[13][0] == 'u' && names[13].len() == 13);
}

/// The tree of a new repository holds no name twice in a directory.
pub proof fn lemma_repo_tree_well_formed(bare: bool, branch: Seq<char>)
    ensures
        repo_tree(bare, branch).well_formed(),
{
    lemma_hook_names_distinct();
    reveal_strlit("HEAD");
    reveal_strlit("config");
    reveal_strlit("description");
    reveal_strlit("hooks");
    reveal_strlit("info");
    reveal_strlit("objects");
    reveal_strlit("refs");
    reveal_strlit("pack");
    reveal_strlit("heads");
    reveal_strlit("tags");
    assert(empty_dir().well_formed());
    let hooks = hooks_tree();
    assert(hooks.well_formed()) by {
        let children = hooks->Directory_0;
        assert forall|i: int| 0 <= i < children.len() implies (#[trigger] children[i]).1.well_formed() by {
            assert(children[i].1 is File);
        }
    }
    let info = TreeModel::Directory(seq![("exclude"@, TreeModel::File(exclude_text()))]);
    assert(info.well_formed()) by {
        let children = info->Directory_0;
        assert forall|i: int| 0 <= i < children.len() implies (#[trigger] children[i]).1.well_formed() by {
            assert(children[i].1 is File);
        }
    }
    let objects = TreeModel::Directory(seq![("info"@, empty_dir()), ("pack"@, empty_dir())]);
    assert(objects.well_formed()) by {
        let children = objects->Directory_0;
        assert(children[0].0.len() == 4 && children[0].0[0] == 'i');
        assert(children[1].0.len() == 4 && children[1].0[0] == 'p');
        assert forall|i: int| 0 <= i < children.len() implies (#[trigger] children[i]).1.well_formed() by {
            assert(children[i].1 == empty_dir());
        }
    }
    let heads = TreeModel::Directory(seq![(branch, TreeModel::File(branch_ref(branch)))]);
    assert(heads.well_formed()) by {
        let children = heads->Directory_0;
        assert forall|i: int| 0 <= i < children.len() implies (#[trigger] children[i]).1.well_formed() by {
            assert(children[i].1 is File);
        }
    }
    let refs = TreeModel::Directory(seq![("heads"@, heads), ("tags"@, empty_dir())]);
    assert(refs.well_formed()) by {
        let children = refs->Directory_0;
        assert(children[0].0.len() == 5);
        assert(children[1].0.len() == 4);
        assert forall|i: int| 0 <= i < children.len() implies (#[trigger] children[i]).1.well_formed() by {
            assert(children[i].1 == heads || children[i].1 == empty_dir());
        }
    }
    let metadata = metadata_tree(branch, repo_config_text(bare));
    assert(metadata.well_formed()) by {
        let children = metadata->Directory_0;
        assert(children[0].0.len() == 4 && children[0].0[0] == 'H');
        assert(children[1].0.len() == 6);
        assert(children[2].0.len() == 11);
        assert(children[3].0.len() == 5);
        assert(children[4].0.len() == 4 && children[4].0[0] == 'i');
        assert(children[5].0.len() == 7);
        assert(children[6].0.len() == 4 && children[6].0[0] == 'r');
        assert forall|i: int| 0 <= i < children.len() implies (#[trigger] children[i]).1.well_formed() by {
            assert(children[i].1 is File || children[i].1 == hooks || children[i].1 == info
                || children[i].1 == objects || children[i].1 == refs);
        }
    }
    if !bare {
        let root = repo_tree(bare, branch);
        let children = root->Directory_0;
        assert forall|i: int| 0 <= i < children.len() implies (#[trigger] children[i]).1.well_formed() by {
            assert(children[i].1 == metadata);
        }
    }
}

/// The names that lead to `HEAD` from the target directory.
pub open spec fn head_path(bare: bool) -> Seq<Seq<char>> {
    if bare {
        seq!["HEAD"@]
    } else {
        seq![metadata_dir_name(), "HEAD"@]
    }
}

/// The tree of a new repository holds the file `HEAD`, which names the branch
/// in one line.
pub proof fn lemma_repo_tree_holds_head(bare: bool, branch: Seq<char>)
    ensures
        holds_file(repo_tree(bare, branch), head_path(bare), branch_ref(branch) + "\n"@),
{
    let metadata = metadata_tree(branch, repo_config_text(bare));
    let content = branch_ref(branch) + "\n"@;
    let name = seq!["HEAD"@];
    assert(holds_file(metadata, name, content)) by {
        assert(metadata->Directory_0[0].0 == name[0]);
        assert(holds_file(metadata->Directory_0[0].1, name.skip(1), content));
    }
    if !bare {
        let root = repo_tree(bare, branch);
        assert(root->Directory_0[0].0 == head_path(bare)[0]);
        assert(head_path(bare).skip(1) =~= name);
    }
}

/// The names that lead to `config` from the target directory.
pub open spec fn config_path(bare: bool) -> Seq<Seq<char>> {
    if bare {
        seq!["config"@]
    } else {
        seq![metadata_dir_name(), "config"@]
    }
}

/// The tree of a new repository holds the file `config` with the text of the
/// starting configuration.
pub proof fn lemma_repo_tree_holds_config(bare: bool, branch: Seq<char>)
    ensures
        holds_file(repo_tree(bare, branch), config_path(bare), repo_config_text(bare)),
{
    let metadata = metadata_tree(branch, repo_config_text(bare));
    let content = repo_config_text(bare);
    let name = seq!["config"@];
    assert(holds_file(metadata, name, content)) by {
        assert(metadata->Directory_0[1].0 == name[0]);
        assert(holds_file(metadata->Directory_0[1].1, name.skip(1), content));
    }
    if !bare {
        let root = repo_tree(bare, branch);
        assert(root->Directory_0[0].0 == config_path(bare)[0]);
        assert(config_path(bare).skip(1) =~= name);
    }
}

/// Writing the tree of a new repository on any branch puts `HEAD` on disk
/// with the line `ref: refs/heads/` and the branch's name. The disk has room
/// for the tree, the write is no dry run, and files are overwritten or there
/// was no `HEAD` before.
pub proof fn lemma_head_names_branch(disk: Disk, bare: bool, branch: Seq<char>, overwrite: bool)
    requires
        fits(disk, tree_steps(repo_tree(bare, branch), Seq::empty()), overwrite),
        overwrite || !disk.dom().contains(head_path(bare)),
    ensures
        ({
            let after = written(
                disk,
                tree_steps(repo_tree(bare, branch), Seq::empty()),
                overwrite,
                false,
            );
            &&& after.done
            &&& after.disk.dom().contains(head_path(bare))
            &&& after.disk[head_path(bare)] == Entry::File("ref: refs/heads/"@ + branch + "\n"@)
        }),
{
    lemma_repo_tree_well_formed(bare, branch);
    lemma_repo_tree_holds_head(bare, branch);
    lemma_fitting_write_succeeds(disk, repo_tree(bare, branch), overwrite, false);
    lemma_write_yields_file(
        disk,
        repo_tree(bare, branch),
        head_path(bare),
        branch_ref(branch) + "\n"@,
        overwrite,
    );
}

/// Writing the tree of a new repository on any branch into an empty
/// directory is done and puts `HEAD` there, with the line `ref: refs/heads/`
/// and the branch's name.
pub proof fn lemma_head_in_empty_directory(bare: bool, branch: Seq<char>, overwrite: bool)
    ensures
        ({
            let after = written(
                empty_target(),
                tree_steps(repo_tree(bare, branch), Seq::empty()),
                overwrite,
                false,
            );
            &&& after.done
            &&& after.disk.dom().contains(head_path(bare))
            &&& after.disk[head_path(bare)] == Entry::File("ref: refs/heads/"@ + branch + "\n"@)
        }),
{
    lemma_empty_target_fits(repo_tree(bare, branch), overwrite);
    assert(!empty_target().dom().contains(head_path(bare))) by {
        assert(head_path(bare).len() > 0);
    }
    lemma_head_names_branch(empty_target(), bare, branch, overwrite);
}

/// A repository that lost its `config` gets it back when it is initialised
/// again, with the text of the starting configuration, and nothing that is
/// there is changed. The disk has room for the tree.
pub proof fn lemma_lost_config_is_restored(disk: Disk, bare: bool, branch: Seq<char>)
    requires
        fits(disk, tree_steps(repo_tree(bare, branch), Seq::empty()), false),
        !disk.dom().contains(config_path(bare)),
    ensures
        ({
            let after = written(disk, tree_steps(repo_tree(bare, branch), Seq::empty()), false, false);
            &&& after.done
            &&& after.disk.dom().contains(config_path(bare))
            &&& after.disk[config_path(bare)] == Entry::File(repo_config_text(bare))
            &&& forall|p: Seq<Seq<char>>| #[trigger]
                disk.dom().contains(p) ==> after.disk.dom().contains(p) && after.disk[p] == disk[p]
        }),
{
    lemma_repo_tree_well_formed(bare, branch);
    lemma_repo_tree_holds_config(bare, branch);
    lemma_repair(disk, repo_tree(bare, branch), config_path(bare), repo_config_text(bare));
}

} // verus!
