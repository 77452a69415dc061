use cs_01::modules::config::{obj_to_str, ConfigValue};
use cs_01::modules::files::TreeNode;
use cs_01::modules::repo_structure::{build_repo_config, build_repo_tree};

fn file(name: &str, content: &str) -> (String, TreeNode) {
    (name.to_string(), TreeNode::File(content.to_string()))
}

fn dir(name: &str, children: Vec<(String, TreeNode)>) -> (String, TreeNode) {
    (name.to_string(), TreeNode::Directory(children))
}

fn metadata(bare: &str, branch: &str) -> Vec<(String, TreeNode)> {
    vec![
        file("HEAD", &format!("ref: refs/heads/{}\n", branch)),
        file(
            "config",
            &format!(
                "[core]\n  bare = {}\n  repositoryformatversion = 0\n  filemode = true\n  logallrefupdates = true\n",
                bare
            ),
        ),
        file(
            "description",
            "Unnamed repository; edit this file 'description' to name the repository.\n",
        ),
        dir(
            "hooks",
            vec![
                file("applypatch-msg.sample", ""),
                file("commit-msg.sample", ""),
                file("fsmonitor-watchman.sample", ""),
                file("post-update.sample", ""),
                file("pre-applypatch.sample", ""),
                file("pre-commit.sample", ""),
                file("pre-merge-commit.sample", ""),
                file("prepare-commit-msg.sample", ""),
                file("pre-push.sample", ""),
                file("pre-rebase.sample", ""),
                file("pre-receive.sample", ""),
                file("push-to-checkout.sample", ""),
                file("sendemail-validate.sample", ""),
                file("update.sample", ""),
            ],
        ),
        dir(
            "info",
            vec![file(
                "exclude",
                "# cs01 ls-files --others --exclude-from=.cs01/info/exclude\n# Lines that start with '#' are comments.\n# For a project mostly in C, the following would be a good set of\n# exclude patterns (uncomment them if you want to use them):\n# *.[oa]\n# *~\n",
            )],
        ),
        dir("objects", vec![dir("info", vec![]), dir("pack", vec![])]),
        dir(
            "refs",
            vec![
                dir(
                    "heads",
                    vec![file(branch, &format!("ref: refs/heads/{}", branch))],
                ),
                dir("tags", vec![]),
            ],
        ),
    ]
}

#[test]
fn standard_repository_keeps_its_metadata_in_a_directory() {
    let tree = build_repo_tree(false, "main").unwrap();
    assert_eq!(
        tree,
        TreeNode::Directory(vec![dir(".cs01-root", metadata("false", "main"))])
    );
}

#[test]
fn bare_repository_is_the_metadata_itself() {
    let tree = build_repo_tree(true, "master").unwrap();
    assert_eq!(tree, TreeNode::Directory(metadata("true", "master")));
}

#[test]
fn there_are_fourteen_sample_hooks() {
    let tree = build_repo_tree(true, "main").unwrap();
    let TreeNode::Directory(children) = tree else {
        panic!("expected a directory");
    };
    let hooks = children.iter().find(|(name, _)| name == "hooks").unwrap();
    let TreeNode::Directory(samples) = &hooks.1 else {
        panic!("expected a directory");
    };
    assert_eq!(samples.len(), 14);
    assert!(samples
        .iter()
        .all(|(name, node)| name.ends_with(".sample") && *node == TreeNode::File(String::new())));
}

#[test]
fn branch_reference_has_no_line_feed() {
    let tree = build_repo_tree(true, "dev").unwrap();
    let TreeNode::Directory(children) = tree else {
        panic!("expected a directory");
    };
    let refs = &children.iter().find(|(name, _)| name == "refs").unwrap().1;
    assert_eq!(
        *refs,
        TreeNode::Directory(vec![
            dir("heads", vec![file("dev", "ref: refs/heads/dev")]),
            dir("tags", vec![]),
        ])
    );
}

#[test]
fn starting_configuration_has_the_section_core() {
    let config = build_repo_config(true);
    assert_eq!(
        config,
        ConfigValue::Object(vec![(
            "core".to_string(),
            ConfigValue::Object(vec![(
                String::new(),
                ConfigValue::Object(vec![
                    ("bare".to_string(), ConfigValue::Bool(true)),
                    ("repositoryformatversion".to_string(), ConfigValue::Number(0)),
                    ("filemode".to_string(), ConfigValue::Bool(true)),
                    ("logallrefupdates".to_string(), ConfigValue::Bool(true)),
                ]),
            )]),
        )])
    );
    assert_eq!(
        obj_to_str(&config).unwrap(),
        "[core]\n  bare = true\n  repositoryformatversion = 0\n  filemode = true\n  logallrefupdates = true\n"
    );
}
