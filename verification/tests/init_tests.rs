use cs_01::commands::init::{
    folder_note, init, init_message, is_reinit, nested_warning, InitError, InitTarget,
};
use cs_01::modules::config::ConfigError;
use cs_01::modules::files::{TreeNode, WriteOptions};
use cs_01::modules::repo_structure::build_repo_tree;

fn fresh(root: &str, enclosing: Option<&str>) -> InitTarget {
    InitTarget {
        exists: true,
        head_exists: false,
        objects_exists: false,
        metadata_dir_exists: false,
        root: root.to_string(),
        enclosing: enclosing.map(|e| e.to_string()),
    }
}

fn find<'a>(tree: &'a TreeNode, names: &[&str]) -> Option<&'a TreeNode> {
    let mut node = tree;
    for name in names {
        match node {
            TreeNode::Directory(children) => {
                node = &children.iter().find(|(n, _)| n == name)?.1;
            }
            TreeNode::File(_) => return None,
        }
    }
    Some(node)
}

#[test]
fn test_init_standard() {
    let result = init(false, "main", &fresh("/tmp/repo", None));
    assert!(result.is_ok());
    let plan = result.unwrap();
    assert!(find(&plan.tree, &[".cs01-root"]).is_some(), ".cs01-root dir not found");
    assert!(
        find(&plan.tree, &[".cs01-root", "config"]).is_some(),
        "config not found"
    );
    let Some(TreeNode::File(head)) = find(&plan.tree, &[".cs01-root", "HEAD"]) else {
        panic!("HEAD not found");
    };
    assert!(head.contains("ref: refs/heads/main"));
    assert!(!plan.reinit);
}

#[test]
fn test_init_bare() {
    let result = init(true, "master", &fresh("/tmp/repo", None));
    assert!(result.is_ok());
    let plan = result.unwrap();
    assert!(find(&plan.tree, &["config"]).is_some());
    assert!(find(&plan.tree, &[".cs01-root"]).is_none());
    let Some(TreeNode::File(head)) = find(&plan.tree, &["HEAD"]) else {
        panic!("HEAD not found");
    };
    assert!(head.contains("ref: refs/heads/master"));
}

#[test]
fn test_init_already_exists() {
    let mut target = fresh("/tmp/repo", Some("/tmp/repo"));
    target.metadata_dir_exists = true;
    let result = init(false, "other", &target);
    assert!(result.is_ok());
    let plan = result.unwrap();
    assert!(plan.reinit);
    assert!(!plan.options.overwrite, "Should not modify existing repo");
    assert!(!plan.options.dry_run);
}

#[test]
fn plan_writes_the_new_tree_without_overwriting() {
    let plan = init(false, "main", &fresh("/tmp/repo", None)).unwrap();
    assert_eq!(plan.tree, build_repo_tree(false, "main").unwrap());
    assert_eq!(
        plan.options,
        WriteOptions {
            dir_perms: 0o755,
            overwrite: false,
            dry_run: false
        }
    );
}

#[test]
fn fresh_directory_inside_a_repository_is_refused() {
    let result = init(false, "main", &fresh("/tmp/outer/inner", Some("/tmp/outer")));
    match result {
        Err(InitError::NestedRepository(root)) => assert_eq!(root, "/tmp/outer"),
        _ => panic!("expected a refusal"),
    }
    let error = init(true, "main", &fresh("/tmp/outer/inner", Some("/tmp/outer"))).unwrap_err();
    assert_eq!(
        error.message(),
        "Refusing to create nested repository inside /tmp/outer"
    );
}

#[test]
fn enclosing_root_that_is_the_target_is_no_nesting() {
    // A bare repository whose only sign is its config file.
    let result = init(true, "main", &fresh("/tmp/repo", Some("/tmp/repo")));
    assert!(result.is_ok());
    assert!(!result.unwrap().reinit);
}

#[test]
fn repair_is_never_refused() {
    let mut target = fresh("/tmp/outer/inner", Some("/tmp/outer"));
    target.metadata_dir_exists = true;
    assert!(init(false, "main", &target).is_ok());
    let mut target = fresh("/tmp/outer/inner", Some("/tmp/outer"));
    target.head_exists = true;
    assert!(init(true, "main", &target).is_ok());
    let mut target = fresh("/tmp/outer/inner", Some("/tmp/outer"));
    target.objects_exists = true;
    assert!(init(true, "main", &target).is_ok());
}

#[test]
fn each_kind_has_its_own_sign_of_a_repository() {
    let mut target = fresh("/r", None);
    assert!(!is_reinit(true, &target));
    assert!(!is_reinit(false, &target));
    target.metadata_dir_exists = true;
    assert!(!is_reinit(true, &target));
    assert!(is_reinit(false, &target));
    target.metadata_dir_exists = false;
    target.head_exists = true;
    assert!(is_reinit(true, &target));
    assert!(!is_reinit(false, &target));
    target.head_exists = false;
    target.objects_exists = true;
    assert!(is_reinit(true, &target));
    assert!(!is_reinit(false, &target));
    // The metadata directory is no sign of a bare repository.
    let mut target = fresh("/outer/inner", Some("/outer"));
    target.metadata_dir_exists = true;
    assert!(matches!(
        init(true, "main", &target),
        Err(InitError::NestedRepository(_))
    ));
}

#[test]
fn messages_tell_new_from_repaired_and_bare_from_standard() {
    assert_eq!(
        init_message(false, false, "/tmp/repo"),
        "Initialized empty standard CS01 repository in /tmp/repo"
    );
    assert_eq!(
        init_message(true, false, "/tmp/repo"),
        "Initialized empty bare CS01 repository in /tmp/repo"
    );
    assert_eq!(
        init_message(false, true, "/tmp/repo"),
        "Reinitialized existing standard CS01 repository in /tmp/repo"
    );
    assert_eq!(
        init_message(true, true, "/tmp/repo"),
        "Reinitialized existing bare CS01 repository in /tmp/repo"
    );
    assert_eq!(folder_note(false), " (with .cs01-root directory)");
    assert_eq!(folder_note(true), "");
}

#[test]
fn warning_names_the_enclosing_root() {
    assert_eq!(
        nested_warning("/tmp/outer"),
        "Warning: You are attempting to initialize a repository inside an existing one at /tmp/outer."
    );
}

#[test]
fn configuration_errors_keep_their_words() {
    let error = InitError::Config(ConfigError::InvalidConfig);
    assert_eq!(
        error.message(),
        "Invalid configObj: Must be a non-empty object."
    );
}

#[test]
fn missing_target_is_created_only_by_a_plan() {
    let mut target = fresh("/tmp/new", None);
    target.exists = false;
    let plan = init(false, "main", &target).unwrap();
    assert!(plan.create_target);
    assert!(!plan.reinit);

    let plan = init(false, "main", &fresh("/tmp/there", None)).unwrap();
    assert!(!plan.create_target);
}

#[test]
fn missing_target_inside_a_repository_is_refused() {
    let mut target = fresh("/tmp/outer/a/b", Some("/tmp/outer"));
    target.exists = false;
    for bare in [false, true] {
        match init(bare, "main", &target) {
            Err(InitError::NestedRepository(root)) => assert_eq!(root, "/tmp/outer"),
            _ => panic!("expected a refusal"),
        }
    }
    // Whatever its text, a target that does not exist is not the root found.
    let mut target = fresh("/tmp/outer", Some("/tmp/outer"));
    target.exists = false;
    assert!(matches!(
        init(false, "main", &target),
        Err(InitError::NestedRepository(_))
    ));
}
