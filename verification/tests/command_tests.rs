use cs_01::commands::init::{init, init_message, is_reinit, InitTarget};
use cs_01::modules::files::{cs01_path, DirProbe};
use cs_01::modules::writer::{write_action, write_steps, StepKind, WriteAction};
use std::collections::BTreeMap;

/// A pretended disk: each path that exists, with the content of a file or
/// `None` for a directory.
type Disk = BTreeMap<Vec<String>, Option<String>>;

fn path(names: &[&str]) -> Vec<String> {
    names.iter().map(|name| name.to_string()).collect()
}

fn join(base: &[String], names: &[&str]) -> Vec<String> {
    let mut joined = base.to_vec();
    joined.extend(names.iter().map(|name| name.to_string()));
    joined
}

fn show(path: &[String]) -> String {
    format!("/{}", path.join("/"))
}

fn make_dirs(disk: &mut Disk, path: &[String]) {
    for n in 0..=path.len() {
        disk.entry(path[..n].to_vec()).or_insert(None);
    }
}

fn probe(disk: &Disk, dir: &[String]) -> DirProbe {
    DirProbe {
        config: disk.get(&join(dir, &["config"])).cloned().flatten(),
        has_metadata_dir: disk.get(&join(dir, &[".cs01-root"])) == Some(&None),
    }
}

/// The root of the repository that holds `start`, found on the way up.
fn locate(disk: &Disk, start: &[String]) -> Option<Vec<String>> {
    let mut levels = Vec::new();
    for n in (0..=start.len()).rev() {
        levels.push(probe(disk, &start[..n]));
    }
    cs01_path(&levels).map(|root| start[..start.len() - root.level].to_vec())
}

/// Does on the pretended disk what the command does on a real one, and
/// returns its message or the words of its error.
fn run_init(disk: &mut Disk, bare: bool, branch: &str, at: &[String]) -> Result<String, String> {
    let mut target = InitTarget {
        exists: disk.contains_key(at),
        head_exists: bare && disk.contains_key(&join(at, &["HEAD"])),
        objects_exists: bare && disk.contains_key(&join(at, &["objects"])),
        metadata_dir_exists: !bare && disk.contains_key(&join(at, &[".cs01-root"])),
        root: show(at),
        enclosing: None,
    };
    if !is_reinit(bare, &target) {
        target.enclosing = locate(disk, at).map(|root| show(&root));
    }
    let plan = init(bare, branch, &target).map_err(|error| error.message())?;
    if plan.create_target {
        make_dirs(disk, at);
    }
    for step in write_steps(&plan.tree) {
        let mut full = at.to_vec();
        full.extend(step.path.iter().cloned());
        let exists = disk.contains_key(&full);
        match (write_action(&step.kind, exists, &plan.options), &step.kind) {
            (WriteAction::CreateDir, _) => make_dirs(disk, &full),
            (WriteAction::WriteFile, StepKind::File(content)) => {
                make_dirs(disk, &full[..full.len() - 1]);
                disk.insert(full, Some(content.clone()));
            }
            _ => {}
        }
    }
    Ok(init_message(bare, plan.reinit, &show(at)))
}

fn content<'a>(disk: &'a Disk, at: &[String], names: &[&str]) -> &'a str {
    disk[&join(at, names)].as_deref().unwrap()
}

fn is_dir(disk: &Disk, at: &[String], names: &[&str]) -> bool {
    disk.get(&join(at, names)) == Some(&None)
}

#[test]
fn test_init_command() {
    let root = path(&["tmp", "work"]);
    let mut disk = Disk::new();
    let result = run_init(&mut disk, false, "main", &root);
    assert!(result.is_ok(), "Command failed: {:?}", result);

    assert!(disk.contains_key(&join(&root, &[".cs01-root"])));
    assert!(is_dir(&disk, &root, &[".cs01-root"]));

    assert!(disk.contains_key(&join(&root, &[".cs01-root", "config"])));
    assert!(content(&disk, &root, &[".cs01-root", "config"]).contains("bare = false"));

    assert!(disk.contains_key(&join(&root, &[".cs01-root", "HEAD"])));
    assert!(content(&disk, &root, &[".cs01-root", "HEAD"]).contains("ref: refs/heads/main"));

    assert!(disk.contains_key(&join(&root, &[".cs01-root", "description"])));
    assert!(content(&disk, &root, &[".cs01-root", "description"]).contains("Unnamed repository"));

    assert!(disk.contains_key(&join(&root, &[".cs01-root", "hooks"])));
    assert!(disk.contains_key(&join(&root, &[".cs01-root", "hooks", "pre-commit.sample"])));

    assert!(disk.contains_key(&join(&root, &[".cs01-root", "info", "exclude"])));
    assert!(content(&disk, &root, &[".cs01-root", "info", "exclude"])
        .contains("# cs01 ls-files --others --exclude-from=.cs01/info/exclude"));

    assert!(disk.contains_key(&join(&root, &[".cs01-root", "objects", "info"])));
    assert!(disk.contains_key(&join(&root, &[".cs01-root", "objects", "pack"])));

    assert!(disk.contains_key(&join(&root, &[".cs01-root", "refs", "tags"])));
}

#[test]
fn test_init_command_with_path() {
    let root = path(&["tmp", "work"]);
    let target_dir = join(&root, &["my-new-repo"]);
    let mut disk = Disk::new();
    make_dirs(&mut disk, &root);
    let result = run_init(&mut disk, false, "main", &target_dir);
    assert!(result.is_ok(), "Command failed: {:?}", result);

    assert!(disk.contains_key(&join(&target_dir, &[".cs01-root"])));
    assert!(is_dir(&disk, &target_dir, &[".cs01-root"]));

    let config_content = content(&disk, &target_dir, &[".cs01-root", "config"]);
    assert!(config_content.contains("bare = false"));
    assert!(config_content.contains("filemode = true"));
    assert!(config_content.contains("logallrefupdates = true"));
}

#[test]
fn test_reinit_command() {
    let root = path(&["tmp", "work"]);
    let mut disk = Disk::new();
    run_init(&mut disk, false, "main", &root).unwrap();
    let complete = disk.clone();

    let config_path = join(&root, &[".cs01-root", "config"]);
    disk.remove(&config_path);
    assert!(!disk.contains_key(&config_path));

    let stdout = run_init(&mut disk, false, "main", &root).unwrap();
    assert!(stdout.contains("Reinitialized existing standard CS01 repository"));

    assert!(disk.contains_key(&config_path));
    assert_eq!(disk, complete);
}

#[test]
fn test_init_bare_command() {
    let root = path(&["tmp", "work"]);
    let mut disk = Disk::new();
    let result = run_init(&mut disk, true, "main", &root);
    assert!(result.is_ok(), "Command failed: {:?}", result);

    assert!(disk.contains_key(&join(&root, &["config"])));
    assert!(content(&disk, &root, &["config"]).contains("bare = true"));
}

#[test]
fn test_init_nested_repo_protection() {
    let root = path(&["tmp", "work"]);
    let mut disk = Disk::new();
    run_init(&mut disk, false, "main", &root).expect("Failed to init outer repo");

    let inner_dir = join(&root, &["inner"]);
    make_dirs(&mut disk, &inner_dir);
    let before = disk.clone();
    let output = run_init(&mut disk, false, "main", &inner_dir);

    assert!(output.is_err());
    let stderr = output.unwrap_err();
    assert!(stderr.contains("Refusing to create nested repository"));
    assert_eq!(stderr, "Refusing to create nested repository inside /tmp/work");

    assert!(!disk.contains_key(&join(&inner_dir, &[".cs01-root"])));
    assert_eq!(disk, before);
}

#[test]
fn test_init_absolute_path() {
    let root = path(&["tmp", "work"]);
    let target = join(&root, &["abs_repo"]);
    let mut disk = Disk::new();
    make_dirs(&mut disk, &root);
    let result = run_init(&mut disk, false, "main", &target);
    assert!(result.is_ok());
    assert!(disk.contains_key(&join(&target, &[".cs01-root"])));
}

#[test]
fn nesting_is_refused_at_any_depth_and_inside_a_bare_repository() {
    let root = path(&["srv", "repo"]);
    let mut disk = Disk::new();
    run_init(&mut disk, true, "main", &root).unwrap();
    let deep = join(&root, &["a", "b", "c", "d"]);
    make_dirs(&mut disk, &deep);
    let before = disk.clone();
    for bare in [false, true] {
        assert_eq!(
            run_init(&mut disk, bare, "main", &deep),
            Err("Refusing to create nested repository inside /srv/repo".to_string())
        );
        assert_eq!(disk, before);
    }
}

#[test]
fn second_init_changes_nothing() {
    let root = path(&["tmp", "work"]);
    for bare in [false, true] {
        let mut disk = Disk::new();
        let first = run_init(&mut disk, bare, "main", &root).unwrap();
        assert!(first.starts_with("Initialized empty"));
        let once = disk.clone();
        let second = run_init(&mut disk, bare, "other", &root).unwrap();
        assert!(second.starts_with("Reinitialized existing"));
        // Only the reference of the new branch is added.
        let heads = if bare {
            join(&root, &["refs", "heads", "other"])
        } else {
            join(&root, &[".cs01-root", "refs", "heads", "other"])
        };
        assert_eq!(disk[&heads], Some("ref: refs/heads/other".to_string()));
        disk.remove(&heads);
        assert_eq!(disk, once);
        let again = disk.clone();
        run_init(&mut disk, bare, "main", &root).unwrap();
        assert_eq!(disk, again);
    }
}

#[test]
fn refused_init_leaves_a_missing_target_missing() {
    let root = path(&["tmp", "work"]);
    let mut disk = Disk::new();
    run_init(&mut disk, false, "main", &root).unwrap();
    let before = disk.clone();

    let target = join(&root, &["a", "b"]);
    for bare in [false, true] {
        let output = run_init(&mut disk, bare, "main", &target);
        assert_eq!(
            output,
            Err("Refusing to create nested repository inside /tmp/work".to_string())
        );
        assert!(!disk.contains_key(&target));
        assert!(!disk.contains_key(&join(&root, &["a"])));
        assert_eq!(disk, before);
    }
}

#[test]
fn missing_target_outside_any_repository_is_created() {
    let target = path(&["tmp", "fresh", "repo"]);
    let mut disk = Disk::new();
    make_dirs(&mut disk, &path(&["tmp"]));
    let message = run_init(&mut disk, false, "main", &target).unwrap();
    assert_eq!(
        message,
        "Initialized empty standard CS01 repository in /tmp/fresh/repo"
    );
    assert!(is_dir(&disk, &target, &[]));
    assert!(disk.contains_key(&join(&target, &[".cs01-root", "HEAD"])));
}
