//! Initialising a repository: whether the target is repaired or new, whether
//! it would lie inside another repository, and what is then written.

use vstd::prelude::*;
use vstd::string::StringExecFns;
use crate::modules::config::{ConfigError, ConfigFault};
use crate::modules::files::{TreeNode, WriteOptions};
use crate::modules::repo_structure::{build_repo_tree, repo_tree};

verus! {

/// What was found at the target directory before anything is written.
#[derive(Debug, PartialEq, Eq)]
pub struct InitTarget {
    /// Whether the target directory exists.
    pub exists: bool,
    /// Whether `HEAD` exists in it.
    pub head_exists: bool,
    /// Whether `objects` exists in it.
    pub objects_exists: bool,
    /// Whether `.cs01-root` exists in it.
    pub metadata_dir_exists: bool,
    /// The canonical path of the target directory, where it exists; else
    /// the path as it was given.
    pub root: String,
    /// The canonical path of the root of the repository that was found on
    /// the way up from the target, if there is one.
    pub enclosing: Option<String>,
}

/// Why a repository is not initialised.
#[derive(Debug, PartialEq, Eq)]
pub enum InitError {
    /// The target lies inside the repository with this root.
    NestedRepository(String),
    /// The configuration has no text form.
    Config(ConfigError),
}

/// The mathematical value of an `InitError`.
pub enum InitFault {
    NestedRepository(Seq<char>),
    Config(ConfigFault),
}

impl View for InitError {
    type V = InitFault;

    open spec fn view(&self) -> InitFault {
        match self {
            InitError::NestedRepository(root) => InitFault::NestedRepository(root@),
            InitError::Config(error) => InitFault::Config(error@),
        }
    }
}

/// What an initialisation writes, and how.
#[derive(Debug, PartialEq, Eq)]
pub struct InitPlan {
    /// Whether the target directory has to be created before the tree is
    /// written: it does where it does not exist yet.
    pub create_target: bool,
    /// The tree that is laid onto the target directory.
    pub tree: TreeNode,
    /// How it is written: nothing that exists is replaced.
    pub options: WriteOptions,
    /// Whether a repository was there already.
    pub reinit: bool,
}

impl InitTarget {
    /// Whether a repository of the given kind is there already: a bare one
    /// shows by `HEAD` or `objects`, any other by `.cs01-root`.
    pub open spec fn reinit(self, bare: bool) -> bool {
        if bare {
            self.head_exists || self.objects_exists
        } else {
            self.metadata_dir_exists
        }
    }

    /// Whether a new repository at the target would lie inside another one:
    /// none is there yet, and the way up leads to a root that is not the
    /// target itself. A target that does not exist is never the root that
    /// was found.
    pub open spec fn nested(self, bare: bool) -> bool {
        &&& !self.reinit(bare)
        &&& self.enclosing is Some
        &&& !self.exists || self.enclosing->Some_0@ != self.root@
    }
}

/// Whether a repository of the given kind is there already.
pub fn is_reinit(bare: bool, target: &InitTarget) -> (reinit: bool)
    ensures
        reinit == target.reinit(bare),
{
    if bare {
        target.head_exists || target.objects_exists
    } else {
        target.metadata_dir_exists
    }
}

/// Plans the initialisation of a repository at the target.
///
/// Fails where the target holds no repository yet and lies inside another
/// one; nothing is planned then, so that nothing is created, not even the
/// target directory. Else the plan says whether the target directory is to
/// be created and holds the tree of a new repository, to be written without
/// replacing anything that exists, so that a repository that is there
/// already only gets back what it lacks.
pub fn init(bare: bool, initial_branch: &str, target: &InitTarget) -> (r: Result<
    InitPlan,
    InitError,
>)
    ensures
        match r {
            Ok(plan) => {
                &&& !target.nested(bare)
                &&& plan.reinit == target.reinit(bare)
                &&& plan.create_target == !target.exists
                &&& plan.tree@ == repo_tree(bare, initial_branch@)
                &&& plan.tree@.well_formed()
                &&& plan.options.dir_perms == 0o755
                &&& !plan.options.overwrite
                &&& !plan.options.dry_run
            },
            Err(error) => {
                &&& target.nested(bare)
                &&& error@ == InitFault::NestedRepository(target.enclosing->Some_0@)
            },
        },
{
    let reinit = is_reinit(bare, target);
    if !reinit {
        match &target.enclosing {
            Some(existing) => {
                if !target.exists || *existing != target.root {
                    return Err(InitError::NestedRepository(existing.clone()));
                }
            },
            None => {},
        }
    }
    match build_repo_tree(bare, initial_branch) {
        Ok(tree) => Ok(
            InitPlan {
                create_target: !target.exists,
                tree,
                options: WriteOptions { dir_perms: 0o755, overwrite: false, dry_run: false },
                reinit,
            },
        ),
        Err(error) => Err(InitError::Config(error)),
    }
}

/// The message of a finished initialisation.
pub open spec fn init_message_text(bare: bool, reinit: bool, path: Seq<char>) -> Seq<char> {
    (if reinit {
        "Reinitialized existing "@
    } else {
        "Initialized empty "@
    }) + (if bare {
        "bare"@
    } else {
        "standard"@
    }) + " CS01 repository in "@ + path
}

/// The message of a finished initialisation: whether the repository was new
/// or there already, its kind, and its path.
pub fn init_message(bare: bool, reinit: bool, path: &str) -> (message: String)
    ensures
        message@ == init_message_text(bare, reinit, path@),
{
    let mut message = if reinit {
        String::from_str("Reinitialized existing ")
    } else {
        String::from_str("Initialized empty ")
    };
    if bare {
        message.append("bare");
    } else {
        message.append("standard");
    }
    message.append(" CS01 repository in ");
    message.append(path);
    message
}

/// What follows the message where the metadata has a directory of its own;
/// nothing for a bare repository.
pub fn folder_note(bare: bool) -> (note: String)
    ensures
        note@ == (if bare {
            Seq::<char>::empty()
        } else {
            " (with .cs01-root directory)"@
        }),
{
    if bare {
        String::new()
    } else {
        String::from_str(" (with .cs01-root directory)")
    }
}

/// The warning given before a nested repository is refused.
pub fn nested_warning(root: &str) -> (warning: String)
    ensures
        warning@
            == "Warning: You are attempting to initialize a repository inside an existing one at "@
            + root@ + "."@,
{
    let mut warning = String::from_str(
        "Warning: You are attempting to initialize a repository inside an existing one at ",
    );
    warning.append(root);
    warning.append(".");
    warning
}

impl InitFault {
    /// The words that describe the fault.
    pub open spec fn message(self) -> Seq<char> {
        match self {
            InitFault::NestedRepository(root) => "Refusing to create nested repository inside "@
                + root,
            InitFault::Config(fault) => fault.message(),
        }
    }
}

impl InitError {
    /// The words that describe the error.
    pub fn message(&self) -> (text: String)
        ensures
            text@ == self@.message(),
    {
        match self {
            InitError::NestedRepository(root) => {
                let mut text = String::from_str("Refusing to create nested repository inside ");
                text.append(root.as_str());
                text
            },
            InitError::Config(error) => error.message(),
        }
    }
}

/// A directory without any sign of a repository, below the root of a
/// repository that is not the directory itself, would hold a nested
/// repository, whatever the kind asked for: `init` refuses it and plans
/// nothing to write.
pub proof fn lemma_fresh_subdirectory_is_nested(bare: bool, target: InitTarget)
    requires
        !target.head_exists && !target.objects_exists && !target.metadata_dir_exists,
        target.enclosing is Some,
        !target.exists || target.enclosing->Some_0@ != target.root@,
    ensures
        target.nested(bare),
{
}

} // verus!
