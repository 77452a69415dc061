use cs_01::modules::files::{
    cs01_path, in_repo, is_space_char, repo_kind, starts_with_core_marker, DirProbe, RepoKind,
    RepoRoot, WriteOptions,
};

fn plain() -> DirProbe {
    DirProbe {
        config: None,
        has_metadata_dir: false,
    }
}

fn standard() -> DirProbe {
    DirProbe {
        config: None,
        has_metadata_dir: true,
    }
}

fn with_config(content: &str) -> DirProbe {
    DirProbe {
        config: Some(content.to_string()),
        has_metadata_dir: false,
    }
}

#[test]
fn test_cs01_path_no_repo() {
    // A fresh directory and its ancestors, none of which holds a repository.
    let levels = vec![plain(), plain(), plain()];
    assert!(cs01_path(&levels).is_none());
    assert!(!in_repo(&levels));
}

#[test]
fn test_cs01_path_deep_resolution() {
    // root/.cs01-root exists; the search starts at root/a/b/c.
    let levels = vec![plain(), plain(), plain(), standard(), plain()];
    let found = cs01_path(&levels);
    assert!(found.is_some());
    assert_eq!(
        found.unwrap(),
        RepoRoot {
            level: 3,
            kind: RepoKind::Standard
        }
    );
    assert!(in_repo(&levels));
}

#[test]
fn root_is_found_at_every_depth() {
    for depth in 0..12 {
        let mut levels = Vec::new();
        for _ in 0..depth {
            levels.push(plain());
        }
        levels.push(standard());
        levels.push(plain());
        let found = cs01_path(&levels).unwrap();
        assert_eq!(found.level, depth);
        assert_eq!(found.kind, RepoKind::Standard);
    }
}

#[test]
fn no_levels_no_repository() {
    let levels: Vec<DirProbe> = Vec::new();
    assert_eq!(cs01_path(&levels), None);
    assert!(!in_repo(&levels));
}

#[test]
fn nearest_root_wins() {
    let levels = vec![plain(), with_config("[core]\n"), standard()];
    assert_eq!(
        cs01_path(&levels),
        Some(RepoRoot {
            level: 1,
            kind: RepoKind::Bare
        })
    );
}

#[test]
fn bare_marker_is_tested_before_metadata_directory() {
    let both = DirProbe {
        config: Some("[core]\n  bare = true\n".to_string()),
        has_metadata_dir: true,
    };
    assert_eq!(repo_kind(&both), Some(RepoKind::Bare));
    let other_config = DirProbe {
        config: Some("[user]\n".to_string()),
        has_metadata_dir: true,
    };
    assert_eq!(repo_kind(&other_config), Some(RepoKind::Standard));
    assert_eq!(repo_kind(&with_config("[user]\n")), None);
    assert_eq!(repo_kind(&plain()), None);
    assert_eq!(repo_kind(&standard()), Some(RepoKind::Standard));
}

#[test]
fn marker_is_sought_after_trimming() {
    assert!(starts_with_core_marker("[core]"));
    assert!(starts_with_core_marker("[core]\n  bare = false\n"));
    assert!(starts_with_core_marker("  \n\t[core]  \n"));
    assert!(starts_with_core_marker("\u{3000}\u{a0}[core]x"));
    assert!(!starts_with_core_marker(""));
    assert!(!starts_with_core_marker("   "));
    assert!(!starts_with_core_marker("[core"));
    assert!(!starts_with_core_marker("[Core]"));
    assert!(!starts_with_core_marker("x[core]"));
    assert!(!starts_with_core_marker("\u{200b}[core]"));
    assert!(!starts_with_core_marker("[ core]"));
    assert!(!starts_with_core_marker("# comment\n[core]\n"));
}

#[test]
fn marker_test_agrees_with_trim_and_starts_with() {
    let samples = [
        "",
        " ",
        "[core]",
        " [core]",
        "[core] ",
        "\r\n[core]\r\n",
        "\u{85}[core]",
        "\u{1680}\u{2000}\u{200a}\u{2028}\u{2029}\u{202f}\u{205f}[core]",
        "\u{180e}[core]",
        "[cor",
        "[core",
        "[corex",
        "  [cor  ",
        "é[core]",
    ];
    for sample in samples {
        assert_eq!(
            starts_with_core_marker(sample),
            sample.trim().starts_with("[core]"),
            "{:?}",
            sample
        );
    }
}

#[test]
fn white_space_is_what_the_standard_library_calls_so() {
    let mut code: u32 = 0;
    while code <= 0x3100 {
        if let Some(c) = char::from_u32(code) {
            assert_eq!(is_space_char(c), c.is_whitespace(), "{:x}", code);
        }
        code += 1;
    }
    assert!(!is_space_char('\u{10ffff}'));
    assert!(!is_space_char('\u{feff}'));
}

#[test]
fn default_options_overwrite_and_are_no_dry_run() {
    let options = WriteOptions::default();
    assert_eq!(options.dir_perms, 0o755);
    assert!(options.overwrite);
    assert!(!options.dry_run);
}
