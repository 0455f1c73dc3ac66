use tcloc::cli::{Cli, CliError};
use tcloc::path::FilePath;
use tcloc::scanner::VcsMode;

fn cli() -> Cli {
    Cli {
        path: FilePath::from_text("."),
        vcs: None,
        threads: None,
        max_file_size: 100,
        exclude_dir: vec![],
        include_dir: vec![],
        exclude_ext: vec![],
        include_ext: vec![],
        exclude_lang: vec![],
        include_lang: vec![],
        follow_links: false,
        hidden: false,
        no_ignore: false,
        watch: false,
        bench: false,
        auto_exit_ms: None,
    }
}

#[test]
fn only_git_is_supported() {
    assert!(matches!(cli().vcs_mode(), Ok(VcsMode::Walk)));
    for v in ["git", "Git", "GIT"] {
        let c = Cli { vcs: Some(v.to_string()), ..cli() };
        assert!(matches!(c.vcs_mode(), Ok(VcsMode::Git)));
    }
    for v in ["hg", "", "git "] {
        let c = Cli { vcs: Some(v.to_string()), ..cli() };
        match c.vcs_mode() {
            Err(CliError::UnsupportedVcs(s)) => assert_eq!(s, v),
            _ => panic!(),
        }
        assert!(c.scan_config(FilePath::from_text("/r"), None).is_err());
    }
    let e = CliError::UnsupportedVcs("hg".to_string());
    assert_eq!(e.message(), "unsupported --vcs: hg. only 'git' is supported");
}

#[test]
fn threads_default_to_what_there_is() {
    assert_eq!(cli().thread_count(Some(8)), 8);
    assert_eq!(cli().thread_count(None), 4);
    assert_eq!(Cli { threads: Some(3), ..cli() }.thread_count(Some(8)), 3);
    assert_eq!(Cli { threads: Some(0), ..cli() }.thread_count(Some(8)), 1);
}

#[test]
fn the_configuration_follows_the_flags() {
    let c = Cli {
        vcs: Some("git".to_string()),
        threads: Some(5),
        max_file_size: 2,
        exclude_dir: vec!["Target".to_string()],
        include_dir: vec!["Src".to_string()],
        exclude_ext: vec!["RS".to_string(), "é".to_string()],
        include_ext: vec!["Go".to_string()],
        exclude_lang: vec!["JSON".to_string()],
        include_lang: vec!["Rust".to_string()],
        follow_links: true,
        hidden: true,
        no_ignore: true,
        ..cli()
    };
    let s = c.scan_config(FilePath::from_text("/r"), None).unwrap();
    assert_eq!(s.root.display(), "/r");
    assert_eq!((s.vcs, s.threads, s.max_file_size), (VcsMode::Git, 5, 2 * 1024 * 1024));
    assert_eq!(s.exclude_dirs, ["Target"]);
    assert_eq!(s.include_dirs, ["Src"]);
    assert_eq!(s.exclude_exts, ["rs", "é"]);
    assert_eq!(s.include_exts, ["go"]);
    assert_eq!(s.exclude_langs, ["JSON"]);
    assert_eq!(s.include_langs, ["Rust"]);
    assert!(s.follow_links && s.hidden && s.no_ignore);
    let c = Cli { max_file_size: u64::MAX, ..cli() };
    assert_eq!(c.scan_config(FilePath::from_text("/r"), None).unwrap().max_file_size, u64::MAX);
}
