use openmem::cli::{command_of, Cli, Commands, HippocampusCommands, IndexCommands, ParsedArgs, TagsCommands};
use std::path::PathBuf;

// ==========================================
// CLI parsing tests
// ==========================================

#[test]
fn parse_read_command() {
    let cli = Cli::try_parse_from(["openmem", "read", "global/user-prefs"]).unwrap();
    assert!(matches!(cli.command, Commands::Read { path } if path == "global/user-prefs"));
    assert!(cli.vault.is_none());
}

#[test]
fn parse_write_command() {
    let cli = Cli::try_parse_from(["openmem", "write", "global/user-prefs"]).unwrap();
    assert!(matches!(cli.command, Commands::Write { path } if path == "global/user-prefs"));
}

#[test]
fn parse_list_command_with_path() {
    let cli = Cli::try_parse_from(["openmem", "list", "projects"]).unwrap();
    assert!(
        matches!(cli.command, Commands::List { path, .. } if path == Some("projects".to_string()))
    );
}

#[test]
fn parse_list_command_without_path() {
    let cli = Cli::try_parse_from(["openmem", "list"]).unwrap();
    assert!(matches!(cli.command, Commands::List { path, .. } if path.is_none()));
}

#[test]
fn parse_links_command() {
    let cli = Cli::try_parse_from(["openmem", "links", "projects/acme"]).unwrap();
    assert!(matches!(cli.command, Commands::Links { path } if path == "projects/acme"));
}

#[test]
fn parse_delete_command() {
    let cli = Cli::try_parse_from(["openmem", "delete", "temp/old"]).unwrap();
    assert!(matches!(cli.command, Commands::Delete { path } if path == "temp/old"));
}

#[test]
fn parse_log_command() {
    let cli = Cli::try_parse_from(["openmem", "log"]).unwrap();
    assert!(matches!(cli.command, Commands::Log { path } if path.is_none()));
}

#[test]
fn parse_init_command() {
    let cli = Cli::try_parse_from(["openmem", "init"]).unwrap();
    assert!(matches!(cli.command, Commands::Init));
}

#[test]
fn parse_vault_flag() {
    let cli = Cli::try_parse_from(["openmem", "--vault", "/custom/path", "read", "test"]).unwrap();
    assert_eq!(cli.vault, Some(PathBuf::from("/custom/path")));
}

#[test]
fn parse_missing_required_arg_fails() {
    // "read" requires a path argument
    let result = Cli::try_parse_from(["openmem", "read"]);
    assert!(result.is_err());
}

#[test]
fn parse_outline_command() {
    let cli = Cli::try_parse_from(["openmem", "outline", "global/user-prefs"]).unwrap();
    assert!(matches!(cli.command, Commands::Outline { path } if path == "global/user-prefs"));
}

#[test]
fn parse_read_with_hash_path() {
    let cli = Cli::try_parse_from(["openmem", "read", "global/user-prefs#Stack"]).unwrap();
    assert!(
        matches!(cli.command, Commands::Read { path } if path == "global/user-prefs#Stack")
    );
}

#[test]
fn parse_survey_command() {
    let cli = Cli::try_parse_from(["openmem", "survey"]).unwrap();
    assert!(matches!(cli.command, Commands::Survey { scope } if scope.is_none()));
}

#[test]
fn parse_survey_command_with_scope() {
    let cli = Cli::try_parse_from(["openmem", "survey", "projects"]).unwrap();
    assert!(
        matches!(cli.command, Commands::Survey { scope } if scope == Some("projects".to_string()))
    );
}

#[test]
fn parse_hippocampus_extract_no_session() {
    let cli = Cli::try_parse_from(["openmem", "hippocampus", "extract"]).unwrap();
    assert!(matches!(
        cli.command,
        Commands::Hippocampus { command: HippocampusCommands::Extract { session } } if session.is_none()
    ));
}

#[test]
fn parse_hippocampus_extract_with_session() {
    let cli = Cli::try_parse_from(["openmem", "hippocampus", "extract", "session.txt"]).unwrap();
    assert!(matches!(
        cli.command,
        Commands::Hippocampus { command: HippocampusCommands::Extract { session } } if session == Some("session.txt".to_string())
    ));
}

#[test]
fn parse_search_command() {
    let cli = Cli::try_parse_from(["openmem", "search", "query"]).unwrap();
    assert!(matches!(cli.command, Commands::Search { query, .. } if query == "query"));
}

#[test]
fn parse_search_with_options() {
    let cli = Cli::try_parse_from(["openmem", "search", "test", "-s", "projects", "-n", "10", "-c", "-E"]).unwrap();
    match cli.command {
        Commands::Search { query, scope, max, case_sensitive, regex } => {
            assert_eq!(query, "test");
            assert_eq!(scope, Some("projects".to_string()));
            assert_eq!(max, 10);
            assert!(case_sensitive);
            assert!(regex);
        }
        _ => panic!("Expected Search command"),
    }
}

#[test]
fn parse_tags_list() {
    let cli = Cli::try_parse_from(["openmem", "tags", "list"]).unwrap();
    assert!(matches!(
        cli.command,
        Commands::Tags { command: TagsCommands::List { scope } } if scope.is_none()
    ));
}

#[test]
fn parse_tags_find() {
    let cli = Cli::try_parse_from(["openmem", "tags", "find", "rust"]).unwrap();
    assert!(matches!(
        cli.command,
        Commands::Tags { command: TagsCommands::Find { tag } } if tag == "rust"
    ));
}

#[test]
fn parse_tags_show() {
    let cli = Cli::try_parse_from(["openmem", "tags", "show", "global/prefs"]).unwrap();
    assert!(matches!(
        cli.command,
        Commands::Tags { command: TagsCommands::Show { path } } if path == "global/prefs"
    ));
}

#[test]
fn parse_index_update() {
    let cli = Cli::try_parse_from(["openmem", "index", "update"]).unwrap();
    assert!(matches!(
        cli.command,
        Commands::Index { command: IndexCommands::Update }
    ));
}

#[test]
fn parse_index_show() {
    let cli = Cli::try_parse_from(["openmem", "index", "show"]).unwrap();
    assert!(matches!(
        cli.command,
        Commands::Index { command: IndexCommands::Show }
    ));
}

#[test]
fn parse_stats_command() {
    let cli = Cli::try_parse_from(["openmem", "stats"]).unwrap();
    assert!(matches!(cli.command, Commands::Stats { path } if path.is_none()));
}

#[test]
fn parse_stats_with_path() {
    let cli = Cli::try_parse_from(["openmem", "stats", "projects"]).unwrap();
    assert!(matches!(cli.command, Commands::Stats { path } if path == Some("projects".to_string())));
}

#[test]
fn parse_list_with_sizes() {
    let cli = Cli::try_parse_from(["openmem", "list", "--sizes"]).unwrap();
    match cli.command {
        Commands::List { path, sizes } => {
            assert!(path.is_none());
            assert!(sizes);
        }
        _ => panic!("Expected List command"),
    }
}

// ==========================================
// More command lines
// ==========================================

#[test]
fn parse_search_defaults() {
    let cli = Cli::try_parse_from(["openmem", "search", "apple"]).unwrap();
    match cli.command {
        Commands::Search { query, scope, max, case_sensitive, regex } => {
            assert_eq!(query, "apple");
            assert!(scope.is_none());
            assert_eq!(max, 20);
            assert!(!case_sensitive);
            assert!(!regex);
        }
        _ => panic!("Expected Search command"),
    }
}

#[test]
fn parse_search_long_options() {
    let cli = Cli::try_parse_from([
        "openmem", "search", "x", "--scope", "global", "--max", "3", "--case-sensitive", "--regex",
    ])
    .unwrap();
    match cli.command {
        Commands::Search { scope, max, case_sensitive, regex, .. } => {
            assert_eq!(scope, Some("global".to_string()));
            assert_eq!(max, 3);
            assert!(case_sensitive);
            assert!(regex);
        }
        _ => panic!("Expected Search command"),
    }
}

#[test]
fn parse_vault_flag_after_subcommand() {
    let cli = Cli::try_parse_from(["openmem", "read", "test", "--vault", "/v"]).unwrap();
    assert_eq!(cli.vault, Some(PathBuf::from("/v")));
}

#[test]
fn parse_bad_max_fails() {
    let err = Cli::try_parse_from(["openmem", "search", "x", "-n", "many"]).unwrap_err();
    assert!(err.message.contains("invalid digit found in string"));
    assert_eq!(err.exit_code, 2);
}

#[test]
fn parse_no_subcommand_fails() {
    assert!(Cli::try_parse_from(["openmem"]).is_err());
    assert!(Cli::try_parse_from(["openmem", "tags"]).is_err());
    assert!(Cli::try_parse_from(["openmem", "frobnicate"]).is_err());
}

#[test]
fn parse_help_is_not_an_error_exit() {
    let err = Cli::try_parse_from(["openmem", "--help"]).unwrap_err();
    assert_eq!(err.exit_code, 0);
    assert!(!err.use_stderr);
    assert!(err.message.contains("Universal agent memory system"));
}

fn parsed(command: &str, nested: Option<&str>) -> ParsedArgs {
    ParsedArgs {
        command: command.to_string(),
        nested: nested.map(|n| n.to_string()),
        path: None,
        scope: None,
        query: None,
        tag: None,
        session: None,
        max: None,
        sizes: false,
        case_sensitive: false,
        regex: false,
    }
}

#[test]
fn command_of_needs_required_values() {
    assert!(command_of(parsed("read", None)).is_none());
    let mut p = parsed("read", None);
    p.path = Some("x".to_string());
    assert!(matches!(command_of(p), Some(Commands::Read { path }) if path == "x"));
    assert!(command_of(parsed("search", None)).is_none());
    let mut s = parsed("search", None);
    s.query = Some("q".to_string());
    s.max = Some(3);
    s.regex = true;
    assert!(matches!(command_of(s), Some(Commands::Search { query, max: 3, regex: true, case_sensitive: false, scope: None }) if query == "q"));
    assert!(command_of(parsed("tags", Some("find"))).is_none());
    assert!(command_of(parsed("tags", None)).is_none());
    assert!(matches!(command_of(parsed("index", Some("show"))), Some(Commands::Index { command: IndexCommands::Show })));
    assert!(command_of(parsed("nope", None)).is_none());
}

#[test]
fn refusals_carry_stream_and_exit_code() {
    let help = Cli::try_parse_from(["openmem", "--help"]).unwrap_err();
    assert_eq!(help.exit_code, 0);
    assert!(!help.use_stderr);
    assert!(help.message.contains("Universal agent memory system"));
    let version = Cli::try_parse_from(["openmem", "--version"]).unwrap_err();
    assert_eq!(version.exit_code, 0);
    assert!(version.message.contains("0.1.0"));
    let unknown = Cli::try_parse_from(["openmem", "bogus"]).unwrap_err();
    assert_eq!(unknown.exit_code, 2);
    assert!(unknown.use_stderr);
}

#[test]
fn search_definition_defaults_and_shorts() {
    let cli = Cli::try_parse_from(["openmem", "search", "q"]).unwrap();
    assert!(matches!(cli.command, Commands::Search { max: 20, case_sensitive: false, regex: false, .. }));
    let cli = Cli::try_parse_from(["openmem", "search", "q", "-n", "5", "-c", "-E", "-s", "projects"]).unwrap();
    assert!(matches!(cli.command, Commands::Search { max: 5, case_sensitive: true, regex: true, scope: Some(s), .. } if s == "projects"));
    assert!(Cli::try_parse_from(["openmem", "search", "q", "-i"]).is_err());
}
