//! The command line: its commands and their arguments, parsed with clap.
use vstd::prelude::*;

use std::path::PathBuf;

use crate::command_line::{
    clap_matches, count_in, count_value, definition, flag_value, opt_text, parse_words, subcommand_names,
    openmem_cli, text_in, text_value, vault_path, CliError, MatchesView, Parsed,
};

verus! {

/// Openmem — universal agent memory system
#[derive(Debug)]
pub struct Cli {
    /// Vault root directory (overrides config and env var)
    pub vault: Option<PathBuf>,
    pub command: Commands,
}

#[derive(Debug)]
pub enum Commands {
    /// Read a node's content
    Read {
        /// Node path (e.g. global/user-prefs)
        path: String,
    },
    /// Write a node (reads content from stdin)
    Write {
        /// Node path (e.g. global/user-prefs)
        path: String,
    },
    /// List nodes under a path
    List {
        /// Path prefix to list under (default: all)
        path: Option<String>,
        /// Show size indicators
        sizes: bool,
    },
    /// Show outgoing links and backlinks for a node
    Links {
        /// Node path
        path: String,
    },
    /// Show heading outline of a node
    Outline {
        /// Node path
        path: String,
    },
    /// Delete a node
    Delete {
        /// Node path
        path: String,
    },
    /// Show change history
    Log {
        /// Optional node path to filter history
        path: Option<String>,
    },
    /// Initialize a new vault
    Init,
    /// Survey the vault for analysis
    Survey {
        /// Optional path prefix to limit survey scope
        scope: Option<String>,
    },
    /// Session memory extraction commands
    Hippocampus { command: HippocampusCommands },
    /// Search across all nodes
    Search {
        /// Search query (literal or regex with --regex flag)
        query: String,
        /// Limit search to nodes under this path prefix
        scope: Option<String>,
        /// Maximum number of results
        max: usize,
        /// Case-sensitive search
        case_sensitive: bool,
        /// Treat query as regex pattern
        regex: bool,
    },
    /// Tag operations
    Tags { command: TagsCommands },
    /// Memory index operations
    Index { command: IndexCommands },
    /// Show vault statistics
    Stats {
        /// Optional path prefix
        path: Option<String>,
    },
}

#[derive(Debug)]
pub enum TagsCommands {
    /// List all tags in the vault
    List {
        /// Limit to nodes under this path prefix
        scope: Option<String>,
    },
    /// Find nodes with a specific tag
    Find {
        /// Tag to search for (with or without # prefix)
        tag: String,
    },
    /// Show tags for a specific node
    Show {
        /// Node path
        path: String,
    },
}

#[derive(Debug, PartialEq, Eq, Structural)]
pub enum IndexCommands {
    /// Generate or update the memory index
    Update,
    /// Show the current index
    Show,
}

#[derive(Debug)]
pub enum HippocampusCommands {
    /// Generate an extraction prompt from a session transcript
    Extract {
        /// Optional session file path (reads from stdin if not provided)
        session: Option<String>,
    },
}

/// What clap found on a command line, as plain values: the subcommand, its
/// own subcommand (for `tags`, `index` and `hippocampus`), and the values
/// of the arguments of the innermost one.
#[derive(Debug)]
pub struct ParsedArgs {
    pub command: String,
    pub nested: Option<String>,
    pub path: Option<String>,
    pub scope: Option<String>,
    pub query: Option<String>,
    pub tag: Option<String>,
    pub session: Option<String>,
    pub max: Option<usize>,
    pub sizes: bool,
    pub case_sensitive: bool,
    pub regex: bool,
}

/// The values of a parse, texts seen as character sequences.
pub struct ArgsView {
    pub command: Seq<char>,
    pub nested: Option<Seq<char>>,
    pub path: Option<Seq<char>>,
    pub scope: Option<Seq<char>>,
    pub query: Option<Seq<char>>,
    pub tag: Option<Seq<char>>,
    pub session: Option<Seq<char>>,
    pub max: Option<usize>,
    pub sizes: bool,
    pub case_sensitive: bool,
    pub regex: bool,
}

impl View for ParsedArgs {
    type V = ArgsView;

    open spec fn view(&self) -> ArgsView {
        ArgsView {
            command: self.command@,
            nested: opt_text(self.nested),
            path: opt_text(self.path),
            scope: opt_text(self.scope),
            query: opt_text(self.query),
            tag: opt_text(self.tag),
            session: opt_text(self.session),
            max: self.max,
            sizes: self.sizes,
            case_sensitive: self.case_sensitive,
            regex: self.regex,
        }
    }
}

/// The values clap found for the subcommand `name`.
pub open spec fn args_of(v: MatchesView, name: Seq<char>) -> ArgsView {
    ArgsView {
        command: name,
        nested: v.nested,
        path: text_in(v, "path"@),
        scope: text_in(v, "scope"@),
        query: text_in(v, "query"@),
        tag: text_in(v, "tag"@),
        session: text_in(v, "session"@),
        max: count_in(v, "max"@),
        sizes: v.flags.contains("sizes"@),
        case_sensitive: v.flags.contains("case_sensitive"@),
        regex: v.flags.contains("regex"@),
    }
}

/// A command with its arguments, texts seen as character sequences.
pub enum CommandView {
    Read(Seq<char>),
    Write(Seq<char>),
    List(Option<Seq<char>>, bool),
    Links(Seq<char>),
    Outline(Seq<char>),
    Delete(Seq<char>),
    Log(Option<Seq<char>>),
    Init,
    Survey(Option<Seq<char>>),
    Extract(Option<Seq<char>>),
    Search(Seq<char>, Option<Seq<char>>, usize, bool, bool),
    TagsList(Option<Seq<char>>),
    TagsFind(Seq<char>),
    TagsShow(Seq<char>),
    IndexUpdate,
    IndexShow,
    Stats(Option<Seq<char>>),
}

/// What a command says.
pub open spec fn command_view(c: Commands) -> CommandView {
    match c {
        Commands::Read { path } => CommandView::Read(path@),
        Commands::Write { path } => CommandView::Write(path@),
        Commands::List { path, sizes } => CommandView::List(opt_text(path), sizes),
        Commands::Links { path } => CommandView::Links(path@),
        Commands::Outline { path } => CommandView::Outline(path@),
        Commands::Delete { path } => CommandView::Delete(path@),
        Commands::Log { path } => CommandView::Log(opt_text(path)),
        Commands::Init => CommandView::Init,
        Commands::Survey { scope } => CommandView::Survey(opt_text(scope)),
        Commands::Hippocampus { command } => match command {
            HippocampusCommands::Extract { session } => CommandView::Extract(opt_text(session)),
        },
        Commands::Search { query, scope, max, case_sensitive, regex } => CommandView::Search(
            query@,
            opt_text(scope),
            max,
            case_sensitive,
            regex,
        ),
        Commands::Tags { command } => match command {
            TagsCommands::List { scope } => CommandView::TagsList(opt_text(scope)),
            TagsCommands::Find { tag } => CommandView::TagsFind(tag@),
            TagsCommands::Show { path } => CommandView::TagsShow(path@),
        },
        Commands::Index { command } => match command {
            IndexCommands::Update => CommandView::IndexUpdate,
            IndexCommands::Show => CommandView::IndexShow,
        },
        Commands::Stats { path } => CommandView::Stats(opt_text(path)),
    }
}

/// A command that needs a value: made from it when it was given.
pub open spec fn with_value(v: Option<Seq<char>>, f: spec_fn(Seq<char>) -> CommandView) -> Option<CommandView> {
    match v {
        Some(x) => Some(f(x)),
        None => None,
    }
}

/// The command a parse gives: by the name of the subcommand (and of its
/// own subcommand), with the values of its arguments; `None` when one the
/// command needs is missing or the name is unknown.
pub open spec fn command_from(p: ArgsView) -> Option<CommandView> {
    let n = p.command;
    if n == "read"@ {
        with_value(p.path, |x: Seq<char>| CommandView::Read(x))
    } else if n == "write"@ {
        with_value(p.path, |x: Seq<char>| CommandView::Write(x))
    } else if n == "links"@ {
        with_value(p.path, |x: Seq<char>| CommandView::Links(x))
    } else if n == "outline"@ {
        with_value(p.path, |x: Seq<char>| CommandView::Outline(x))
    } else if n == "delete"@ {
        with_value(p.path, |x: Seq<char>| CommandView::Delete(x))
    } else if n == "list"@ {
        Some(CommandView::List(p.path, p.sizes))
    } else if n == "log"@ {
        Some(CommandView::Log(p.path))
    } else if n == "stats"@ {
        Some(CommandView::Stats(p.path))
    } else if n == "init"@ {
        Some(CommandView::Init)
    } else if n == "survey"@ {
        Some(CommandView::Survey(p.scope))
    } else if n == "hippocampus"@ {
        if p.nested == Some("extract"@) {
            Some(CommandView::Extract(p.session))
        } else {
            None
        }
    } else if n == "tags"@ {
        if p.nested == Some("list"@) {
            Some(CommandView::TagsList(p.scope))
        } else if p.nested == Some("find"@) {
            with_value(p.tag, |x: Seq<char>| CommandView::TagsFind(x))
        } else if p.nested == Some("show"@) {
            with_value(p.path, |x: Seq<char>| CommandView::TagsShow(x))
        } else {
            None
        }
    } else if n == "index"@ {
        if p.nested == Some("update"@) {
            Some(CommandView::IndexUpdate)
        } else if p.nested == Some("show"@) {
            Some(CommandView::IndexShow)
        } else {
            None
        }
    } else if n == "search"@ {
        match (p.query, p.max) {
            (Some(q), Some(m)) => Some(CommandView::Search(q, p.scope, m, p.case_sensitive, p.regex)),
            _ => None,
        }
    } else {
        None
    }
}

fn is_named(name: &String, lit: &str) -> (res: bool)
    ensures
        res == (name@ == lit@),
{
    *name == String::from_str(lit)
}

fn is_nested(nested: &Option<String>, lit: &str) -> (res: bool)
    ensures
        res == (opt_text(*nested) == Some(lit@)),
{
    match nested {
        Some(n) => is_named(n, lit),
        None => false,
    }
}

/// The command a parse gives, if the values it needs are there.
pub fn command_of(p: ParsedArgs) -> (res: Option<Commands>)
    ensures
        match res {
            Some(c) => command_from(p@) == Some(command_view(c)),
            None => command_from(p@) is None,
        },
{
    let name = p.command;
    let nested = p.nested;
    if is_named(&name, "read") || is_named(&name, "write") || is_named(&name, "links") || is_named(&name, "outline")
        || is_named(&name, "delete") {
        match p.path {
            Some(path) => {
                if is_named(&name, "read") {
                    Some(Commands::Read { path })
                } else if is_named(&name, "write") {
                    Some(Commands::Write { path })
                } else if is_named(&name, "links") {
                    Some(Commands::Links { path })
                } else if is_named(&name, "outline") {
                    Some(Commands::Outline { path })
                } else {
                    Some(Commands::Delete { path })
                }
            },
            None => None,
        }
    } else if is_named(&name, "list") {
        Some(Commands::List { path: p.path, sizes: p.sizes })
    } else if is_named(&name, "log") {
        Some(Commands::Log { path: p.path })
    } else if is_named(&name, "stats") {
        Some(Commands::Stats { path: p.path })
    } else if is_named(&name, "init") {
        Some(Commands::Init)
    } else if is_named(&name, "survey") {
        Some(Commands::Survey { scope: p.scope })
    } else if is_named(&name, "hippocampus") {
        if is_nested(&nested, "extract") {
            Some(Commands::Hippocampus { command: HippocampusCommands::Extract { session: p.session } })
        } else {
            None
        }
    } else if is_named(&name, "tags") {
        if is_nested(&nested, "list") {
            Some(Commands::Tags { command: TagsCommands::List { scope: p.scope } })
        } else if is_nested(&nested, "find") {
            match p.tag {
                Some(tag) => Some(Commands::Tags { command: TagsCommands::Find { tag } }),
                None => None,
            }
        } else if is_nested(&nested, "show") {
            match p.path {
                Some(path) => Some(Commands::Tags { command: TagsCommands::Show { path } }),
                None => None,
            }
        } else {
            None
        }
    } else if is_named(&name, "index") {
        if is_nested(&nested, "update") {
            Some(Commands::Index { command: IndexCommands::Update })
        } else if is_nested(&nested, "show") {
            Some(Commands::Index { command: IndexCommands::Show })
        } else {
            None
        }
    } else if is_named(&name, "search") {
        match (p.query, p.max) {
            (Some(query), Some(max)) => Some(
                Commands::Search { query, scope: p.scope, max, case_sensitive: p.case_sensitive, regex: p.regex },
            ),
            _ => None,
        }
    } else {
        None
    }
}

fn missing_subcommand() -> (res: CliError)
    ensures
        res.message@ == "error: A subcommand is required but one was not provided.\n"@,
        res.exit_code == 2,
        res.use_stderr,
{
    CliError {
        message: String::from_str("error: A subcommand is required but one was not provided.\n"),
        exit_code: 2,
        use_stderr: true,
    }
}

/// The values clap found for the subcommand `name` of a parse.
fn parsed_args(p: &Parsed, name: String, nested: Option<String>) -> (res: ParsedArgs)
    requires
        clap_matches(p.defined_by(), p.words()) matches Ok(v) && opt_text(nested) == v.nested,
    ensures
        res@ == args_of(clap_matches(p.defined_by(), p.words())->Ok_0, name@),
{
    ParsedArgs {
        command: name,
        nested,
        path: text_value(p, "path"),
        scope: text_value(p, "scope"),
        query: text_value(p, "query"),
        tag: text_value(p, "tag"),
        session: text_value(p, "session"),
        max: count_value(p, "max"),
        sizes: flag_value(p, "sizes"),
        case_sensitive: flag_value(p, "case_sensitive"),
        regex: flag_value(p, "regex"),
    }
}

/// The command a command line gives: clap's parse of the words, then the
/// command its subcommand and values make.
pub open spec fn parse_result(args: Seq<Seq<char>>) -> Option<CommandView> {
    match clap_matches(openmem_cli(), args) {
        Ok(v) => match v.command {
            Some(n) => command_from(args_of(v, n)),
            None => None,
        },
        Err(_) => None,
    }
}

/// What parsing `args` gives: `Ok` exactly when clap accepts the words
/// and its subcommand and values make a command; that command is the one
/// returned, and `--vault` is there when it was given. A refusal by clap
/// is clap's error: on its stream, with exit code 2 on stderr and 0 on
/// stdout (its text is not stated); otherwise the error is the
/// missing-subcommand one.
pub open spec fn parse_outcome(args: Seq<Seq<char>>, res: Result<Cli, CliError>) -> bool {
    match res {
        Ok(cli) => parse_result(args) == Some(command_view(cli.command)) && (cli.vault is Some
            <==> clap_matches(openmem_cli(), args)->Ok_0.vault),
        Err(e) => parse_result(args) is None && match clap_matches(openmem_cli(), args) {
            Ok(_) => e.message@ == "error: A subcommand is required but one was not provided.\n"@ && e.exit_code == 2
                && e.use_stderr,
            Err(to_stderr) => e.use_stderr == to_stderr && e.exit_code == (if to_stderr { 2i32 } else { 0i32 }),
        },
    }
}

impl Cli {
    /// Parse a command line (program name first).
    ///
    /// `Ok` exactly when clap accepts the words and its subcommand and
    /// values make a command; that command is the one returned, and
    /// `--vault` is there when it was given. A refusal by clap is clap's
    /// error; otherwise the error is the missing-subcommand one.
    pub fn try_parse_args(args: Vec<String>) -> (res: Result<Cli, CliError>)
        ensures
            parse_outcome(args.deep_view(), res),
    {
        let p = match parse_words(definition(), args) {
            Ok(p) => p,
            Err(e) => {
                return Err(e);
            },
        };
        let vault = vault_path(&p);
        let (name, nested) = subcommand_names(&p);
        match name {
            Some(name) => match command_of(parsed_args(&p, name, nested)) {
                Some(command) => Ok(Cli { vault, command }),
                None => Err(missing_subcommand()),
            },
            None => Err(missing_subcommand()),
        }
    }

    /// Parse a command line given as an array of words (program name first).
    pub fn try_parse_from<const N: usize>(args: [&str; N]) -> (res: Result<Cli, CliError>)
        ensures
            parse_outcome(args@.map_values(|w: &str| w@), res),
    {
        let mut words: Vec<String> = Vec::new();
        let mut i: usize = 0;
        while i < N
            invariant
                i <= N,
                words.deep_view() == args@.map_values(|w: &str| w@).take(i as int),
            decreases N - i,
        {
            let w = String::from_str(args[i]);
            let ghost before = words.deep_view();
            words.push(w);
            assert(words.deep_view() =~= before.push(w@));
            assert(args@.map_values(|w: &str| w@).take(i + 1) =~= args@.map_values(|w: &str| w@).take(i as int).push(
                args@[i as int]@,
            ));
            i += 1;
        }
        assert(args@.map_values(|w: &str| w@).take(N as int) =~= args@.map_values(|w: &str| w@));
        Cli::try_parse_args(words)
    }
}

} // verus!
