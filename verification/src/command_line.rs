//! The `openmem` command line as clap defines and parses it.
//!
//! The definition is built here and nowhere else, and a parse result can
//! only be made here, from the words it was parsed from: what the readers
//! of a parse state is stated of the words.
use vstd::prelude::*;

use std::path::PathBuf;

verus! {

#[verifier::external_type_specification]
#[verifier::external_body]
pub struct ExCommand(clap::Command);

#[verifier::external_type_specification]
#[verifier::external_body]
pub struct ExArg(clap::Arg);

#[verifier::external_type_specification]
#[verifier::external_body]
pub struct ExArgMatches(clap::ArgMatches);

/// A command line that clap refused, or a request for help or the
/// version: the text clap renders, the exit code and the stream it goes to.
#[derive(Debug)]
pub struct CliError {
    pub message: String,
    pub exit_code: i32,
    pub use_stderr: bool,
}

/// An optional text seen as an optional character sequence.
pub open spec fn opt_text(o: Option<String>) -> Option<Seq<char>> {
    match o {
        Some(s) => Some(s@),
        None => None,
    }
}

// ---------------------------------------------------------------------
// The model of a clap definition
// ---------------------------------------------------------------------

/// How an argument takes its value.
pub enum ValueKind {
    /// A text (`ValueParser::string`).
    Text,
    /// A count, read with `usize::from_str`.
    Count,
    /// A path (`ValueParser::path_buf`).
    Path,
    /// A flag, set when given (`ArgAction::SetTrue`).
    Flag,
}

/// An argument of a command, as plain values. One with neither a short nor
/// a long name is positional.
pub struct ArgSpec {
    pub id: Seq<char>,
    pub short: Option<char>,
    pub long: Option<Seq<char>>,
    pub value_name: Option<Seq<char>>,
    pub help: Seq<char>,
    pub kind: ValueKind,
    pub required: bool,
    pub default: Option<Seq<char>>,
    pub global: bool,
}

/// A command, as plain values: its name, its about text, its version, its
/// arguments and subcommands in the order they were added, and whether a
/// subcommand is required (and help shown when no argument is given).
pub struct CommandSpec {
    pub name: Seq<char>,
    pub about: Seq<char>,
    pub version: Option<Seq<char>>,
    pub subcommand_required: bool,
    pub args: Seq<ArgSpec>,
    pub subcommands: Seq<CommandSpec>,
}

/// A command with a name and an about text and nothing else.
pub open spec fn bare_command(name: Seq<char>, about: Seq<char>) -> CommandSpec {
    CommandSpec {
        name,
        about,
        version: None,
        subcommand_required: false,
        args: Seq::empty(),
        subcommands: Seq::empty(),
    }
}

/// `c` with `a` added as its last argument.
pub open spec fn add_arg(c: CommandSpec, a: ArgSpec) -> CommandSpec {
    CommandSpec { args: c.args.push(a), ..c }
}

/// `c` with `s` added as its last subcommand.
pub open spec fn add_subcommand(c: CommandSpec, s: CommandSpec) -> CommandSpec {
    CommandSpec { subcommands: c.subcommands.push(s), ..c }
}

/// A positional text argument.
pub open spec fn positional_spec(id: Seq<char>, value_name: Seq<char>, help: Seq<char>, required: bool) -> ArgSpec {
    ArgSpec {
        id,
        short: None,
        long: None,
        value_name: Some(value_name),
        help,
        kind: ValueKind::Text,
        required,
        default: None,
        global: false,
    }
}

/// A flag with a short and a long name.
pub open spec fn flag_spec(id: Seq<char>, short: char, long: Seq<char>, help: Seq<char>) -> ArgSpec {
    ArgSpec {
        id,
        short: Some(short),
        long: Some(long),
        value_name: None,
        help,
        kind: ValueKind::Flag,
        required: false,
        default: None,
        global: false,
    }
}

/// An optional text option with a short and a long name.
pub open spec fn text_option_spec(id: Seq<char>, short: char, long: Seq<char>, value_name: Seq<char>, help: Seq<char>) -> ArgSpec {
    ArgSpec {
        id,
        short: Some(short),
        long: Some(long),
        value_name: Some(value_name),
        help,
        kind: ValueKind::Text,
        required: false,
        default: None,
        global: false,
    }
}

/// A count option with a short and a long name and a default.
pub open spec fn count_option_spec(
    id: Seq<char>,
    short: char,
    long: Seq<char>,
    value_name: Seq<char>,
    help: Seq<char>,
    default: Seq<char>,
) -> ArgSpec {
    ArgSpec {
        id,
        short: Some(short),
        long: Some(long),
        value_name: Some(value_name),
        help,
        kind: ValueKind::Count,
        required: false,
        default: Some(default),
        global: false,
    }
}

/// A path option with a long name, given on any subcommand.
pub open spec fn global_path_spec(id: Seq<char>, long: Seq<char>, value_name: Seq<char>, help: Seq<char>) -> ArgSpec {
    ArgSpec {
        id,
        short: None,
        long: Some(long),
        value_name: Some(value_name),
        help,
        kind: ValueKind::Path,
        required: false,
        default: None,
        global: true,
    }
}

/// A command with one positional argument `path`.
pub open spec fn path_command_spec(name: Seq<char>, about: Seq<char>, help: Seq<char>, required: bool) -> CommandSpec {
    add_arg(bare_command(name, about), positional_spec("path"@, "PATH"@, help, required))
}

/// A command whose subcommand is required.
pub open spec fn group_spec(name: Seq<char>, about: Seq<char>, subcommands: Seq<CommandSpec>) -> CommandSpec {
    CommandSpec { subcommand_required: true, subcommands, ..bare_command(name, about) }
}

/// `openmem tags`.
pub open spec fn tags_spec() -> CommandSpec {
    group_spec(
        "tags"@,
        "Tag operations"@,
        seq![
            add_arg(
                bare_command("list"@, "List all tags in the vault"@),
                positional_spec("scope"@, "SCOPE"@, "Limit to nodes under this path prefix"@, false),
            ),
            add_arg(
                bare_command("find"@, "Find nodes with a specific tag"@),
                positional_spec("tag"@, "TAG"@, "Tag to search for (with or without # prefix)"@, true),
            ),
            path_command_spec("show"@, "Show tags for a specific node"@, "Node path"@, true),
        ],
    )
}

/// `openmem index`.
pub open spec fn index_spec() -> CommandSpec {
    group_spec(
        "index"@,
        "Memory index operations"@,
        seq![
            bare_command("update"@, "Generate or update the memory index"@),
            bare_command("show"@, "Show the current index"@),
        ],
    )
}

/// `openmem hippocampus`.
pub open spec fn hippocampus_spec() -> CommandSpec {
    group_spec(
        "hippocampus"@,
        "Session memory extraction commands"@,
        seq![
            add_arg(
                bare_command("extract"@, "Generate an extraction prompt from a session transcript"@),
                positional_spec("session"@, "SESSION"@, "Optional session file path (reads from stdin if not provided)"@, false),
            ),
        ],
    )
}

/// `openmem search`: the query, `-s/--scope`, `-n/--max` (default 20),
/// `-c/--case-sensitive` and `-E/--regex`.
pub open spec fn search_spec() -> CommandSpec {
    CommandSpec {
        args: seq![
            positional_spec("query"@, "QUERY"@, "Search query (literal or regex with --regex flag)"@, true),
            text_option_spec("scope"@, 's', "scope"@, "SCOPE"@, "Limit search to nodes under this path prefix"@),
            count_option_spec("max"@, 'n', "max"@, "MAX"@, "Maximum number of results"@, "20"@),
            flag_spec("case_sensitive"@, 'c', "case-sensitive"@, "Case-sensitive search"@),
            flag_spec("regex"@, 'E', "regex"@, "Treat query as regex pattern"@),
        ],
        ..bare_command("search"@, "Search across all nodes"@)
    }
}

/// The `openmem` command line: version 0.1.0, a required subcommand, the
/// global `--vault` option, and the subcommands in this order.
pub open spec fn openmem_cli() -> CommandSpec {
    CommandSpec {
        name: "openmem"@,
        about: "Universal agent memory system"@,
        version: Some("0.1.0"@),
        subcommand_required: true,
        args: seq![
            global_path_spec("vault"@, "vault"@, "VAULT"@, "Vault root directory (overrides config and env var)"@),
        ],
        subcommands: seq![
            path_command_spec("read"@, "Read a node's content"@, "Node path (e.g. global/user-prefs)"@, true),
            path_command_spec("write"@, "Write a node (reads content from stdin)"@, "Node path (e.g. global/user-prefs)"@, true),
            add_arg(
                path_command_spec("list"@, "List nodes under a path"@, "Path prefix to list under (default: all)"@, false),
                flag_spec("sizes"@, 's', "sizes"@, "Show size indicators"@),
            ),
            path_command_spec("links"@, "Show outgoing links and backlinks for a node"@, "Node path"@, true),
            path_command_spec("outline"@, "Show heading outline of a node"@, "Node path"@, true),
            path_command_spec("delete"@, "Delete a node"@, "Node path"@, true),
            path_command_spec("log"@, "Show change history"@, "Optional node path to filter history"@, false),
            bare_command("init"@, "Initialize a new vault"@),
            add_arg(
                bare_command("survey"@, "Survey the vault for analysis"@),
                positional_spec("scope"@, "SCOPE"@, "Optional path prefix to limit survey scope"@, false),
            ),
            hippocampus_spec(),
            search_spec(),
            tags_spec(),
            index_spec(),
            path_command_spec("stats"@, "Show vault statistics"@, "Optional path prefix"@, false),
        ],
    }
}

// ---------------------------------------------------------------------
// clap's builder
// ---------------------------------------------------------------------

/// A clap command with the definition it was built from. Only the
/// builders below make one.
pub struct ClapCommand {
    cmd: clap::Command,
    spec: Ghost<CommandSpec>,
}

impl View for ClapCommand {
    type V = CommandSpec;

    closed spec fn view(&self) -> CommandSpec {
        self.spec@
    }
}

/// A clap argument with the definition it was built from. Only the
/// builders below make one.
pub struct ClapArg {
    arg: clap::Arg,
    spec: Ghost<ArgSpec>,
}

impl View for ClapArg {
    type V = ArgSpec;

    closed spec fn view(&self) -> ArgSpec {
        self.spec@
    }
}

/// Trusted: `clap::Command::new(name).about(about)`, a command with that
/// name and about text and nothing else.
#[verifier::external_body]
fn command(name: &'static str, about: &'static str) -> (res: ClapCommand)
    ensures
        res@ == bare_command(name@, about@),
{
    ClapCommand { cmd: clap::Command::new(name).about(about), spec: Ghost(bare_command(name@, about@)) }
}

/// Trusted: `Command::version`.
#[verifier::external_body]
fn with_version(c: ClapCommand, version: &'static str) -> (res: ClapCommand)
    ensures
        res@ == (CommandSpec { version: Some(version@), ..c@ }),
{
    ClapCommand { cmd: c.cmd.version(version), spec: Ghost(CommandSpec { version: Some(version@), ..c.spec@ }) }
}

/// Trusted: `Command::subcommand_required(true).arg_required_else_help(true)`,
/// as clap's derive sets for a required subcommand.
#[verifier::external_body]
fn requiring_subcommand(c: ClapCommand) -> (res: ClapCommand)
    ensures
        res@ == (CommandSpec { subcommand_required: true, ..c@ }),
{
    ClapCommand {
        cmd: c.cmd.subcommand_required(true).arg_required_else_help(true),
        spec: Ghost(CommandSpec { subcommand_required: true, ..c.spec@ }),
    }
}

/// Trusted: `Command::arg`, the argument added last.
#[verifier::external_body]
fn with_arg(c: ClapCommand, a: ClapArg) -> (res: ClapCommand)
    ensures
        res@ == add_arg(c@, a@),
{
    ClapCommand { cmd: c.cmd.arg(a.arg), spec: Ghost(add_arg(c.spec@, a.spec@)) }
}

/// Trusted: `Command::subcommand`, the subcommand added last.
#[verifier::external_body]
fn with_subcommand(c: ClapCommand, s: ClapCommand) -> (res: ClapCommand)
    ensures
        res@ == add_subcommand(c@, s@),
{
    ClapCommand { cmd: c.cmd.subcommand(s.cmd), spec: Ghost(add_subcommand(c.spec@, s.spec@)) }
}

/// Trusted: a positional text argument, `Arg::new(id)` with its value
/// name, help and whether it is required.
#[verifier::external_body]
fn positional(id: &'static str, value_name: &'static str, help: &'static str, required: bool) -> (res: ClapArg)
    ensures
        res@ == positional_spec(id@, value_name@, help@, required),
{
    let arg = clap::Arg::new(id).value_name(value_name).help(help).required(required);
    ClapArg {
        arg: arg.value_parser(clap::builder::ValueParser::string()),
        spec: Ghost(positional_spec(id@, value_name@, help@, required)),
    }
}

/// Trusted: a boolean flag, set when given (`ArgAction::SetTrue`).
/// `Arg::short` refuses `-` (a debug assertion), so it is ruled out.
#[verifier::external_body]
fn flag(id: &'static str, short: char, long: &'static str, help: &'static str) -> (res: ClapArg)
    requires
        short != '-',
    ensures
        res@ == flag_spec(id@, short, long@, help@),
{
    ClapArg {
        arg: clap::Arg::new(id).short(short).long(long).help(help).action(clap::ArgAction::SetTrue),
        spec: Ghost(flag_spec(id@, short, long@, help@)),
    }
}

/// Trusted: an optional text option with a short and a long name; `-` is
/// ruled out as the short name, as for `flag`.
#[verifier::external_body]
fn text_option(id: &'static str, short: char, long: &'static str, value_name: &'static str, help: &'static str) -> (res: ClapArg)
    requires
        short != '-',
    ensures
        res@ == text_option_spec(id@, short, long@, value_name@, help@),
{
    let arg = clap::Arg::new(id).short(short).long(long).value_name(value_name).help(help);
    ClapArg {
        arg: arg.value_parser(clap::builder::ValueParser::string()),
        spec: Ghost(text_option_spec(id@, short, long@, value_name@, help@)),
    }
}

/// Trusted: a count option parsed with `usize::from_str`, with a default;
/// `-` is ruled out as the short name, as for `flag`.
#[verifier::external_body]
fn count_option(
    id: &'static str,
    short: char,
    long: &'static str,
    value_name: &'static str,
    help: &'static str,
    default: &'static str,
) -> (res: ClapArg)
    requires
        short != '-',
    ensures
        res@ == count_option_spec(id@, short, long@, value_name@, help@, default@),
{
    let parse: fn(&str) -> Result<usize, std::num::ParseIntError> = <usize as std::str::FromStr>::from_str;
    let arg = clap::Arg::new(id).short(short).long(long).value_name(value_name).help(help).default_value(default);
    ClapArg {
        arg: arg.value_parser(clap::builder::ValueParser::new(parse)),
        spec: Ghost(count_option_spec(id@, short, long@, value_name@, help@, default@)),
    }
}

/// Trusted: a path option given on any subcommand (`global`).
#[verifier::external_body]
fn global_path_option(id: &'static str, long: &'static str, value_name: &'static str, help: &'static str) -> (res: ClapArg)
    ensures
        res@ == global_path_spec(id@, long@, value_name@, help@),
{
    let arg = clap::Arg::new(id).long(long).value_name(value_name).help(help).global(true);
    ClapArg {
        arg: arg.value_parser(clap::builder::ValueParser::path_buf()),
        spec: Ghost(global_path_spec(id@, long@, value_name@, help@)),
    }
}

// ---------------------------------------------------------------------
// The definition of openmem's command line
// ---------------------------------------------------------------------

fn path_command(name: &'static str, about: &'static str, help: &'static str, required: bool) -> (res: ClapCommand)
    ensures
        res@ == path_command_spec(name@, about@, help@, required),
{
    with_arg(command(name, about), positional("path", "PATH", help, required))
}

fn tags_command() -> (res: ClapCommand)
    ensures
        res@ == tags_spec(),
{
    let mut c = requiring_subcommand(command("tags", "Tag operations"));
    c = with_subcommand(
        c,
        with_arg(command("list", "List all tags in the vault"), positional("scope", "SCOPE", "Limit to nodes under this path prefix", false)),
    );
    c = with_subcommand(
        c,
        with_arg(command("find", "Find nodes with a specific tag"), positional("tag", "TAG", "Tag to search for (with or without # prefix)", true)),
    );
    c = with_subcommand(c, path_command("show", "Show tags for a specific node", "Node path", true));
    assert(c@.subcommands =~= tags_spec().subcommands);
    c
}

fn index_command() -> (res: ClapCommand)
    ensures
        res@ == index_spec(),
{
    let mut c = requiring_subcommand(command("index", "Memory index operations"));
    c = with_subcommand(c, command("update", "Generate or update the memory index"));
    c = with_subcommand(c, command("show", "Show the current index"));
    assert(c@.subcommands =~= index_spec().subcommands);
    c
}

fn hippocampus_command() -> (res: ClapCommand)
    ensures
        res@ == hippocampus_spec(),
{
    let c = requiring_subcommand(command("hippocampus", "Session memory extraction commands"));
    let c = with_subcommand(
        c,
        with_arg(
            command("extract", "Generate an extraction prompt from a session transcript"),
            positional("session", "SESSION", "Optional session file path (reads from stdin if not provided)", false),
        ),
    );
    assert(c@.subcommands =~= hippocampus_spec().subcommands);
    c
}

fn search_command() -> (res: ClapCommand)
    ensures
        res@ == search_spec(),
{
    let mut c = command("search", "Search across all nodes");
    c = with_arg(c, positional("query", "QUERY", "Search query (literal or regex with --regex flag)", true));
    c = with_arg(c, text_option("scope", 's', "scope", "SCOPE", "Limit search to nodes under this path prefix"));
    c = with_arg(c, count_option("max", 'n', "max", "MAX", "Maximum number of results", "20"));
    c = with_arg(c, flag("case_sensitive", 'c', "case-sensitive", "Case-sensitive search"));
    c = with_arg(c, flag("regex", 'E', "regex", "Treat query as regex pattern"));
    assert(c@.args =~= search_spec().args);
    c
}

/// The definition of the `openmem` command line: `openmem_cli`.
pub(crate) fn definition() -> (res: ClapCommand)
    ensures
        res@ == openmem_cli(),
{
    let mut c = with_version(requiring_subcommand(command("openmem", "Universal agent memory system")), "0.1.0");
    c = with_arg(c, global_path_option("vault", "vault", "VAULT", "Vault root directory (overrides config and env var)"));
    c = with_subcommand(c, path_command("read", "Read a node's content", "Node path (e.g. global/user-prefs)", true));
    c = with_subcommand(c, path_command("write", "Write a node (reads content from stdin)", "Node path (e.g. global/user-prefs)", true));
    c = with_subcommand(
        c,
        with_arg(
            path_command("list", "List nodes under a path", "Path prefix to list under (default: all)", false),
            flag("sizes", 's', "sizes", "Show size indicators"),
        ),
    );
    c = with_subcommand(c, path_command("links", "Show outgoing links and backlinks for a node", "Node path", true));
    c = with_subcommand(c, path_command("outline", "Show heading outline of a node", "Node path", true));
    c = with_subcommand(c, path_command("delete", "Delete a node", "Node path", true));
    c = with_subcommand(c, path_command("log", "Show change history", "Optional node path to filter history", false));
    c = with_subcommand(c, command("init", "Initialize a new vault"));
    c = with_subcommand(
        c,
        with_arg(command("survey", "Survey the vault for analysis"), positional("scope", "SCOPE", "Optional path prefix to limit survey scope", false)),
    );
    c = with_subcommand(c, hippocampus_command());
    c = with_subcommand(c, search_command());
    c = with_subcommand(c, tags_command());
    c = with_subcommand(c, index_command());
    c = with_subcommand(c, path_command("stats", "Show vault statistics", "Optional path prefix", false));
    assert(c@.args =~= openmem_cli().args);
    assert(c@.subcommands =~= openmem_cli().subcommands);
    c
}

// ---------------------------------------------------------------------
// Parsing
// ---------------------------------------------------------------------

/// What clap makes of a command line that it accepts, as plain values:
/// whether `--vault` was given, the subcommand, its own subcommand, and
/// the values of the innermost one's arguments by id (texts, counts, and
/// the flags that are set).
pub struct MatchesView {
    pub vault: bool,
    pub command: Option<Seq<char>>,
    pub nested: Option<Seq<char>>,
    pub texts: Map<Seq<char>, Seq<char>>,
    pub counts: Map<Seq<char>, usize>,
    pub flags: Set<Seq<char>>,
}

/// What clap's parse of the command `def` gives for a command line
/// (program name first). Where clap refuses it (help and version
/// requests included), `Err` says whether the refusal goes to stderr.
pub uninterp spec fn clap_matches(def: CommandSpec, args: Seq<Seq<char>>) -> Result<MatchesView, bool>;

/// A command line that clap accepted, with the words it was parsed from
/// and the definition it was parsed with. Only `parse_words` makes one.
pub struct Parsed {
    args: Vec<String>,
    matches: clap::ArgMatches,
    def: Ghost<CommandSpec>,
}

impl Parsed {
    /// The words this parse was made from.
    pub closed spec fn words(self) -> Seq<Seq<char>> {
        self.args.deep_view()
    }

    /// The definition this parse was made with.
    pub closed spec fn defined_by(self) -> CommandSpec {
        self.def@
    }
}

/// Trusted: `Command::try_get_matches_from`: clap's parse of the words
/// with the definition, named `clap_matches`. It is asked only of the
/// `openmem` definition, which clap's debug checks accept (the tests parse
/// with it). A refusal is given as the text clap renders for it, its exit
/// code and its stream: the stream is named with the parse, the exit code
/// is 2 on stderr and 0 on stdout (`Error::exit_code`), and the text
/// (which depends on the terminal) is not stated.
#[verifier::external_body]
pub(crate) fn parse_words(def: ClapCommand, args: Vec<String>) -> (res: Result<Parsed, CliError>)
    requires
        def@ == openmem_cli(),
    ensures
        res is Ok <==> clap_matches(def@, args.deep_view()) is Ok,
        res matches Ok(p) ==> p.words() == args.deep_view() && p.defined_by() == def@,
        res matches Err(e) ==> (clap_matches(def@, args.deep_view()) matches Err(to_stderr) && to_stderr == e.use_stderr)
            && e.exit_code == (if e.use_stderr { 2i32 } else { 0i32 }),
{
    let spec = def.spec;
    match def.cmd.try_get_matches_from(args.clone()) {
        Ok(m) => Ok(Parsed { args, matches: m, def: spec }),
        Err(e) => Err(CliError { message: e.render().to_string(), exit_code: e.exit_code(), use_stderr: e.use_stderr() }),
    }
}

/// Trusted: `ArgMatches::subcommand` on the parse and on its
/// subcommand's matches: the names of the subcommand given and of its own
/// subcommand.
#[verifier::external_body]
pub(crate) fn subcommand_names(p: &Parsed) -> (res: (Option<String>, Option<String>))
    ensures
        clap_matches(p.defined_by(), p.words()) matches Ok(v) ==> opt_text(res.0) == v.command && opt_text(res.1) == v.nested,
{
    let top = p.matches.subcommand();
    let nested = top.and_then(|(_, s)| s.subcommand()).map(|(name, _)| name.to_string());
    (top.map(|(name, _)| name.to_string()), nested)
}

/// Trusted: `ArgMatches::try_get_one::<PathBuf>` for `--vault` (a global
/// option, read at the top); only whether it was given is stated.
#[verifier::external_body]
pub(crate) fn vault_path(p: &Parsed) -> (res: Option<PathBuf>)
    ensures
        clap_matches(p.defined_by(), p.words()) matches Ok(v) ==> (res is Some <==> v.vault),
{
    match p.matches.try_get_one::<PathBuf>("vault") {
        Ok(Some(v)) => Some(v.clone()),
        _ => None,
    }
}

/// The text value of argument `id` in a view, if there is one.
pub open spec fn text_in(v: MatchesView, id: Seq<char>) -> Option<Seq<char>> {
    if v.texts.contains_key(id) {
        Some(v.texts[id])
    } else {
        None
    }
}

/// The count value of argument `id` in a view, if there is one.
pub open spec fn count_in(v: MatchesView, id: Seq<char>) -> Option<usize> {
    if v.counts.contains_key(id) {
        Some(v.counts[id])
    } else {
        None
    }
}

/// Trusted: `ArgMatches::try_get_one::<String>` on the innermost
/// subcommand's matches, the value of a text argument if it has one.
#[verifier::external_body]
pub(crate) fn text_value(p: &Parsed, id: &str) -> (res: Option<String>)
    ensures
        clap_matches(p.defined_by(), p.words()) matches Ok(v) ==> opt_text(res) == text_in(v, id@),
{
    let top = p.matches.subcommand().map(|(_, s)| s);
    let m = top.map(|s| s.subcommand().map_or(s, |(_, t)| t)).unwrap_or(&p.matches);
    match m.try_get_one::<String>(id) {
        Ok(Some(v)) => Some(v.clone()),
        _ => None,
    }
}

/// Trusted: `ArgMatches::try_get_one::<usize>` on the innermost
/// subcommand's matches.
#[verifier::external_body]
pub(crate) fn count_value(p: &Parsed, id: &str) -> (res: Option<usize>)
    ensures
        clap_matches(p.defined_by(), p.words()) matches Ok(v) ==> res == count_in(v, id@),
{
    let top = p.matches.subcommand().map(|(_, s)| s);
    let m = top.map(|s| s.subcommand().map_or(s, |(_, t)| t)).unwrap_or(&p.matches);
    match m.try_get_one::<usize>(id) {
        Ok(Some(v)) => Some(*v),
        _ => None,
    }
}

/// Trusted: `ArgMatches::try_get_one::<bool>` on the innermost
/// subcommand's matches, for a flag; `false` when it has no value.
#[verifier::external_body]
pub(crate) fn flag_value(p: &Parsed, id: &str) -> (res: bool)
    ensures
        clap_matches(p.defined_by(), p.words()) matches Ok(v) ==> res == v.flags.contains(id@),
{
    let top = p.matches.subcommand().map(|(_, s)| s);
    let m = top.map(|s| s.subcommand().map_or(s, |(_, t)| t)).unwrap_or(&p.matches);
    match m.try_get_one::<bool>(id) {
        Ok(Some(v)) => *v,
        _ => false,
    }
}

} // verus!
