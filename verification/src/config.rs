//! User configuration: where the vault is.
use vstd::prelude::*;

use crate::command_line::opt_text;
use crate::text::{lines, range_starts_with, split_lines, starts_with, string_of, to_chars, trim, trim_range};

verus! {

#[verifier::external_type_specification]
#[verifier::external_body]
pub struct ExPathBuf(std::path::PathBuf);

/// User configuration for openmem: the vault's path, as text.
#[derive(Debug)]
pub struct Config {
    pub vault: String,
}

// ---------------------------------------------------------------------
// Paths
// ---------------------------------------------------------------------

/// The text of `Path::new(base).join(rest)`: `rest` when it is absolute,
/// else `rest` appended to `base` with the platform's separator.
pub uninterp spec fn joined_path(base: Seq<char>, rest: Seq<char>) -> Seq<char>;

/// `base` joined with `rest`, as text.
///
/// Trusted: `Path::join`, taken as text with `to_string_lossy` (the join
/// of two UTF-8 texts is UTF-8, so nothing is lost). It depends on the two
/// texts and on the platform the library is built for; its result is
/// named `joined_path`.
#[verifier::external_body]
fn path_join(base: &str, rest: &str) -> (res: String)
    ensures
        res@ == joined_path(base@, rest@),
{
    std::path::Path::new(base).join(rest).to_string_lossy().into_owned()
}

/// The home directory of the user as text, if it can be found.
///
/// Trusted: `dirs::home_dir`, taken as text with `to_string_lossy` (a
/// home directory that is not UTF-8 has its invalid bytes replaced). It
/// depends on the environment and the system: nothing is stated of it.
#[verifier::external_body]
fn home_text() -> (res: Option<String>) {
    dirs::home_dir().map(|h| h.to_string_lossy().into_owned())
}

/// The directory the openmem directory is in: the home directory, or `.`
/// when there is none.
pub open spec fn base_dir(home: Option<Seq<char>>) -> Seq<char> {
    match home {
        Some(h) => h,
        None => "."@,
    }
}

/// `~/.openmem`, for a home directory (or `./.openmem` without one).
pub open spec fn openmem_dir_of(home: Option<Seq<char>>) -> Seq<char> {
    joined_path(base_dir(home), ".openmem"@)
}

/// The default vault path, `~/.openmem/vault`, for a home directory.
pub open spec fn default_path_of(home: Option<Seq<char>>) -> Seq<char> {
    joined_path(openmem_dir_of(home), "vault"@)
}

/// The config file path, `~/.openmem/config.toml`, for a home directory.
pub open spec fn config_path_of(home: Option<Seq<char>>) -> Seq<char> {
    joined_path(openmem_dir_of(home), "config.toml"@)
}

/// The `.openmem` directory for a home directory (`.` if there is none).
fn openmem_dir_in(home: &Option<String>) -> (res: String)
    ensures
        res@ == openmem_dir_of(opt_text(*home)),
{
    let base = match home {
        Some(h) => h.clone(),
        None => String::from_str("."),
    };
    proof {
        reveal_strlit(".");
    }
    path_join(base.as_str(), ".openmem")
}

/// The default vault path for a home directory.
pub fn default_vault_path_in(home: &Option<String>) -> (res: String)
    ensures
        res@ == default_path_of(opt_text(*home)),
{
    path_join(openmem_dir_in(home).as_str(), "vault")
}

/// Default vault path: ~/.openmem/vault/
pub fn default_vault_path() -> (res: String)
    ensures
        exists|home: Option<Seq<char>>| res@ == default_path_of(home),
{
    let home = home_text();
    default_vault_path_in(&home)
}

/// Config file path: ~/.openmem/config.toml
pub fn config_file_path() -> (res: String)
    ensures
        exists|home: Option<Seq<char>>| res@ == config_path_of(home),
{
    let home = home_text();
    let res = path_join(openmem_dir_in(&home).as_str(), "config.toml");
    assert(res@ == config_path_of(opt_text(home)));
    res
}

impl Default for Config {
    fn default() -> (res: Self)
        ensures
            exists|home: Option<Seq<char>>| res.vault@ == default_path_of(home),
    {
        Config { vault: default_vault_path() }
    }
}

// ---------------------------------------------------------------------
// The config file
// ---------------------------------------------------------------------

/// `s` without the copies of `c` at its start.
pub open spec fn strip_leading(s: Seq<char>, c: char) -> Seq<char>
    decreases s.len(),
{
    if s.len() > 0 && s[0] == c {
        strip_leading(s.drop_first(), c)
    } else {
        s
    }
}

/// `s` without the copies of `c` at its end.
pub open spec fn strip_trailing(s: Seq<char>, c: char) -> Seq<char>
    decreases s.len(),
{
    if s.len() > 0 && s.last() == c {
        strip_trailing(s.drop_last(), c)
    } else {
        s
    }
}

/// `str::trim_matches` with one character: its copies removed at both ends.
pub open spec fn trim_char(s: Seq<char>, c: char) -> Seq<char> {
    strip_trailing(strip_leading(s, c), c)
}

/// The vault setting a line of the config file gives, if any: a line
/// `vault = "..."` (not a comment), the value trimmed and unquoted, when it
/// is not empty.
pub open spec fn vault_value(line: Seq<char>) -> Option<Seq<char>> {
    let t = trim(line);
    if t.len() == 0 || t[0] == '#' || !starts_with(t, "vault"@) {
        None
    } else {
        let rest = trim(t.skip("vault"@.len() as int));
        if rest.len() == 0 || rest[0] != '=' {
            None
        } else {
            let v = trim_char(trim_char(trim(rest.skip(1)), '"'), '\'');
            if v.len() == 0 {
                None
            } else {
                Some(v)
            }
        }
    }
}

/// The vault setting of the first line that gives one.
pub open spec fn config_value(ls: Seq<Seq<char>>) -> Option<Seq<char>>
    decreases ls.len(),
{
    if ls.len() == 0 {
        None
    } else if vault_value(ls[0]) is Some {
        vault_value(ls[0])
    } else {
        config_value(ls.drop_first())
    }
}

/// The bounds of `v[from..to]` without the copies of `c` at both ends.
fn trim_char_range(v: &Vec<char>, from: usize, to: usize, c: char) -> (res: (usize, usize))
    requires
        from <= to <= v@.len(),
    ensures
        from <= res.0 <= res.1 <= to,
        v@.subrange(res.0 as int, res.1 as int) == trim_char(v@.subrange(from as int, to as int), c),
{
    let mut a = from;
    while a < to && v[a] == c
        invariant
            from <= a <= to <= v@.len(),
            strip_leading(v@.subrange(from as int, to as int), c) == strip_leading(v@.subrange(a as int, to as int), c),
        decreases to - a,
    {
        assert(v@.subrange(a as int, to as int).drop_first() =~= v@.subrange(a + 1, to as int));
        a += 1;
    }
    assert(strip_leading(v@.subrange(a as int, to as int), c) == v@.subrange(a as int, to as int));
    let mut b = to;
    while b > a && v[b - 1] == c
        invariant
            from <= a <= b <= to <= v@.len(),
            strip_trailing(v@.subrange(a as int, to as int), c) == strip_trailing(v@.subrange(a as int, b as int), c),
        decreases b - a,
    {
        assert(v@.subrange(a as int, b as int).drop_last() =~= v@.subrange(a as int, b - 1));
        b -= 1;
    }
    assert(strip_trailing(v@.subrange(a as int, b as int), c) == v@.subrange(a as int, b as int));
    (a, b)
}

/// The vault setting a line gives, from its characters.
fn line_vault_value(l: &Vec<char>) -> (res: Option<String>)
    ensures
        match res {
            Some(v) => vault_value(l@) == Some(v@),
            None => vault_value(l@) is None,
        },
{
    proof {
        reveal_strlit("vault");
    }
    let n = l.len();
    assert(l@.subrange(0, n as int) =~= l@);
    let (a, b) = trim_range(l, 0, n);
    if a == b || l[a] == '#' || !range_starts_with(l, a, b, "vault") {
        return None;
    }
    let ghost t = l@.subrange(a as int, b as int);
    assert(t.skip(5) =~= l@.subrange(a + 5, b as int));
    let (c, d) = trim_range(l, a + 5, b);
    if c == d || l[c] != '=' {
        return None;
    }
    assert(l@.subrange(c as int, d as int).skip(1) =~= l@.subrange(c + 1, d as int));
    let (e, f) = trim_range(l, c + 1, d);
    let (g, h) = trim_char_range(l, e, f, '"');
    let (x, y) = trim_char_range(l, g, h, '\'');
    if x == y {
        return None;
    }
    Some(string_of(l, x, y))
}

/// The vault setting of a config file, if it has one.
pub fn config_vault_value(content: &str) -> (res: Option<String>)
    ensures
        match res {
            Some(v) => config_value(lines(content@)) == Some(v@),
            None => config_value(lines(content@)) is None,
        },
{
    let cs = to_chars(content);
    let ls = split_lines(&cs);
    let ghost lv = lines(content@);
    assert(ls.deep_view() == lv);
    let mut j: usize = 0;
    assert(lv.skip(0) =~= lv);
    while j < ls.len()
        invariant
            ls.deep_view() == lv,
            lv == lines(content@),
            j <= lv.len(),
            config_value(lv) == config_value(lv.skip(j as int)),
        decreases lv.len() - j,
    {
        assert(lv[j as int] == ls@[j as int]@);
        assert(lv.skip(j as int).drop_first() =~= lv.skip(j + 1));
        assert(lv.skip(j as int)[0] == lv[j as int]);
        match line_vault_value(&ls[j]) {
            Some(v) => {
                return Some(v);
            },
            None => {},
        }
        j += 1;
    }
    assert(lv.skip(lv.len() as int) =~= Seq::<Seq<char>>::empty());
    None
}

/// Where the config file puts the vault.
#[derive(Debug)]
pub enum VaultSetting {
    /// No setting: the default vault.
    Default,
    /// A path, as written.
    Given(String),
    /// The home directory itself (`~`).
    Home,
    /// A path under the home directory: what follows `~/`.
    UnderHome(String),
}

/// The vault setting a config file gives: `~` is the home directory and a
/// value starting with `~/` is taken under it.
pub open spec fn setting_of(content: Seq<char>, s: VaultSetting) -> bool {
    match config_value(lines(content)) {
        None => s is Default,
        Some(v) => if v == "~"@ {
            s is Home
        } else if v.len() >= 2 && v[0] == '~' && v[1] == '/' {
            s matches VaultSetting::UnderHome(r) && r@ == v.skip(2)
        } else {
            s matches VaultSetting::Given(p) && p@ == v
        },
    }
}

/// The vault setting of a config file.
pub fn vault_setting(content: &str) -> (res: VaultSetting)
    ensures
        setting_of(content@, res),
{
    proof {
        reveal_strlit("~");
    }
    match config_vault_value(content) {
        Some(value) => {
            let vc = to_chars(value.as_str());
            if vc.len() == 1 && vc[0] == '~' {
                assert(value@ =~= "~"@);
                VaultSetting::Home
            } else if vc.len() >= 2 && vc[0] == '~' && vc[1] == '/' {
                let rest = string_of(&vc, 2, vc.len());
                assert(rest@ =~= value@.skip(2));
                VaultSetting::UnderHome(rest)
            } else {
                VaultSetting::Given(value)
            }
        },
        None => VaultSetting::Default,
    }
}

/// The vault path a config file gives, for a home directory: the value
/// of its first `vault = "..."` line, with `~` standing for the home
/// directory (and kept as written when there is none); the default path
/// when the file sets no vault.
pub open spec fn config_vault(content: Seq<char>, home: Option<Seq<char>>) -> Seq<char> {
    match config_value(lines(content)) {
        None => default_path_of(home),
        Some(v) => if v == "~"@ {
            match home {
                Some(h) => h,
                None => v,
            }
        } else if v.len() >= 2 && v[0] == '~' && v[1] == '/' {
            match home {
                Some(h) => joined_path(h, v.skip(2)),
                None => v,
            }
        } else {
            v
        },
    }
}

/// The configuration a config file gives, for a home directory.
pub fn config_with_home(content: &str, home: &Option<String>) -> (res: Config)
    ensures
        res.vault@ == config_vault(content@, opt_text(*home)),
{
    proof {
        reveal_strlit("~");
    }
    let setting = vault_setting(content);
    let vault = match setting {
        VaultSetting::Home => match home {
            Some(h) => h.clone(),
            None => String::from_str("~"),
        },
        VaultSetting::UnderHome(rest) => match home {
            Some(h) => path_join(h.as_str(), rest.as_str()),
            None => {
                let mut value = String::from_str("~/");
                value.append(rest.as_str());
                proof {
                    reveal_strlit("~/");
                    let v = config_value(lines(content@))->0;
                    assert(v =~= "~/"@ + v.skip(2));
                }
                value
            },
        },
        VaultSetting::Given(value) => value,
        VaultSetting::Default => default_vault_path_in(home),
    };
    Config { vault }
}

/// Parse a TOML config string into a Config.
///
/// Only the `vault = "..."` key is read (first such line); `~` at its
/// start stands for the home directory. Without the key the default is
/// used. The home directory is looked up once; the result is
/// `config_with_home` for it.
pub fn parse_config(content: &str) -> (res: crate::error::Result<Config>)
    ensures
        res matches Ok(c) && exists|home: Option<Seq<char>>| c.vault@ == config_vault(content@, home),
{
    let home = home_text();
    Ok(config_with_home(content, &home))
}

/// Who decides where the vault is.
#[derive(Debug)]
pub enum VaultChoice {
    /// The `--vault` flag, with its path.
    Flag(std::path::PathBuf),
    /// The `OPENMEM_VAULT` value.
    Env(String),
    /// Neither: the config file (or its default).
    Config,
}

/// The vault root's source, in this order of precedence: the CLI flag,
/// then the `OPENMEM_VAULT` value, then the config file.
pub fn vault_override(cli_flag: Option<std::path::PathBuf>, env_vault: Option<String>) -> (res: VaultChoice)
    ensures
        match cli_flag {
            Some(p) => res == VaultChoice::Flag(p),
            None => match env_vault {
                Some(e) => res matches VaultChoice::Env(v) && v@ == e@,
                None => res is Config,
            },
        },
{
    match cli_flag {
        Some(p) => VaultChoice::Flag(p),
        None => match env_vault {
            Some(v) => VaultChoice::Env(v),
            None => VaultChoice::Config,
        },
    }
}

} // verus!
