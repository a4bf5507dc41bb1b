//! Decisions about the data directories, the bundled assets and the command line.

use vstd::prelude::*;
use std::path::PathBuf;
use crate::text::chars_of;

verus! {

#[verifier::external_type_specification]
#[verifier::external_body]
pub struct ExPathBuf(PathBuf);

/// Two-dir split: `shared/` is fully owned by the program (overwritten on every
/// asset upgrade); `user/` is fully owned by the user (custom YAMLs, learned
/// user dictionaries, deployed `.bin` files).
pub struct Dirs {
    pub root: PathBuf,
    pub shared: PathBuf,
    pub user: PathBuf,
}

/// Bumped whenever the bundled assets change. Triggers a re-unpack into the
/// shared data dir.
pub const ASSET_VERSION: &'static str = "v0.1.0";

/// Whether two strings hold the same characters.
pub fn str_eq(a: &str, b: &str) -> (r: bool)
    ensures
        r == (a@ == b@),
{
    let x = chars_of(a);
    let y = chars_of(b);
    if x.len() != y.len() {
        return false;
    }
    let mut i: usize = 0;
    while i < x.len()
        invariant
            x@ == a@,
            y@ == b@,
            x@.len() == y@.len(),
            i <= x@.len(),
            forall|k: int| 0 <= k < i ==> x@[k] == y@[k],
        decreases x@.len() - i,
    {
        if x[i] != y[i] {
            return false;
        }
        i = i + 1;
    }
    assert(x@ =~= y@);
    true
}

pub open spec fn spec_ends_with(s: Seq<char>, suffix: Seq<char>) -> bool {
    s.len() >= suffix.len() && s.skip(s.len() - suffix.len()) == suffix
}

/// `s` ends with `suffix` exactly where `s` is some string followed by `suffix`.
pub proof fn law_ends_with_is_suffix(s: Seq<char>, suffix: Seq<char>)
    ensures
        spec_ends_with(s, suffix) <==> exists|pre: Seq<char>| s == pre + suffix,
{
    if spec_ends_with(s, suffix) {
        let pre = s.take(s.len() - suffix.len());
        assert(s =~= pre + suffix);
    }
    if exists|pre: Seq<char>| s == pre + suffix {
        let pre = choose|pre: Seq<char>| s == pre + suffix;
        assert(s.skip(s.len() - suffix.len()) =~= suffix);
    }
}

/// Whether `s` ends with `suffix` (`str::ends_with`).
pub fn str_ends_with(s: &str, suffix: &str) -> (r: bool)
    ensures
        r == spec_ends_with(s@, suffix@),
{
    let x = chars_of(s);
    let y = chars_of(suffix);
    if x.len() < y.len() {
        return false;
    }
    let off = x.len() - y.len();
    let mut i: usize = 0;
    while i < y.len()
        invariant
            x@ == s@,
            y@ == suffix@,
            off == x@.len() - y@.len(),
            x@.len() == x.len(),
            i <= y@.len(),
            forall|k: int| 0 <= k < i ==> x@[off + k] == y@[k],
        decreases y@.len() - i,
    {
        if x[off + i] != y[i] {
            assert(s@.skip(off as int)[i as int] != suffix@[i as int]);
            return false;
        }
        i = i + 1;
    }
    assert(s@.skip(off as int) =~= suffix@);
    true
}

/// A name of a file or directory that the user owns in the data directory:
/// learned user dictionaries and their text snapshots, patch files, the user
/// configuration and the build directory.
pub open spec fn spec_is_user_owned(n: Seq<char>) -> bool {
    spec_ends_with(n, ".userdb"@) || spec_ends_with(n, ".userdb.txt"@) || spec_ends_with(n, ".custom.yaml"@)
        || n == "user.yaml"@ || n == "build"@
}

/// User-owned entries are the per-schema user dictionaries (`<id>.userdb`) and
/// their text snapshots (`<id>.userdb.txt`), the `<name>.custom.yaml` patches,
/// `user.yaml` and the `build` directory; nothing else.
pub proof fn law_user_owned_names(n: Seq<char>)
    ensures
        spec_is_user_owned(n) <==> ((exists|pre: Seq<char>| n == pre + ".userdb"@) || (exists|pre: Seq<char>| n == pre
            + ".userdb.txt"@) || (exists|pre: Seq<char>| n == pre + ".custom.yaml"@) || n == "user.yaml"@ || n
            == "build"@),
{
    law_ends_with_is_suffix(n, ".userdb"@);
    law_ends_with_is_suffix(n, ".userdb.txt"@);
    law_ends_with_is_suffix(n, ".custom.yaml"@);
}

pub fn is_user_owned(name: &str) -> (r: bool)
    ensures
        r == spec_is_user_owned(name@),
{
    str_ends_with(name, ".userdb") || str_ends_with(name, ".userdb.txt") || str_ends_with(name, ".custom.yaml")
        || str_eq(name, "user.yaml") || str_eq(name, "build")
}

/// What the migration from the single-directory layout does with an entry of the old root.
#[derive(Clone, Copy, PartialEq, Eq, Debug)]
pub enum LegacyEntryAction {
    /// The `shared` and `user` directories of the new layout are left alone.
    Skip,
    /// User-owned content moves into `user/`.
    MoveToUser,
    /// Bundled files are deleted, to be unpacked again under `shared/`.
    RemoveFile,
    RemoveDir,
    /// Neither a file nor a directory: nothing to do.
    Keep,
}

pub fn legacy_entry_action(name: &str, is_file: bool, is_dir: bool) -> (r: LegacyEntryAction)
    ensures
        (name@ == "shared"@ || name@ == "user"@) ==> r == LegacyEntryAction::Skip,
        !(name@ == "shared"@ || name@ == "user"@) ==> r == (if spec_is_user_owned(name@) {
            LegacyEntryAction::MoveToUser
        } else if is_file {
            LegacyEntryAction::RemoveFile
        } else if is_dir {
            LegacyEntryAction::RemoveDir
        } else {
            LegacyEntryAction::Keep
        }),
{
    if str_eq(name, "shared") || str_eq(name, "user") {
        LegacyEntryAction::Skip
    } else if is_user_owned(name) {
        LegacyEntryAction::MoveToUser
    } else if is_file {
        LegacyEntryAction::RemoveFile
    } else if is_dir {
        LegacyEntryAction::RemoveDir
    } else {
        LegacyEntryAction::Keep
    }
}

/// What forgetting the learned phrases does with an entry of `user/`.
#[derive(Clone, Copy, PartialEq, Eq, Debug)]
pub enum ForgetAction {
    RemoveDir,
    RemoveFile,
    Keep,
}

/// Per Rime conventions: per-schema user dictionaries live in `<id>.userdb/`,
/// sometimes with a `.userdb.txt` plain-text snapshot alongside; `user.yaml`
/// records the learned state too.
pub fn forget_action(name: &str, is_dir: bool, is_file: bool) -> (r: ForgetAction)
    ensures
        r == (if is_dir && spec_ends_with(name@, ".userdb"@) {
            ForgetAction::RemoveDir
        } else if is_file && (spec_ends_with(name@, ".userdb.txt"@) || name@ == "user.yaml"@) {
            ForgetAction::RemoveFile
        } else {
            ForgetAction::Keep
        }),
{
    if is_dir && str_ends_with(name, ".userdb") {
        ForgetAction::RemoveDir
    } else if is_file && (str_ends_with(name, ".userdb.txt") || str_eq(name, "user.yaml")) {
        ForgetAction::RemoveFile
    } else {
        ForgetAction::Keep
    }
}

/// The plural ending of "entr…" for a count of forgotten entries.
pub fn entry_suffix(count: usize) -> (r: &'static str)
    ensures
        count == 1 ==> r@ == "y"@,
        count != 1 ==> r@ == "ies"@,
{
    if count == 1 {
        "y"
    } else {
        "ies"
    }
}

/// A character with the Unicode `White_Space` property (25 code points).
pub open spec fn is_white_space(c: char) -> bool {
    ||| '\u{9}' <= c <= '\u{d}'
    ||| c == ' '
    ||| c == '\u{85}'
    ||| c == '\u{a0}'
    ||| c == '\u{1680}'
    ||| '\u{2000}' <= c <= '\u{200a}'
    ||| c == '\u{2028}'
    ||| c == '\u{2029}'
    ||| c == '\u{202f}'
    ||| c == '\u{205f}'
    ||| c == '\u{3000}'
}

/// `s` without the white space at its start.
pub open spec fn trim_start(s: Seq<char>) -> Seq<char>
    decreases s.len(),
{
    if s.len() > 0 && is_white_space(s[0]) {
        trim_start(s.drop_first())
    } else {
        s
    }
}

/// `s` without the white space at its end.
pub open spec fn trim_end(s: Seq<char>) -> Seq<char>
    decreases s.len(),
{
    if s.len() > 0 && is_white_space(s.last()) {
        trim_end(s.drop_last())
    } else {
        s
    }
}

/// The string with white space removed at both ends, as `str::trim` gives it.
pub open spec fn spec_trim(s: Seq<char>) -> Seq<char> {
    trim_end(trim_start(s))
}

/// Calls `str::trim`, which removes leading and trailing characters with the
/// Unicode `White_Space` property.
#[verifier::external_body]
fn str_trim(s: &str) -> (r: &str)
    ensures
        r@ == spec_trim(s@),
{
    s.trim()
}

/// Whether a stamp, already trimmed, names the bundled asset version.
pub fn is_current_asset_version(trimmed: &str) -> (r: bool)
    ensures
        r == (trimmed@ == ASSET_VERSION@),
{
    str_eq(trimmed, ASSET_VERSION)
}

/// Whether the content of an asset-version stamp file, trimmed, is the bundled version.
pub fn asset_stamp_is_current(stamp: &str) -> (r: bool)
    ensures
        r == (spec_trim(stamp@) == ASSET_VERSION@),
{
    is_current_asset_version(str_trim(stamp))
}

/// What the first command-line argument asks for.
#[derive(Clone, Copy, PartialEq, Eq, Debug)]
pub enum CliCommand {
    Licenses,
    Forget,
    Help,
    Version,
    Unknown,
}

pub fn parse_cli_arg(arg: &str) -> (r: CliCommand)
    ensures
        r == (if arg@ == "--licenses"@ {
            CliCommand::Licenses
        } else if arg@ == "--forget"@ {
            CliCommand::Forget
        } else if arg@ == "--help"@ || arg@ == "-h"@ {
            CliCommand::Help
        } else if arg@ == "--version"@ || arg@ == "-V"@ {
            CliCommand::Version
        } else {
            CliCommand::Unknown
        }),
{
    if str_eq(arg, "--licenses") {
        CliCommand::Licenses
    } else if str_eq(arg, "--forget") {
        CliCommand::Forget
    } else if str_eq(arg, "--help") || str_eq(arg, "-h") {
        CliCommand::Help
    } else if str_eq(arg, "--version") || str_eq(arg, "-V") {
        CliCommand::Version
    } else {
        CliCommand::Unknown
    }
}

pub const HELP_TEXT: &'static str = "\
zipin \u{2014} terminal Chinese input method.

USAGE:
    zipin [OPTIONS]

OPTIONS:
    -h, --help        Print this help and exit.
    -V, --version     Print version and exit.
        --licenses    Print license + third-party attribution and exit.
        --forget      Wipe Rime user-dict files (learned phrases). Schemas
                      are preserved; deployed .bin files re-build on next
                      launch.
";

/// The command-line help.
pub fn help_text() -> (r: &'static str)
    ensures
        r@ == HELP_TEXT@,
{
    HELP_TEXT
}

} // verus!
