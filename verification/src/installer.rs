//! The installed toolchain: its version, and the shell commands that remove
//! the old one and put the new one on the path.
//!
//! Nothing here runs a command. Each function hands back the text of the
//! command for the caller to run, or reads what a command printed.

use vstd::prelude::*;
use vstd::slice::slice_subrange;
use crate::config::{GO_PATH, GO_ROOT, SHELL_PROFILE};
use crate::text::{
    after_first, first_piece, leading_matches, nth_word, parse_decimal, parse_number, split_first,
    to_chars, trailing_matches, trim_end_matches, trim_start_matches, word, NumberError,
};

verus! {

/// The version of a Go release: major, minor and patch number.
#[derive(Debug, PartialEq, Eq, PartialOrd, Ord, Clone, Copy, Structural)]
pub struct Version(pub u32, pub u32, pub u32);

/// The part of a version text that is not a number, and why it is not.
#[derive(Debug, Clone, Copy, PartialEq, Eq, Structural)]
pub enum VersionError {
    Major(NumberError),
    Minor(NumberError),
    Patch(NumberError),
}

/// The version that the text `s` names.
///
/// Every leading `go` is left out. What remains is cut at its dots: the
/// first three pieces are the major, minor and patch number, each read as a
/// decimal number that fits 32 bits, and further pieces are ignored. A piece
/// that is missing counts as empty, which is no number. The error names the
/// first piece that is not a number.
pub open spec fn version_of(s: Seq<char>) -> Result<Version, VersionError> {
    let body = trim_start_matches(s, "go"@);
    let after_major = after_first(body, '.');
    let after_minor = after_first(after_major, '.');
    match parse_decimal(first_piece(body, '.'), u32::MAX as nat) {
        Err(e) => Err(VersionError::Major(e)),
        Ok(major) => match parse_decimal(first_piece(after_major, '.'), u32::MAX as nat) {
            Err(e) => Err(VersionError::Minor(e)),
            Ok(minor) => match parse_decimal(first_piece(after_minor, '.'), u32::MAX as nat) {
                Err(e) => Err(VersionError::Patch(e)),
                Ok(patch) => Ok(Version(major as u32, minor as u32, patch as u32)),
            },
        },
    }
}

/// The version that the output of `go version` reports: the one that its
/// third word names. There is none where the output has fewer than three
/// words.
pub open spec fn reported_version(stdout: Seq<char>) -> Result<Option<Version>, VersionError> {
    match word(stdout, 2) {
        None => Ok(None),
        Some(w) => match version_of(w) {
            Ok(v) => Ok(Some(v)),
            Err(e) => Err(e),
        },
    }
}

/// The lines that the shell profile needs for the toolchain to be found.
pub open spec fn profile_lines() -> Seq<Seq<char>> {
    seq![
        "export GOROOT="@ + GO_ROOT@,
        "export GOPATH="@ + GO_PATH@,
        "export PATH=$PATH:$GOPATH/bin"@,
        "export PATH=$PATH:$GOROOT/bin"@,
    ]
}

/// The command that looks for `line` in the shell profile.
pub open spec fn probe_text(line: Seq<char>) -> Seq<char> {
    "cat "@ + SHELL_PROFILE@ + " | grep '"@ + line + "'"@
}

/// The command that adds `line` to the end of the shell profile.
pub open spec fn append_text(line: Seq<char>) -> Seq<char> {
    "echo '"@ + line + "' >> "@ + SHELL_PROFILE@
}

/// The command that unpacks the downloaded archive `archive` into the folder
/// above the toolchain's own: the root without its trailing `/go`.
pub open spec fn unpack_text(archive: Seq<char>) -> Seq<char> {
    "sudo tar -C "@ + trim_end_matches(GO_ROOT@, "/go"@) + " -xzf "@ + archive
}

impl Version {
    /// Reads a version from the characters `s`.
    pub fn from_chars(s: &[char]) -> (r: Result<Version, VersionError>)
        ensures
            r == version_of(s@),
    {
        let go = to_chars("go");
        let start = leading_matches(s, go.as_slice());
        let body = slice_subrange(s, start, s.len());
        proof {
            assert(body@ =~= trim_start_matches(s@, "go"@));
        }
        let (major_text, after_major) = split_first(body, '.');
        let (minor_text, after_minor) = split_first(after_major, '.');
        let (patch_text, _) = split_first(after_minor, '.');
        let major = match parse_number(major_text, u32::MAX as u64) {
            Ok(n) => n as u32,
            Err(e) => {
                return Err(VersionError::Major(e));
            },
        };
        let minor = match parse_number(minor_text, u32::MAX as u64) {
            Ok(n) => n as u32,
            Err(e) => {
                return Err(VersionError::Minor(e));
            },
        };
        let patch = match parse_number(patch_text, u32::MAX as u64) {
            Ok(n) => n as u32,
            Err(e) => {
                return Err(VersionError::Patch(e));
            },
        };
        Ok(Version(major, minor, patch))
    }

    /// Reads a version from text such as `go1.21.4` or `1.21.4`.
    pub fn from_str(s: &str) -> (r: Result<Version, VersionError>)
        ensures
            r == version_of(s@),
    {
        let chars = to_chars(s);
        Version::from_chars(chars.as_slice())
    }
}

/// The version of the installed toolchain, read from what `go version`
/// printed: `None` where the output has no third word.
pub fn get_current_version(stdout: &str) -> (r: Result<Option<Version>, VersionError>)
    ensures
        r == reported_version(stdout@),
{
    let chars = to_chars(stdout);
    match nth_word(chars.as_slice(), 2) {
        None => Ok(None),
        Some(w) => match Version::from_chars(w) {
            Ok(v) => Ok(Some(v)),
            Err(e) => Err(e),
        },
    }
}

/// The lines that the shell profile needs, in the order in which they are
/// looked for.
pub fn shell_profile_lines() -> (lines: Vec<String>)
    ensures
        lines@.len() == profile_lines().len(),
        forall|i: int| 0 <= i < lines@.len() ==> (#[trigger] lines@[i])@ == profile_lines()[i],
{
    let mut root = String::from_str("export GOROOT=");
    root.append(GO_ROOT);
    let mut path = String::from_str("export GOPATH=");
    path.append(GO_PATH);
    let mut lines: Vec<String> = Vec::new();
    lines.push(root);
    lines.push(path);
    lines.push(String::from_str("export PATH=$PATH:$GOPATH/bin"));
    lines.push(String::from_str("export PATH=$PATH:$GOROOT/bin"));
    lines
}

/// The command that looks for `line` in the shell profile.
pub fn probe_command(line: &str) -> (command: String)
    ensures
        command@ == probe_text(line@),
{
    let mut command = String::from_str("cat ");
    command.append(SHELL_PROFILE);
    command.append(" | grep '");
    command.append(line);
    command.append("'");
    command
}

/// Decides what to do about `line` once the command that looks for it has
/// ended with `status` and printed `stdout`: if it ended with status 1 and
/// printed nothing, the line is not in the profile, and the command that adds
/// it comes back. In every other case nothing is to be done.
pub fn config_path_env(line: &str, status: Option<i32>, stdout: &Vec<u8>) -> (command: Option<
    String,
>)
    ensures
        command is Some <==> status == Some(1i32) && stdout@.len() == 0,
        command matches Some(text) ==> text@ == append_text(line@),
{
    let missing = match status {
        Some(code) => code == 1 && stdout.len() == 0,
        None => false,
    };
    if !missing {
        return None;
    }
    let mut command = String::from_str("echo '");
    command.append(line);
    command.append("' >> ");
    command.append(SHELL_PROFILE);
    Some(command)
}

/// The command that unpacks the downloaded archive into place.
pub fn unpack_command(archive: &str) -> (command: String)
    ensures
        command@ == unpack_text(archive@),
{
    let root = to_chars(GO_ROOT);
    let suffix = to_chars("/go");
    let end = trailing_matches(root.as_slice(), suffix.as_slice());
    let parent = GO_ROOT.substring_char(0, end);
    let mut command = String::from_str("sudo tar -C ");
    command.append(parent);
    command.append(" -xzf ");
    command.append(archive);
    command
}

/// The command that removes the installed toolchain.
pub fn remove_old_version() -> (command: String)
    ensures
        command@ == "sudo rm -rf "@ + GO_ROOT@,
{
    let mut command = String::from_str("sudo rm -rf ");
    command.append(GO_ROOT);
    command
}

/// The command that removes the folder of temporary files.
pub fn remove_temp_folder(temp_folder: &str) -> (command: String)
    ensures
        command@ == "sudo rm -rf "@ + temp_folder@,
{
    let mut command = String::from_str("sudo rm -rf ");
    command.append(temp_folder);
    command
}

} // verus!
