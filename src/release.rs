//! Release checks: reading the latest version out of a releases API response,
//! comparing versions, and telling how the editor was installed, so that the
//! matching update command can be suggested.
use vstd::prelude::*;
use crate::text::{
    chars_of, contains, contains_chars, find_from, find_from_index, parse_u32, parse_u32_chars,
    split_chars, split_on, starts_with, starts_with_chars,
};

verus! {

/// The version of this editor.
pub const CURRENT_VERSION: &'static str = "0.1.26";

/// The releases API endpoint that reports the latest release.
pub const DEFAULT_RELEASES_URL: &'static str = "https://api.github.com/repos/sinelaw/fresh/releases/latest";

/// How the editor was installed.
#[derive(Clone, Copy, Debug, PartialEq, Eq, Structural)]
pub enum InstallMethod {
    /// Installed via Homebrew.
    Homebrew,
    /// Installed via cargo.
    Cargo,
    /// Installed via npm.
    Npm,
    /// Installed via a Linux package manager (apt, dnf, etc.).
    PackageManager,
    /// Installed via the Arch User Repository.
    Aur,
    /// Unknown, or installed by hand.
    Unknown,
}

/// The update command suggested for each installation method.
pub open spec fn update_command_of(m: InstallMethod) -> Option<Seq<char>> {
    match m {
        InstallMethod::Homebrew => Some("brew upgrade fresh"@),
        InstallMethod::Cargo => Some("cargo install fresh-editor"@),
        InstallMethod::Npm => Some("npm update -g fresh-editor"@),
        InstallMethod::Aur => Some("yay -Syu fresh-editor  # or use your AUR helper"@),
        InstallMethod::PackageManager => Some("Update using your system package manager"@),
        InstallMethod::Unknown => None,
    }
}

impl InstallMethod {
    /// The command that updates an installation made this way, if one is known.
    pub fn update_command(&self) -> (r: Option<&'static str>)
        ensures
            match update_command_of(*self) {
                Some(t) => r is Some && r->0@ == t,
                None => r is None,
            },
    {
        match self {
            InstallMethod::Homebrew => Some("brew upgrade fresh"),
            InstallMethod::Cargo => Some("cargo install fresh-editor"),
            InstallMethod::Npm => Some("npm update -g fresh-editor"),
            InstallMethod::Aur => Some("yay -Syu fresh-editor  # or use your AUR helper"),
            InstallMethod::PackageManager => Some("Update using your system package manager"),
            InstallMethod::Unknown => None,
        }
    }
}

/// The outcome of a release check.
#[derive(Debug)]
pub struct ReleaseCheckResult {
    /// The latest version available.
    pub latest_version: String,
    /// Whether it is newer than this editor's version.
    pub update_available: bool,
    /// How this editor was installed.
    pub install_method: InstallMethod,
}

/// The installation method that an executable at `path` points to; `arch_linux`
/// tells whether the system is Arch Linux.
pub open spec fn install_method_of(path: Seq<char>, arch_linux: bool) -> InstallMethod {
    if contains(path, "/opt/homebrew/"@) || contains(path, "/usr/local/Cellar/"@) || contains(
        path,
        "/home/linuxbrew/"@,
    ) || contains(path, "/.linuxbrew/"@) {
        InstallMethod::Homebrew
    } else if contains(path, "/.cargo/bin/"@) || contains(path, "\\.cargo\\bin\\"@) {
        InstallMethod::Cargo
    } else if contains(path, "/node_modules/"@) || contains(path, "\\node_modules\\"@) || contains(
        path,
        "/npm/"@,
    ) || contains(path, "/lib/node_modules/"@) {
        InstallMethod::Npm
    } else if starts_with(path, "/usr/bin/"@) && arch_linux {
        InstallMethod::Aur
    } else if starts_with(path, "/usr/bin/"@) || starts_with(path, "/usr/local/bin/"@)
        || starts_with(path, "/bin/"@) {
        InstallMethod::PackageManager
    } else {
        InstallMethod::Unknown
    }
}

fn path_has(path: &Vec<char>, pattern: &str) -> (r: bool)
    ensures
        r == contains(path@, pattern@),
{
    let p = chars_of(pattern);
    contains_chars(path, &p)
}

fn path_starts(path: &Vec<char>, pattern: &str) -> (r: bool)
    ensures
        r == starts_with(path@, pattern@),
{
    let p = chars_of(pattern);
    starts_with_chars(path, &p)
}

/// Tells how the editor was installed from the path of its executable;
/// `arch_linux` tells whether the system is Arch Linux.
pub fn detect_install_method_from_path(exe_path: &str, arch_linux: bool) -> (r: InstallMethod)
    ensures
        r == install_method_of(exe_path@, arch_linux),
{
    let path = chars_of(exe_path);
    if path_has(&path, "/opt/homebrew/") || path_has(&path, "/usr/local/Cellar/") || path_has(
        &path,
        "/home/linuxbrew/",
    ) || path_has(&path, "/.linuxbrew/") {
        return InstallMethod::Homebrew;
    }
    if path_has(&path, "/.cargo/bin/") || path_has(&path, "\\.cargo\\bin\\") {
        return InstallMethod::Cargo;
    }
    if path_has(&path, "/node_modules/") || path_has(&path, "\\node_modules\\") || path_has(
        &path,
        "/npm/",
    ) || path_has(&path, "/lib/node_modules/") {
        return InstallMethod::Npm;
    }
    if path_starts(&path, "/usr/bin/") && arch_linux {
        return InstallMethod::Aur;
    }
    if path_starts(&path, "/usr/bin/") || path_starts(&path, "/usr/local/bin/") || path_starts(
        &path,
        "/bin/",
    ) {
        return InstallMethod::PackageManager;
    }
    InstallMethod::Unknown
}

/// The (major, minor, patch) that version `v` spells: `major.minor` (patch 0), or
/// `major.minor.patch` with anything further ignored and the patch read up to a
/// `-` pre-release suffix; each number as `u32::from_str` reads it.
pub open spec fn version_triple(v: Seq<char>) -> Option<(u32, u32, u32)> {
    let parts = split_on(v, '.');
    if parts.len() >= 3 {
        match (parse_u32(parts[0]), parse_u32(parts[1]), parse_u32(split_on(parts[2], '-')[0])) {
            (Some(a), Some(b), Some(c)) => Some((a, b, c)),
            _ => None,
        }
    } else if parts.len() == 2 {
        match (parse_u32(parts[0]), parse_u32(parts[1])) {
            (Some(a), Some(b)) => Some((a, b, 0u32)),
            _ => None,
        }
    } else {
        None
    }
}

/// `l` comes after `c` in lexicographic order.
pub open spec fn triple_after(l: (u32, u32, u32), c: (u32, u32, u32)) -> bool {
    l.0 > c.0 || (l.0 == c.0 && (l.1 > c.1 || (l.1 == c.1 && l.2 > c.2)))
}

/// `latest` is a newer version than `current`: both read as versions, and the
/// latest one's numbers come after.
pub open spec fn is_newer(current: Seq<char>, latest: Seq<char>) -> bool {
    match (version_triple(current), version_triple(latest)) {
        (Some(c), Some(l)) => triple_after(l, c),
        _ => false,
    }
}

fn parse_version(v: &str) -> (r: Option<(u32, u32, u32)>)
    ensures
        r == version_triple(v@),
{
    let chars = chars_of(v);
    let parts = split_chars(&chars, '.');
    proof {
        assert(parts@.len() == split_on(v@, '.').len());
    }
    if parts.len() >= 3 {
        let a = parse_u32_chars(&parts[0]);
        let b = parse_u32_chars(&parts[1]);
        let pieces = split_chars(&parts[2], '-');
        proof {
            assert(pieces@.len() == split_on(parts@[2]@, '-').len());
            lemma_split_nonempty(parts@[2]@, '-');
        }
        let c = parse_u32_chars(&pieces[0]);
        match (a, b, c) {
            (Some(a), Some(b), Some(c)) => Some((a, b, c)),
            _ => None,
        }
    } else if parts.len() == 2 {
        let a = parse_u32_chars(&parts[0]);
        let b = parse_u32_chars(&parts[1]);
        match (a, b) {
            (Some(a), Some(b)) => Some((a, b, 0)),
            _ => None,
        }
    } else {
        None
    }
}

proof fn lemma_split_nonempty(s: Seq<char>, c: char)
    ensures
        split_on(s, c).len() >= 1,
    decreases s.len(),
{
    if s.len() > 0 {
        lemma_split_nonempty(s.drop_last(), c);
    }
}

/// Whether `latest` is a newer version than `current`; a version that does not
/// read as one is never newer, nor older.
pub fn is_newer_version(current: &str, latest: &str) -> (r: bool)
    ensures
        r == is_newer(current@, latest@),
{
    match (parse_version(current), parse_version(latest)) {
        (Some(c), Some(l)) => l.0 > c.0 || (l.0 == c.0 && (l.1 > c.1 || (l.1 == c.1 && l.2 > c.2))),
        _ => false,
    }
}

/// `tag` without a leading `v`.
pub open spec fn strip_v(tag: Seq<char>) -> Seq<char> {
    if tag.len() > 0 && tag[0] == 'v' {
        tag.skip(1)
    } else {
        tag
    }
}

/// The version that a releases API response reports: the text between the first
/// two quotes that follow the first `"tag_name"`, without a leading `v`; or the
/// error that says which of these is missing.
pub open spec fn reported_version(json: Seq<char>) -> Result<Seq<char>, Seq<char>> {
    match find_from(json, "\"tag_name\""@, 0) {
        None => Err("tag_name not found in response"@),
        Some(start) => match find_from(json, "\""@, start + "\"tag_name\""@.len()) {
            None => Err("Invalid JSON: missing quote after tag_name"@),
            Some(open) => match find_from(json, "\""@, open + 1) {
                None => Err("Invalid JSON: unclosed quote"@),
                Some(close) => Ok(strip_v(json.subrange(open + 1, close))),
            },
        },
    }
}

/// Reads the latest version out of a releases API response.
pub fn parse_version_from_json(json: &str) -> (r: Result<String, String>)
    ensures
        match reported_version(json@) {
            Ok(v) => r is Ok && r->Ok_0@ == v,
            Err(e) => r is Err && r->Err_0@ == e,
        },
{
    let text = chars_of(json);
    let n = text.len();
    let key = chars_of("\"tag_name\"");
    let quote = chars_of("\"");
    proof {
        reveal_strlit("\"");
    }
    let start = match find_from_index(&text, &key, 0) {
        None => {
            return Err(String::from_str("tag_name not found in response"));
        },
        Some(i) => i,
    };
    proof {
        lemma_find_bounds(text@, key@, 0);
    }
    let open = match find_from_index(&text, &quote, start + key.len()) {
        None => {
            return Err(String::from_str("Invalid JSON: missing quote after tag_name"));
        },
        Some(i) => i,
    };
    proof {
        lemma_find_bounds(text@, quote@, start + key@.len());
    }
    let close = match find_from_index(&text, &quote, open + 1) {
        None => {
            return Err(String::from_str("Invalid JSON: unclosed quote"));
        },
        Some(i) => i,
    };
    proof {
        lemma_find_bounds(text@, quote@, open + 1);
    }
    let from = if open + 1 < close && text[open + 1] == 'v' {
        open + 2
    } else {
        open + 1
    };
    let tag = json.substring_char(from, close);
    assert(tag@ =~= strip_v(json@.subrange(open + 1, close as int)));
    Ok(String::from_str(tag))
}

proof fn lemma_find_bounds(s: Seq<char>, p: Seq<char>, i: int)
    ensures
        find_from(s, p, i) matches Some(j) ==> i <= j && j + p.len() <= s.len(),
    decreases s.len() + 1 - i,
{
    if !(i < 0 || i + p.len() > s.len()) && !crate::text::occurs_at(s, p, i) {
        lemma_find_bounds(s, p, i + 1);
    }
}

/// Completes a release check with the releases API `response` that was fetched
/// and the `install_method` that was detected: the latest version, and whether it
/// is newer than this editor's.
pub fn check_for_update(response: &str, install_method: InstallMethod) -> (r: Result<
    ReleaseCheckResult,
    String,
>)
    ensures
        match reported_version(response@) {
            Ok(v) => r is Ok && r->Ok_0.latest_version@ == v && r->Ok_0.update_available
                == is_newer(CURRENT_VERSION@, v) && r->Ok_0.install_method == install_method,
            Err(e) => r is Err && r->Err_0@ == e,
        },
{
    let latest_version = match parse_version_from_json(response) {
        Ok(v) => v,
        Err(e) => {
            return Err(e);
        },
    };
    let update_available = is_newer_version(CURRENT_VERSION, latest_version.as_str());
    Ok(ReleaseCheckResult { latest_version, update_available, install_method })
}

} // verus!
