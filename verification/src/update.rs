//! Updates of the editor: whether there is one, and how it is installed.

use crate::paths::component_list;
use crate::paths::components;
use crate::paths::extension;
use crate::paths::extension_of;
use crate::paths::rebuild;
use crate::paths::rebuilt;
use crate::text::begins;
use crate::text::contains;
use crate::text::holds;
use crate::text::lowercase;
use crate::text::opt_view;
use crate::text::same;
use crate::text::starts_with;
use crate::text::to_lower;
use crate::text::trim_start_matches;
use crate::text::views;
use crate::text::without_leading;
use vstd::prelude::*;

verus! {

/// The system that the editor runs on.
#[derive(Clone, Copy, PartialEq, Eq, Debug, Structural)]
pub enum Platform {
    Linux,
    Windows,
    MacOs,
    Other,
}

/// The version of this editor.
pub fn current_version() -> (r: &'static str)
    ensures
        r@ == "0.1.0"@,
{
    "0.1.0"
}

/// What the name of a release's file for a system holds; `arm` tells its processor.
pub fn target(platform: Platform, arm: bool) -> (r: &'static str)
    ensures
        r@ == match platform {
            Platform::Windows => "windows-x86_64"@,
            Platform::MacOs => if arm {
                "macos-arm64"@
            } else {
                "macos-x86_64"@
            },
            _ => "linux-x86_64"@,
        },
{
    match platform {
        Platform::Windows => "windows-x86_64",
        Platform::MacOs => if arm {
            "macos-arm64"
        } else {
            "macos-x86_64"
        },
        _ => "linux-x86_64",
    }
}

/// Whether the second of two versions is greater, as `self_update::version::bump_is_greater`
/// tells it; nothing where one of them is no version.
pub uninterp spec fn bump(current: Seq<char>, other: Seq<char>) -> Option<bool>;

/// `self_update::version::bump_is_greater`, which rests on the two texts alone.
#[verifier::external_body]
fn bump_is_greater(current: &str, other: &str) -> (r: Option<bool>)
    ensures
        r == bump(current@, other@),
{
    self_update::version::bump_is_greater(current, other).ok()
}

/// The version of a release: its tag without the `v`s in front.
pub open spec fn release_version(tag: Seq<char>) -> Seq<char> {
    without_leading(tag, "v"@)
}

/// The version of the latest release, the first of the list, where it is newer than another.
pub open spec fn newer(current: Seq<char>, tags: Seq<Seq<char>>) -> Option<Seq<char>> {
    if tags.len() > 0 && bump(current, release_version(tags[0])) == Some(true) {
        Some(release_version(tags[0]))
    } else {
        None
    }
}

/// The version of a release that is offered: it is where it is told to be greater.
pub fn offered(version: &str, greater: Option<bool>) -> (r: Option<String>)
    ensures
        opt_view(r) == if greater == Some(true) {
            Some(version@)
        } else {
            None
        },
{
    match greater {
        Some(true) => Some(version.to_owned()),
        _ => None,
    }
}

/// The version of the latest release where it is newer than this editor.
pub fn latest_newer(tags: &Vec<String>) -> (r: Option<String>)
    ensures
        opt_view(r) == newer("0.1.0"@, views(tags@)),
{
    if tags.len() == 0 {
        return None;
    }
    proof {
        reveal_strlit("v");
        assert(views(tags@)[0] == tags@[0]@);
    }
    let v = trim_start_matches(tags[0].as_str(), "v");
    let greater = bump_is_greater(current_version(), v.as_str());
    offered(v.as_str(), greater)
}

/// What a check tells the user: versions of type `T`.
pub enum Notice<T> {
    /// There is a newer version.
    Available { version: T },
    /// There is none, and the user had asked.
    UpToDate,
    /// Nothing.
    Silent,
}

/// What a check tells the user: that there is none only where the user had asked.
pub fn check_notice(newer: Option<String>, manual: bool) -> (r: Notice<String>)
    ensures
        match newer {
            Some(v) => r is Available && r->version@ == v@,
            None => if manual {
                r is UpToDate
            } else {
                r is Silent
            },
        },
{
    match newer {
        Some(version) => Notice::Available { version },
        None => if manual {
            Notice::UpToDate
        } else {
            Notice::Silent
        },
    }
}

/// Whether the system's packages hold the editor: on Linux, where they own its file.
pub fn is_apt_install(platform: Platform, owned: bool) -> (r: bool)
    ensures
        r == (platform == Platform::Linux && owned),
{
    match platform {
        Platform::Linux => owned,
        _ => false,
    }
}

/// What the administrator runs to bring the package of the editor up to date: its own source
/// alone is read anew.
pub open spec fn upgrade_script() -> Seq<char> {
    "set -e; apt-get update -o Dir::Etc::sourcelist=sources.list.d/aether.list -o Dir::Etc::sourceparts=/dev/null -o APT::Get::List-Cleanup=0; apt-get install -y --only-upgrade aether"@
}

/// The command that brings the package up to date, on Linux; none elsewhere.
pub fn install_apt_async(platform: Platform) -> (r: Option<Vec<String>>)
    ensures
        match r {
            Some(v) => platform == Platform::Linux && views(v@) == seq![
                "pkexec"@,
                "sh"@,
                "-c"@,
                upgrade_script(),
            ],
            None => platform != Platform::Linux,
        },
{
    match platform {
        Platform::Linux => {
            let mut v: Vec<String> = Vec::new();
            v.push("pkexec".to_owned());
            v.push("sh".to_owned());
            v.push("-c".to_owned());
            v.push(
                "set -e; apt-get update -o Dir::Etc::sourcelist=sources.list.d/aether.list -o Dir::Etc::sourceparts=/dev/null -o APT::Get::List-Cleanup=0; apt-get install -y --only-upgrade aether".to_owned(),
            );
            assert(views(v@) =~= seq!["pkexec"@, "sh"@, "-c"@, upgrade_script()]);
            Some(v)
        },
        _ => None,
    }
}

/// Whether a path begins with one of the folders, in any case; an empty folder does not count.
pub open spec fn is_below_any(exe: Seq<char>, folders: Seq<Seq<char>>) -> bool {
    exists|i: int|
        0 <= i < folders.len() && (#[trigger] folders[i]).len() > 0 && begins(
            lowercase(exe),
            lowercase(folders[i]),
        )
}

/// Whether an installer holds the editor: on Windows, where its file lies in one of the folders
/// for programs.
pub fn is_program_files_install(platform: Platform, exe: &str, folders: &Vec<String>) -> (r: bool)
    ensures
        r == (platform == Platform::Windows && is_below_any(exe@, views(folders@))),
{
    match platform {
        Platform::Windows => {},
        _ => {
            return false;
        },
    }
    let low = to_lower(exe);
    let ghost fv = views(folders@);
    let mut k: usize = 0;
    while k < folders.len()
        invariant
            k <= folders@.len(),
            platform == Platform::Windows,
            low@ == lowercase(exe@),
            fv == views(folders@),
            forall|i: int|
                0 <= i < k ==> !((#[trigger] fv[i]).len() > 0 && begins(
                    lowercase(exe@),
                    lowercase(fv[i]),
                )),
        decreases folders.len() - k,
    {
        assert(fv[k as int] == folders@[k as int]@);
        let f = folders[k].as_str();
        if !f.is_empty() {
            let lf = to_lower(f);
            if starts_with(low.as_str(), lf.as_str()) {
                assert(fv[k as int].len() > 0 && begins(lowercase(exe@), lowercase(fv[k as int])));
                return true;
            }
        }
        k = k + 1;
    }
    false
}

/// Whether an application bundle holds the editor: on a Mac, where the program that the windows
/// are made from lies in one.
pub fn is_app_bundle_install(platform: Platform, canonical: &str) -> (r: bool)
    ensures
        r == (platform == Platform::MacOs && holds(canonical@, "/Aether.app/Contents/MacOS/"@)),
{
    match platform {
        Platform::MacOs => contains(canonical, "/Aether.app/Contents/MacOS/"),
        _ => false,
    }
}

/// Whether something else than the editor itself must replace its file.
pub fn is_managed_install(
    platform: Platform,
    owned: bool,
    exe: &str,
    folders: &Vec<String>,
    canonical: &str,
) -> (r: bool)
    ensures
        r == match platform {
            Platform::Linux => owned,
            Platform::Windows => is_below_any(exe@, views(folders@)),
            Platform::MacOs => holds(canonical@, "/Aether.app/Contents/MacOS/"@),
            Platform::Other => false,
        },
{
    is_apt_install(platform, owned) || is_program_files_install(platform, exe, folders)
        || is_app_bundle_install(platform, canonical)
}

/// How an update is installed.
#[derive(Clone, Copy, PartialEq, Eq, Debug, Structural)]
pub enum Install {
    /// By the system's packages.
    Packages,
    /// By running the installer.
    Installer,
    /// By putting a fresh bundle in place.
    Bundle,
    /// By replacing the program's file.
    Replace,
}

/// How an update of an editor that is managed is installed.
pub fn install_managed_async(platform: Platform, canonical: &str) -> (r: Install)
    ensures
        r == match platform {
            Platform::Linux => Install::Packages,
            Platform::Windows => Install::Installer,
            Platform::MacOs => if holds(canonical@, "/Aether.app/Contents/MacOS/"@) {
                Install::Bundle
            } else {
                Install::Replace
            },
            Platform::Other => Install::Replace,
        },
{
    match platform {
        Platform::Linux => Install::Packages,
        Platform::Windows => Install::Installer,
        Platform::MacOs => if is_app_bundle_install(platform, canonical) {
            Install::Bundle
        } else {
            Install::Replace
        },
        Platform::Other => Install::Replace,
    }
}

/// A file of the latest release.
pub open spec fn download_address(file: Seq<char>) -> Seq<char> {
    "https://github.com/actuallyroy/aether-editor/releases/latest/download/"@ + file
}

fn download_url(file: &str) -> (r: String)
    ensures
        r@ == download_address(file@),
{
    let mut s = "https://github.com/actuallyroy/aether-editor/releases/latest/download/".to_owned();
    s.append(file);
    s
}

/// Where the installer for Windows is.
pub fn installer_url() -> (r: String)
    ensures
        r@ == download_address("aether-windows-setup-x86_64.exe"@),
{
    download_url("aether-windows-setup-x86_64.exe")
}

/// Where the bundle for the Mac is.
pub fn bundle_url() -> (r: String)
    ensures
        r@ == download_address("Aether-macos-arm64.dmg"@),
{
    download_url("Aether-macos-arm64.dmg")
}

/// The longest path of at most the first `n` components that has the extension "app".
pub open spec fn bundle_above(parts: Seq<Seq<char>>, n: int) -> Option<Seq<char>>
    decreases n,
{
    if n <= 0 {
        None
    } else if extension_of(rebuilt(parts, n)) == Some("app"@) {
        Some(rebuilt(parts, n))
    } else {
        bundle_above(parts, n - 1)
    }
}

/// The bundle that a program lies in: the nearest folder above it that is one.
pub fn enclosing_bundle(exe: &str) -> (r: Option<String>)
    ensures
        opt_view(r) == bundle_above(components(exe@), components(exe@).len() as int),
{
    let parts = component_list(exe);
    let ghost pv = views(parts@);
    assert(pv.len() == parts@.len());
    let mut n: usize = parts.len();
    while n > 0
        invariant
            n <= parts@.len(),
            pv == views(parts@),
            pv == components(exe@),
            bundle_above(pv, n as int) == bundle_above(pv, pv.len() as int),
        decreases n,
    {
        let p = rebuild(&parts, n);
        if let Some(e) = extension(p.as_str()) {
            if same(e.as_str(), "app") {
                return Some(p);
            }
        }
        n = n - 1;
    }
    None
}

/// The version of a release is its tag without the marks in front.
pub proof fn law_versions_are_tags_without_marks(s: Seq<char>)
    ensures
        s.len() == 0 || s[0] != 'v' ==> release_version(s) == s,
        release_version(seq!['v'] + s) == release_version(s),
{
    reveal_strlit("v");
    assert("v"@ =~= seq!['v']);
    if begins(s, "v"@) {
        assert(s.subrange(0, 1)[0] == s[0]);
    }
    let t = seq!['v'] + s;
    assert(t.subrange(0, 1) =~= "v"@);
    assert(t.skip(1) =~= s);
}

/// Only the newest release is offered, and only where it is newer than what runs.
pub proof fn law_newest_release_is_offered(current: Seq<char>, tags: Seq<Seq<char>>)
    ensures
        tags.len() == 0 ==> newer(current, tags) is None,
        tags.len() > 0 && bump(current, release_version(tags[0])) == Some(true) ==> newer(current, tags)
            == Some(release_version(tags[0])),
        tags.len() > 0 && bump(current, release_version(tags[0])) != Some(true) ==> newer(current, tags) is None,
{
}

/// The bundle around a program is the innermost folder above it, or it itself, that ends in `app`.
pub proof fn law_innermost_bundle_is_found(parts: Seq<Seq<char>>, n: int, k: int)
    requires
        0 <= k <= n <= parts.len(),
        k > 0 ==> extension_of(rebuilt(parts, k)) == Some("app"@),
        forall|j: int| k < j <= n ==> extension_of(#[trigger] rebuilt(parts, j)) != Some("app"@),
    ensures
        k > 0 ==> bundle_above(parts, n) == Some(rebuilt(parts, k)),
        k == 0 ==> bundle_above(parts, n) is None,
    decreases n,
{
    if k < n {
        assert(extension_of(rebuilt(parts, n)) != Some("app"@));
        law_innermost_bundle_is_found(parts, n - 1, k);
    }
}

} // verus!
