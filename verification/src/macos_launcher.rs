//! The bundles through which a folder is opened on a Mac, so that its window goes under the
//! folder's own name.

use crate::json::lemma_same_member;
use crate::json::opt_text;
use crate::json::parse;
use crate::json::plain;
use crate::json::printed;
use crate::json::read;
use crate::json::reads_as;
use crate::json::trees;
use crate::json::Json;
use crate::json::ObjectBuilder;
use crate::json::Tree;
use crate::json::MAX_DEPTH;
use crate::paths::base_name;
use crate::paths::extension;
use crate::paths::extension_of;
use crate::paths::file_name;
use crate::paths::join;
use crate::paths::joined_path;
use crate::paths::parent;
use crate::paths::parent_of;
use crate::text::chars_of;
use crate::text::hex;
use crate::text::lemma_replaced_clears;
use crate::text::lemma_replaced_lacks;
use crate::text::opt_view;
use crate::text::replace;
use crate::text::replace_first;
use crate::text::replaced;
use crate::text::replaced_first;
use crate::text::same;
use crate::text::write_hex;
use vstd::prelude::*;

verus! {

/// Where the bundles are, below a home folder.
pub open spec fn launchers_of(home: Seq<char>) -> Seq<char> {
    joined_path(home, "Library/Application Support/Aether/launchers"@)
}

/// Where the bundles are, below a home folder.
pub fn launchers_dir(home: &str) -> (r: String)
    ensures
        r@ == launchers_of(home@),
{
    join(home, "Library/Application Support/Aether/launchers")
}

/// The name that tells the bundles of folders with one name apart, from a number that stands
/// for the folder.
pub fn bundle_id(hash: u64) -> (r: String)
    ensures
        r@ == hex(hash as nat, 16),
{
    write_hex(hash, 16)
}

/// What stands a number of folders above a path.
pub open spec fn above(p: Seq<char>, n: nat) -> Option<Seq<char>>
    decreases n,
{
    if n == 0 {
        Some(p)
    } else {
        match above(p, (n - 1) as nat) {
            Some(q) => parent_of(q),
            None => None,
        }
    }
}

fn up(p: &str, n: u32) -> (r: Option<String>)
    ensures
        opt_view(r) == above(p@, n as nat),
{
    let mut cur = p.to_owned();
    let mut k: u32 = 0;
    while k < n
        invariant
            k <= n,
            above(p@, k as nat) == Some(cur@),
        decreases n - k,
    {
        match parent(cur.as_str()) {
            Some(q) => {
                cur = q;
            },
            None => {
                proof {
                    lemma_nothing_above(p@, (k + 1) as nat, n as nat);
                }
                return None;
            },
        }
        k = k + 1;
    }
    Some(cur)
}

proof fn lemma_nothing_above(p: Seq<char>, k: nat, n: nat)
    requires
        k <= n,
        above(p, k) is None,
    ensures
        above(p, n) is None,
    decreases n,
{
    if k < n {
        lemma_nothing_above(p, k, (n - 1) as nat);
    }
}

/// The bundle of a folder that a program was started from: the program lies three below it, and
/// it lies two below the folder "launchers".
pub open spec fn bundle_of(exe: Seq<char>) -> Option<Seq<char>> {
    match above(exe, 3) {
        Some(app) => if extension_of(app) == Some("app"@) && (match above(app, 2) {
            Some(top) => base_name(top) == Some("launchers"@),
            None => false,
        }) {
            Some(app)
        } else {
            None
        },
        None => None,
    }
}

/// The bundle of a folder that a program was started from.
pub fn current_bundle(exe: &str) -> (r: Option<String>)
    ensures
        opt_view(r) == bundle_of(exe@),
{
    let app = match up(exe, 3) {
        Some(a) => a,
        None => {
            return None;
        },
    };
    let is_app = match extension(app.as_str()) {
        Some(e) => same(e.as_str(), "app"),
        None => false,
    };
    let in_launchers = match up(app.as_str(), 2) {
        Some(top) => match file_name(top.as_str()) {
            Some(n) => same(n.as_str(), "launchers"),
            None => false,
        },
        None => false,
    };
    if in_launchers && is_app {
        Some(app)
    } else {
        None
    }
}

/// Where a bundle tells its folder.
pub fn launch_info_path(bundle: &str) -> (r: String)
    ensures
        r@ == joined_path(bundle@, "Contents/Resources/launch.json"@),
{
    join(bundle, "Contents/Resources/launch.json")
}

/// What a bundle tells: its folder, and the program that it stands for.
pub open spec fn launch_tree(folder: Seq<char>, exe: Seq<char>) -> Tree {
    Tree::Obj(seq![("folder"@, Tree::Str(folder)), ("real_exe"@, Tree::Str(exe))])
}

/// The folder and the program that a bundle tells, by their names or as a list of the two;
/// nothing where one of them is missing.
pub open spec fn launch_of(doc: Option<Tree>) -> Option<(Seq<char>, Seq<char>)> {
    match doc {
        Some(Tree::Arr(v)) => if v.len() == 2 {
            match (v[0], v[1]) {
                (Tree::Str(folder), Tree::Str(exe)) => Some((folder, exe)),
                _ => None,
            }
        } else {
            None
        },
        Some(v) => match (v.str_at("folder"@), v.str_at("real_exe"@)) {
            (Some(folder), Some(exe)) => Some((folder, exe)),
            _ => None,
        },
        None => None,
    }
}

/// The content of a folder and a program.
pub open spec fn pair_view(o: Option<(String, String)>) -> Option<(Seq<char>, Seq<char>)> {
    match o {
        Some((a, b)) => Some((a@, b@)),
        None => None,
    }
}

/// Reads what a bundle tells.
pub fn read_launch(text: &str) -> (r: Option<(String, String)>)
    ensures
        pair_view(r) == launch_of(read(text@)),
{
    match parse(text) {
        Some(Json::Arr(v)) => {
            proof {
                assert(Json::Arr(v)@->Arr_0 =~= trees(v@));
            }
            if v.len() != 2 {
                return None;
            }
            assert(trees(v@)[0] == v@[0]@ && trees(v@)[1] == v@[1]@);
            match (&v[0], &v[1]) {
                (Json::Str(folder), Json::Str(exe)) => Some(
                    (folder.as_str().to_owned(), exe.as_str().to_owned()),
                ),
                _ => None,
            }
        },
        Some(v) => match (v.str_at("folder"), v.str_at("real_exe")) {
            (Some(folder), Some(exe)) => Some((folder.to_owned(), exe.to_owned())),
            _ => None,
        },
        None => None,
    }
}

/// What a bundle is made to tell. The folder and the program are read back from it.
pub fn write_launch(folder: &str, exe: &str) -> (r: String)
    ensures
        r@ == printed(launch_tree(folder@, exe@)),
        launch_of(read(r@)) == Some((folder@, exe@)),
{
    let mut b = ObjectBuilder::new();
    b.put_str("folder", folder);
    b.put_str("real_exe", exe);
    assert(b@ =~= launch_tree(folder@, exe@)->Obj_0);
    let r = b.build().to_text();
    proof {
        lemma_launch_survives(folder@, exe@, r@);
    }
    r
}

proof fn lemma_launch_survives(folder: Seq<char>, exe: Seq<char>, text: Seq<char>)
    requires
        plain(launch_tree(folder, exe), MAX_DEPTH as int) ==> reads_as(
            text,
            launch_tree(folder, exe),
        ),
    ensures
        launch_of(read(text)) == Some((folder, exe)),
{
    reveal_strlit("folder");
    reveal_strlit("real_exe");
    assert("folder"@.len() == 6 && "real_exe"@.len() == 8);
    let t = launch_tree(folder, exe);
    let m = t->Obj_0;
    assert(m[0].0 == "folder"@ && m[1].0 == "real_exe"@);
    assert(forall|i: int| 0 <= i < m.len() ==> plain((#[trigger] m[i]).1, MAX_DEPTH - 1));
    assert(plain(t, MAX_DEPTH as int));
    let x = read(text)->0;
    lemma_same_member(t, x, "folder"@);
    lemma_same_member(t, x, "real_exe"@);
    assert(crate::json::member_from(m, "folder"@, 0) == 0);
    assert(crate::json::member_from(m, "real_exe"@, 1) == 1);
    assert(crate::json::member_from(m, "real_exe"@, 0) == 1);
}

/// The folder and the program that a bundle tells; nothing where it could not be read.
pub open spec fn told_launch(told: Option<Seq<char>>) -> Option<(Seq<char>, Seq<char>)> {
    match told {
        Some(text) => launch_of(read(text)),
        None => None,
    }
}

/// The folder to open at the start: that of the bundle that the program was started from, where
/// it tells one. What the bundle tells is `None` where it could not be read.
pub fn startup_workspace(exe: &str, told: Option<&str>) -> (r: Option<String>)
    ensures
        opt_view(r) == match (bundle_of(exe@), told_launch(opt_text(told))) {
            (Some(_), Some((folder, _))) => Some(folder),
            _ => None,
        },
{
    if current_bundle(exe).is_none() {
        return None;
    }
    match told {
        Some(text) => match read_launch(text) {
            Some((folder, _)) => Some(folder),
            None => None,
        },
        None => None,
    }
}

/// The program that windows are made from: the one that the bundle stands for, or the one that
/// runs; "aether" where even that is not known.
pub fn canonical_exe(exe: Option<&str>, told: Option<&str>) -> (r: String)
    ensures
        r@ == match exe {
            Some(e) => match (bundle_of(e@), told_launch(opt_text(told))) {
                (Some(_), Some((_, origin))) => origin,
                _ => e@,
            },
            None => "aether"@,
        },
{
    match exe {
        Some(e) => {
            if current_bundle(e).is_some() {
                if let Some(text) = told {
                    if let Some((_, origin)) = read_launch(text) {
                        return origin;
                    }
                }
            }
            e.to_owned()
        },
        None => "aether".to_owned(),
    }
}

/// The name that a folder's window goes under.
pub open spec fn window_name(folder: Seq<char>) -> Seq<char> {
    (match base_name(folder) {
        Some(n) => if n.len() > 0 {
            n
        } else {
            "Aether"@
        },
        None => "Aether"@,
    }) + " - Aether"@
}

/// The name that a folder's window goes under.
pub fn bundle_name(folder: &str) -> (r: String)
    ensures
        r@ == window_name(folder@),
{
    let mut s = match file_name(folder) {
        Some(n) => if n.as_str().is_empty() {
            "Aether".to_owned()
        } else {
            n
        },
        None => "Aether".to_owned(),
    };
    s.append(" - Aether");
    s
}

/// A name as the name of a file.
pub open spec fn safe_name(s: Seq<char>) -> Seq<char> {
    Seq::new(
        s.len(),
        |i: int|
            if s[i] == ':' || s[i] == '/' {
                '-'
            } else {
                s[i]
            },
    )
}

/// A name as the name of a file: what would part folders becomes a dash.
pub fn fs_safe(s: &str) -> (r: String)
    ensures
        r@ == safe_name(s@),
{
    let v = chars_of(s);
    let ghost want = safe_name(s@);
    let mut out = String::new();
    let mut k: usize = 0;
    assert(out@ =~= want.take(0));
    while k < v.len()
        invariant
            k <= v@.len(),
            v@ == s@,
            want == safe_name(s@),
            out@ == want.take(k as int),
        decreases v.len() - k,
    {
        if v[k] == ':' || v[k] == '/' {
            out.push('-');
        } else {
            out.push(v[k]);
        }
        assert(want.take(k + 1) =~= want.take(k as int).push(want[k as int]));
        k = k + 1;
    }
    assert(want.take(k as int) =~= want);
    out
}

/// Where the bundle of a folder is.
pub open spec fn bundle_place(home: Seq<char>, folder: Seq<char>, id: Seq<char>) -> Seq<char> {
    joined_path(joined_path(launchers_of(home), id), safe_name(window_name(folder)) + ".app"@)
}

/// Where the bundle of a folder is.
pub fn bundle_path(home: &str, folder: &str, id: &str) -> (r: String)
    ensures
        r@ == bundle_place(home@, folder@, id@),
{
    let mut name = fs_safe(bundle_name(folder).as_str());
    name.append(".app");
    join(join(launchers_dir(home).as_str(), id).as_str(), name.as_str())
}

/// A text as it can stand between the tags of a document.
pub open spec fn escaped(s: Seq<char>) -> Seq<char> {
    replaced(replaced(replaced(s, "&"@, "&amp;"@), "<"@, "&lt;"@), ">"@, "&gt;"@)
}

/// A text as it can stand between the tags of a document.
pub fn xml_escape(s: &str) -> (r: String)
    ensures
        r@ == escaped(s@),
{
    proof {
        reveal_strlit("&");
        reveal_strlit("<");
        reveal_strlit(">");
    }
    let a = replace(s, "&", "&amp;");
    let b = replace(a.as_str(), "<", "&lt;");
    replace(b.as_str(), ">", "&gt;")
}

/// A text that was escaped opens and closes no tag.
pub proof fn law_escaped_has_no_tags(s: Seq<char>)
    ensures
        forall|j: int| 0 <= j < escaped(s).len() ==> escaped(s)[j] != '<' && escaped(s)[j] != '>',
{
    reveal_strlit("&");
    reveal_strlit("&amp;");
    reveal_strlit("<");
    reveal_strlit("&lt;");
    reveal_strlit(">");
    reveal_strlit("&gt;");
    assert("<"@ =~= seq!['<']);
    assert(">"@ =~= seq!['>']);
    let a = replaced(s, "&"@, "&amp;"@);
    let b = replaced(a, "<"@, "&lt;"@);
    lemma_replaced_clears(a, '<', "&lt;"@, 0);
    lemma_replaced_lacks(b, ">"@, "&gt;"@, 0, '<');
    lemma_replaced_clears(b, '>', "&gt;"@, 0);
}

/// The description of a bundle.
pub open spec fn plist_text(name: Seq<char>, id: Seq<char>, version: Seq<char>) -> Seq<char> {
    "<?xml version=\"1.0\" encoding=\"UTF-8\"?>\n<!DOCTYPE plist PUBLIC \"-//Apple//DTD PLIST 1.0//EN\" \"http://www.apple.com/DTDs/PropertyList-1.0.dtd\">\n<plist version=\"1.0\">\n<dict>\n\t<key>CFBundleName</key><string>"@
        + escaped(name) + "</string>\n\t<key>CFBundleDisplayName</key><string>"@ + escaped(name)
        + "</string>\n\t<key>CFBundleExecutable</key><string>aether</string>\n\t<key>CFBundleIdentifier</key><string>dev.aether.launcher."@
        + id
        + "</string>\n\t<key>CFBundleIconFile</key><string>icon</string>\n\t<key>CFBundlePackageType</key><string>APPL</string>\n\t<key>CFBundleInfoDictionaryVersion</key><string>6.0</string>\n\t<key>CFBundleShortVersionString</key><string>"@
        + version
        + "</string>\n\t<key>LSMinimumSystemVersion</key><string>11.0</string>\n\t<key>NSHighResolutionCapable</key><true/>\n</dict>\n</plist>\n"@
}

/// The description of the bundle of a folder.
pub fn plist(folder: &str, id: &str, version: &str) -> (r: String)
    ensures
        r@ == plist_text(window_name(folder@), id@, version@),
{
    let name = xml_escape(bundle_name(folder).as_str());
    let mut s =
        "<?xml version=\"1.0\" encoding=\"UTF-8\"?>\n<!DOCTYPE plist PUBLIC \"-//Apple//DTD PLIST 1.0//EN\" \"http://www.apple.com/DTDs/PropertyList-1.0.dtd\">\n<plist version=\"1.0\">\n<dict>\n\t<key>CFBundleName</key><string>".to_owned();
    s.append(name.as_str());
    s.append("</string>\n\t<key>CFBundleDisplayName</key><string>");
    s.append(name.as_str());
    s.append(
        "</string>\n\t<key>CFBundleExecutable</key><string>aether</string>\n\t<key>CFBundleIdentifier</key><string>dev.aether.launcher.",
    );
    s.append(id);
    s.append(
        "</string>\n\t<key>CFBundleIconFile</key><string>icon</string>\n\t<key>CFBundlePackageType</key><string>APPL</string>\n\t<key>CFBundleInfoDictionaryVersion</key><string>6.0</string>\n\t<key>CFBundleShortVersionString</key><string>",
    );
    s.append(version);
    s.append(
        "</string>\n\t<key>LSMinimumSystemVersion</key><string>11.0</string>\n\t<key>NSHighResolutionCapable</key><true/>\n</dict>\n</plist>\n",
    );
    s
}

/// Whether the program in a bundle has to be linked anew: files are told by their device and
/// their number there, and nothing is told of one that cannot be looked at.
pub fn needs_link(linked: Option<(u64, u64)>, origin: Option<(u64, u64)>) -> (r: bool)
    ensures
        r == !(linked is Some && origin is Some && linked->0 == origin->0),
{
    match (linked, origin) {
        (Some(a), Some(b)) => !(a.0 == b.0 && a.1 == b.1),
        _ => true,
    }
}

/// The letter of a badge inside the picture of the editor.
pub open spec fn badge_text(letter: char) -> Seq<char> {
    "<g><circle cx=\"384\" cy=\"384\" r=\"114\" fill=\"#0D1117\"/><circle cx=\"384\" cy=\"384\" r=\"96\" fill=\"url(#novaGradient)\"/><text x=\"384\" y=\"428\" text-anchor=\"middle\" font-family=\"Helvetica Neue, Helvetica, Arial, sans-serif\" font-size=\"130\" font-weight=\"700\" fill=\"#FFFFFF\">"@
        + escaped(seq![letter]) + "</text></g></svg>"@
}

/// The picture of the editor with a badge that shows a letter.
pub fn compose_svg(logo: &str, letter: char) -> (r: String)
    ensures
        r@ == replaced_first(logo@, "</svg>"@, badge_text(letter)),
{
    let mut one = String::new();
    one.push(letter);
    assert(one@ =~= seq![letter]);
    let mut badge =
        "<g><circle cx=\"384\" cy=\"384\" r=\"114\" fill=\"#0D1117\"/><circle cx=\"384\" cy=\"384\" r=\"96\" fill=\"url(#novaGradient)\"/><text x=\"384\" y=\"428\" text-anchor=\"middle\" font-family=\"Helvetica Neue, Helvetica, Arial, sans-serif\" font-size=\"130\" font-weight=\"700\" fill=\"#FFFFFF\">".to_owned();
    badge.append(xml_escape(one.as_str()).as_str());
    badge.append("</text></g></svg>");
    replace_first(logo, "</svg>", badge.as_str())
}

/// How many pictures make an icon.
pub const ICON_COUNT: usize = 10;

/// The size and the name of the `k`-th picture of an icon.
pub open spec fn icon_part(k: int) -> (u32, Seq<char>) {
    if k == 0 {
        (16, "icon_16x16.png"@)
    } else if k == 1 {
        (32, "icon_16x16@2x.png"@)
    } else if k == 2 {
        (32, "icon_32x32.png"@)
    } else if k == 3 {
        (64, "icon_32x32@2x.png"@)
    } else if k == 4 {
        (128, "icon_128x128.png"@)
    } else if k == 5 {
        (256, "icon_128x128@2x.png"@)
    } else if k == 6 {
        (256, "icon_256x256.png"@)
    } else if k == 7 {
        (512, "icon_256x256@2x.png"@)
    } else if k == 8 {
        (512, "icon_512x512.png"@)
    } else {
        (1024, "icon_512x512@2x.png"@)
    }
}

/// The size and the name of the `k`-th picture of an icon.
pub fn icon_size(k: usize) -> (r: (u32, &'static str))
    requires
        k < ICON_COUNT,
    ensures
        (r.0, r.1@) == icon_part(k as int),
{
    match k {
        0 => (16, "icon_16x16.png"),
        1 => (32, "icon_16x16@2x.png"),
        2 => (32, "icon_32x32.png"),
        3 => (64, "icon_32x32@2x.png"),
        4 => (128, "icon_128x128.png"),
        5 => (256, "icon_128x128@2x.png"),
        6 => (256, "icon_256x256.png"),
        7 => (512, "icon_256x256@2x.png"),
        8 => (512, "icon_512x512.png"),
        _ => (1024, "icon_512x512@2x.png"),
    }
}

/// The first of the capital letters that `char::to_uppercase` gives for a letter.
pub uninterp spec fn capital(c: char) -> char;

/// `char::to_uppercase`, the first letter of what it gives, which rests on the letter alone.
#[verifier::external_body]
fn capital_of(c: char) -> (r: char)
    ensures
        r == capital(c),
        'a' <= c <= 'z' ==> r as u32 == c as u32 - 32,
        'A' <= c <= 'Z' ==> r == c,
{
    c.to_uppercase().next().unwrap_or(c)
}

/// The letter on the badge of a folder.
pub fn badge_letter(folder: &str) -> (r: char)
    ensures
        r == match base_name(folder@) {
            Some(n) => if n.len() > 0 {
                capital(n[0])
            } else {
                'A'
            },
            None => 'A',
        },
{
    match file_name(folder) {
        Some(n) => {
            let v = chars_of(n.as_str());
            if v.len() > 0 {
                capital_of(v[0])
            } else {
                'A'
            }
        },
        None => 'A',
    }
}

/// The folder that the bundle found below an id tells: the first thing found there has to be a
/// bundle, and what it tells to be readable.
pub fn swept_folder(found: Option<&str>, told: Option<&str>) -> (r: Option<String>)
    ensures
        opt_view(r) == match (found, told_launch(opt_text(told))) {
            (Some(app), Some((folder, _))) => if extension_of(app@) == Some("app"@) {
                Some(folder)
            } else {
                None
            },
            _ => None,
        },
{
    match (found, told) {
        (Some(app), Some(text)) => {
            let is_app = match extension(app) {
                Some(e) => same(e.as_str(), "app"),
                None => false,
            };
            if is_app {
                match read_launch(text) {
                    Some((folder, _)) => Some(folder),
                    None => None,
                }
            } else {
                None
            }
        },
        _ => None,
    }
}

/// Whether a bundle is removed: its folder is gone, or it tells none.
pub fn is_stale(folder: Option<&str>, exists: bool) -> (r: bool)
    ensures
        r == (folder is None || !exists),
{
    folder.is_none() || !exists
}

/// A window is named after its folder.
pub proof fn law_windows_are_named_after_folders(dir: Seq<char>, name: Seq<char>)
    requires
        crate::workspace::is_name(name),
        name != "."@,
        name != ".."@,
    ensures
        window_name(joined_path(dir, name)) == name + " - Aether"@,
{
    crate::paths::law_joined_name_is_last(dir, name);
}

/// A name for a file has no colon and no slash, and is otherwise the name.
pub proof fn law_file_names_are_safe(s: Seq<char>, i: int)
    requires
        0 <= i < s.len(),
    ensures
        safe_name(s).len() == s.len(),
        !safe_name(s).contains(':'),
        !safe_name(s).contains('/'),
        s[i] != ':' && s[i] != '/' ==> safe_name(s)[i] == s[i],
        s[i] == ':' || s[i] == '/' ==> safe_name(s)[i] == '-',
{
}

} // verus!
