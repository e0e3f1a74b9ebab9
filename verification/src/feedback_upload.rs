//! Feedback with a picture: how the picture is sent, and how the issue is filed.

use crate::json::parse;
use crate::json::parse_problem;
use crate::json::problem;
use crate::json::read;
use crate::json::Tree;
use crate::text::from_utf8_lossy;
use crate::text::lossy_text;
use crate::text::trim;
use crate::text::trimmed;
use crate::text::views;
use crate::voice::outcome_view;
use vstd::prelude::*;
use vstd::string::StringSliceAdditionalSpecFns;
use vstd::utf8::encode_utf8;

verus! {

/// What parts the pieces of the body that carries the picture.
pub open spec fn boundary() -> Seq<char> {
    "----novaFeedbackBoundary7MA4YWxkTrZu0gW"@
}

/// What stands before the picture: the preset, and the head of the file.
pub open spec fn body_head() -> Seq<u8> {
    encode_utf8("--"@) + encode_utf8(boundary()) + encode_utf8(
        "\r\nContent-Disposition: form-data; name=\"upload_preset\"\r\n\r\nml_default\r\n--"@,
    ) + encode_utf8(boundary()) + encode_utf8(
        "\r\nContent-Disposition: form-data; name=\"file\"; filename=\"screenshot.png\"\r\nContent-Type: image/png\r\n\r\n"@,
    )
}

/// What stands behind the picture.
pub open spec fn body_tail() -> Seq<u8> {
    encode_utf8("\r\n--"@) + encode_utf8(boundary()) + encode_utf8("--\r\n"@)
}

fn push_text(body: &mut Vec<u8>, s: &str)
    ensures
        final(body)@ == old(body)@ + encode_utf8(s@),
{
    let ghost before = body@;
    let all = s.as_bytes();
    assert(all@ == s.spec_bytes());
    let mut k: usize = 0;
    assert(body@ =~= before + all@.take(0));
    while k < all.len()
        invariant
            k <= all@.len(),
            body@ == before + all@.take(k as int),
        decreases all.len() - k,
    {
        body.push(all[k]);
        assert(all@.take(k + 1) =~= all@.take(k as int).push(all@[k as int]));
        assert(body@ =~= before + all@.take(k + 1));
        k = k + 1;
    }
    assert(all@.take(k as int) =~= all@);
}

/// The body that carries a picture.
pub fn upload_body(png: &Vec<u8>) -> (r: Vec<u8>)
    ensures
        r@ == body_head() + png@ + body_tail(),
{
    let mut body: Vec<u8> = Vec::new();
    push_text(&mut body, "--");
    push_text(&mut body, "----novaFeedbackBoundary7MA4YWxkTrZu0gW");
    push_text(
        &mut body,
        "\r\nContent-Disposition: form-data; name=\"upload_preset\"\r\n\r\nml_default\r\n--",
    );
    push_text(&mut body, "----novaFeedbackBoundary7MA4YWxkTrZu0gW");
    push_text(
        &mut body,
        "\r\nContent-Disposition: form-data; name=\"file\"; filename=\"screenshot.png\"\r\nContent-Type: image/png\r\n\r\n",
    );
    assert(body@ =~= body_head());
    let ghost head = body@;
    let mut k: usize = 0;
    assert(body@ =~= head + png@.take(0));
    while k < png.len()
        invariant
            k <= png@.len(),
            body@ == head + png@.take(k as int),
        decreases png.len() - k,
    {
        body.push(png[k]);
        assert(png@.take(k + 1) =~= png@.take(k as int).push(png@[k as int]));
        assert(body@ =~= head + png@.take(k + 1));
        k = k + 1;
    }
    assert(png@.take(k as int) =~= png@);
    push_text(&mut body, "\r\n--");
    push_text(&mut body, "----novaFeedbackBoundary7MA4YWxkTrZu0gW");
    push_text(&mut body, "--\r\n");
    assert(body@ =~= body_head() + png@ + body_tail());
    body
}

/// The picture stands in the body as it is.
pub proof fn law_body_carries_the_picture(png: Seq<u8>)
    ensures
        (body_head() + png + body_tail()).subrange(
            body_head().len() as int,
            (body_head().len() + png.len()) as int,
        ) == png,
{
    let h = body_head();
    assert((h + png + body_tail()).subrange(h.len() as int, (h.len() + png.len()) as int) =~= png);
}

/// The type of the body.
pub fn upload_type() -> (r: String)
    ensures
        r@ == "multipart/form-data; boundary="@ + boundary(),
{
    let mut s = "multipart/form-data; boundary=".to_owned();
    s.append("----novaFeedbackBoundary7MA4YWxkTrZu0gW");
    s
}

/// Where the picture is sent.
pub fn upload_url() -> (r: &'static str)
    ensures
        r@ == "https://api.cloudinary.com/v1_1/dzgwjgtyv/image/upload"@,
{
    "https://api.cloudinary.com/v1_1/dzgwjgtyv/image/upload"
}

/// Where the picture can be seen, from the answer to it; or what was wrong.
pub open spec fn uploaded(doc: Option<Tree>, wrong: Option<Seq<char>>) -> Result<
    Seq<char>,
    Seq<char>,
> {
    match doc {
        Some(v) => match v.str_at("secure_url"@) {
            Some(url) => Ok(url),
            None => Err("no secure_url in upload response"@),
        },
        None => Err(
            "bad upload JSON: "@ + match wrong {
                Some(w) => w,
                None => ""@,
            },
        ),
    }
}

/// Reads where the picture can be seen from the answer to it.
pub fn read_upload(text: &str) -> (r: Result<String, String>)
    ensures
        outcome_view(r) == uploaded(read(text@), problem(text@)),
{
    match parse(text) {
        Some(v) => match v.str_at("secure_url") {
            Some(url) => Ok(url.to_owned()),
            None => Err("no secure_url in upload response".to_owned()),
        },
        None => {
            let mut m = "bad upload JSON: ".to_owned();
            if let Some(w) = parse_problem(text) {
                m.append(w.as_str());
            }
            Err(m)
        },
    }
}

/// The text of an issue with its picture. One that could not be sent does not stop the issue:
/// the text says so.
pub open spec fn issue_text(
    body: Seq<char>,
    picture: Option<Result<Seq<char>, Seq<char>>>,
) -> Seq<char> {
    match picture {
        Some(Ok(url)) => body + "\n\n### Screenshot\n\n![screenshot]("@ + url + ")"@,
        Some(Err(e)) => body + "\n\n_(screenshot upload failed: "@ + e + ")_"@,
        None => body,
    }
}

/// The content of a picture that was sent or not.
pub open spec fn picture_view(p: Option<Result<String, String>>) -> Option<
    Result<Seq<char>, Seq<char>>,
> {
    match p {
        Some(r) => Some(outcome_view(r)),
        None => None,
    }
}

/// The text of an issue with its picture.
pub fn issue_body(body: &str, picture: &Option<Result<String, String>>) -> (r: String)
    ensures
        r@ == issue_text(body@, picture_view(*picture)),
{
    let mut s = body.to_owned();
    match picture {
        Some(Ok(url)) => {
            s.append("\n\n### Screenshot\n\n![screenshot](");
            s.append(url.as_str());
            s.append(")");
        },
        Some(Err(e)) => {
            s.append("\n\n_(screenshot upload failed: ");
            s.append(e.as_str());
            s.append(")_");
        },
        None => {},
    }
    s
}

/// The arguments with which an issue is filed.
pub fn issue_args(title: &str, body: &str) -> (r: Vec<String>)
    ensures
        views(r@) == seq![
            "issue"@,
            "create"@,
            "--repo"@,
            "actuallyroy/nova-editor"@,
            "--title"@,
            title@,
            "--body"@,
            body@,
        ],
{
    let mut v: Vec<String> = Vec::new();
    v.push("issue".to_owned());
    v.push("create".to_owned());
    v.push("--repo".to_owned());
    v.push("actuallyroy/nova-editor".to_owned());
    v.push("--title".to_owned());
    v.push(title.to_owned());
    v.push("--body".to_owned());
    v.push(body.to_owned());
    assert(views(v@) =~= seq![
        "issue"@,
        "create"@,
        "--repo"@,
        "actuallyroy/nova-editor"@,
        "--title"@,
        title@,
        "--body"@,
        body@,
    ]);
    v
}

/// How the program that files issues ended.
pub enum Filing {
    /// It ran: whether it succeeded, and what it wrote.
    Ran { success: bool, out: Vec<u8>, err: Vec<u8> },
    /// It did not run.
    Failed { message: String },
}

/// Where the issue is, or why there is none.
pub fn filed(run: &Filing) -> (r: Result<String, String>)
    ensures
        outcome_view(r) == match run {
            Filing::Ran { success, out, err } => if *success {
                Ok::<Seq<char>, Seq<char>>(trimmed(lossy_text(out@)))
            } else {
                Err(trimmed(lossy_text(err@)))
            },
            Filing::Failed { message } => Err(message@),
        },
{
    match run {
        Filing::Ran { success, out, err } => if *success {
            Ok(trim(from_utf8_lossy(out).as_str()))
        } else {
            Err(trim(from_utf8_lossy(err).as_str()))
        },
        Filing::Failed { message } => Err(message.as_str().to_owned()),
    }
}

/// An uploaded picture is known by the address that the answer gives; an answer without one is an
/// error.
pub proof fn law_pictures_are_known_by_their_address(v: Tree, url: Seq<char>)
    ensures
        v.get("secure_url"@) == Some(Tree::Str(url)) ==> uploaded(Some(v), None) == Ok::<
            Seq<char>,
            Seq<char>,
        >(url),
        v.get("secure_url"@) is None ==> uploaded(Some(v), None) is Err,
        uploaded(None, Some(url)) is Err,
{
}

/// A report begins with what was written; a picture is shown at its end, and where it could not be
/// uploaded the reason stands there.
pub proof fn law_reports_begin_with_their_text(body: Seq<char>, url: Seq<char>, e: Seq<char>)
    ensures
        issue_text(body, None) == body,
        crate::text::begins(issue_text(body, Some(Ok(url))), body),
        crate::text::holds(issue_text(body, Some(Ok(url))), url),
        crate::text::begins(issue_text(body, Some(Err(e))), body),
        crate::text::holds(issue_text(body, Some(Err(e))), e),
{
    let a = issue_text(body, Some(Ok(url)));
    let b = issue_text(body, Some(Err(e)));
    assert(a.subrange(0, body.len() as int) =~= body);
    assert(b.subrange(0, body.len() as int) =~= body);
    let at = (body + "\n\n### Screenshot\n\n![screenshot]("@).len() as int;
    assert(a.subrange(at, at + url.len()) =~= url);
    assert(crate::text::occurs_at(a, url, at));
    let to = (body + "\n\n_(screenshot upload failed: "@).len() as int;
    assert(b.subrange(to, to + e.len()) =~= e);
    assert(crate::text::occurs_at(b, e, to));
}

} // verus!
