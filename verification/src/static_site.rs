use vstd::prelude::*;
use crate::decode::{url_decode, url_decoded};
use crate::json::Json;
use crate::text::{contains_text, has_text, same_text};

verus! {

broadcast use vstd::string::group_string_axioms;

/// The directory that holds the site's files and its manifest.
pub fn abs_path() -> (dir: String)
    ensures
        dir@ == "./maddie_website"@,
{
    String::from_str("./maddie_website")
}

/// The page a request asks for: its whole URL, percent-decoded; status 400
/// where it does not decode to UTF-8.
pub fn requested_page(url: &str) -> (r: Result<String, u16>)
    ensures
        r matches Ok(page) ==> url_decoded(url@) == Some(page@),
        r matches Err(s) ==> s == 400 && url_decoded(url@) is None,
{
    match url_decode(url) {
        Some(page) => Ok(page),
        None => Err(400),
    }
}

/// A file of the site to send: its path below the site's directory and its
/// MIME type.
pub struct PageFile {
    pub path: String,
    pub mime_type: String,
}

/// The value of the first header named exactly `Cookie`.
pub open spec fn first_cookie(headers: Seq<(String, String)>) -> Option<Seq<char>>
    decreases headers.len(),
{
    if headers.len() == 0 {
        None
    } else if headers[0].0@ == "Cookie"@ {
        Some(headers[0].1@)
    } else {
        first_cookie(headers.drop_first())
    }
}

/// The value of the first header named exactly `Cookie`, among the request's
/// headers given as (field, value) pairs.
pub fn cookie_header(headers: &Vec<(String, String)>) -> (r: Option<&String>)
    ensures
        r is None <==> first_cookie(headers@) is None,
        r matches Some(v) ==> first_cookie(headers@) == Some(v@),
{
    let n = headers.len();
    assert(headers@.subrange(0, n as int) == headers@);
    for i in 0..n
        invariant
            n == headers@.len(),
            first_cookie(headers@) == first_cookie(headers@.subrange(i as int, n as int)),
    {
        let ghost rest = headers@.subrange(i as int, n as int);
        assert(rest.drop_first() == headers@.subrange(i + 1, n as int));
        if same_text(headers[i].0.as_str(), "Cookie") {
            return Some(&headers[i].1);
        }
    }
    None
}

/// Which path member of a manifest entry names the file to send: the
/// `secondaryPath` where the entry has a `secondaryCondition` text that occurs
/// in the request's cookie, else the `defaultPath`; status 500 where the
/// condition is not a text.
pub open spec fn page_option(entry: Json, cookie: Option<Seq<char>>) -> Result<Seq<char>, u16> {
    match entry.member("secondaryCondition"@) {
        None => Ok("defaultPath"@),
        Some(c) => match c.text() {
            None => Err(500),
            Some(condition) => match cookie {
                Some(k) => if has_text(k, condition) {
                    Ok("secondaryPath"@)
                } else {
                    Ok("defaultPath"@)
                },
                None => Ok("defaultPath"@),
            },
        },
    }
}

/// The file a manifest entry names under `option` and the entry's MIME type;
/// status 500 where either is missing or not a text.
pub open spec fn page_file(entry: Json, option: Seq<char>) -> Result<(Seq<char>, Seq<char>), u16> {
    match (entry.member("mimeType"@), entry.member(option)) {
        (Some(m), Some(p)) => match (m.text(), p.text()) {
            (Some(mime), Some(path)) => Ok((path, mime)),
            _ => Err(500),
        },
        _ => Err(500),
    }
}

/// The answer to a request for `page`: 404 where the manifest has no entry
/// for it, else the file its entry names for the request's cookie.
pub open spec fn site_answer(manifest: Json, page: Seq<char>, cookie: Option<Seq<char>>) -> Result<(Seq<char>, Seq<char>), u16> {
    match manifest.member(page) {
        None => Err(404),
        Some(entry) => match page_option(entry, cookie) {
            Err(s) => Err(s),
            Ok(option) => page_file(entry, option),
        },
    }
}

/// The view of a result with a page file.
pub open spec fn page_view(r: Result<PageFile, u16>) -> Result<(Seq<char>, Seq<char>), u16> {
    match r {
        Ok(f) => Ok((f.path@, f.mime_type@)),
        Err(s) => Err(s),
    }
}

/// The file that a manifest entry names under `page_option` and the entry's
/// MIME type; status 500 where either is missing or not a text.
pub fn get_file(page_entry: &Json, page_option: &str) -> (r: Result<PageFile, u16>)
    ensures
        page_view(r) == page_file(*page_entry, page_option@),
{
    let mime_type = match page_entry.get("mimeType") {
        Some(m) => match m.as_str() {
            Some(t) => t.clone(),
            None => return Err(500),
        },
        None => return Err(500),
    };
    let path = match page_entry.get(page_option) {
        Some(p) => match p.as_str() {
            Some(t) => t.clone(),
            None => return Err(500),
        },
        None => return Err(500),
    };
    Ok(PageFile { path, mime_type })
}

/// Chooses the file that answers a request for `page`, given the site's
/// manifest and the request's headers: the manifest's entry for the page
/// names a default file and, for visitors whose cookie holds the entry's
/// secondary condition, another one.
pub fn site_request(manifest: &Json, page: &str, headers: &Vec<(String, String)>) -> (r: Result<PageFile, u16>)
    ensures
        page_view(r) == site_answer(*manifest, page@, first_cookie(headers@)),
{
    let entry = match manifest.get(page) {
        Some(e) => e,
        None => return Err(404),
    };
    match entry.get("secondaryCondition") {
        None => get_file(entry, "defaultPath"),
        Some(condition) => {
            let condition = match condition.as_str() {
                Some(c) => c,
                None => return Err(500),
            };
            match cookie_header(headers) {
                None => get_file(entry, "defaultPath"),
                Some(cookie) => {
                    if contains_text(cookie.as_str(), condition.as_str()) {
                        get_file(entry, "secondaryPath")
                    } else {
                        get_file(entry, "defaultPath")
                    }
                },
            }
        },
    }
}

/// For a page whose entry has no secondary condition the cookie plays no
/// part: the answer is the entry's default file, with or without a cookie.
pub proof fn law_no_condition_ignores_cookie(manifest: Json, page: Seq<char>, cookie: Option<Seq<char>>)
    requires
        manifest.member(page) matches Some(entry) && entry.member("secondaryCondition"@) is None,
    ensures
        site_answer(manifest, page, cookie) == site_answer(manifest, page, None),
        site_answer(manifest, page, cookie) == page_file(manifest.member(page).unwrap(), "defaultPath"@),
        site_answer(manifest, page, cookie) matches Ok((path, mime)) ==> {
            let entry = manifest.member(page).unwrap();
            &&& entry.member("defaultPath"@) matches Some(d) && d.text() == Some(path)
            &&& entry.member("mimeType"@) matches Some(m) && m.text() == Some(mime)
        },
{
}

/// Where an entry's secondary condition occurs anywhere in the cookie (at
/// its start, in its middle or at its end) the secondary file is chosen.
pub proof fn law_condition_anywhere_in_cookie(entry: Json, condition: Seq<char>, before: Seq<char>, after: Seq<char>)
    requires
        entry.member("secondaryCondition"@) matches Some(c) && c.text() == Some(condition),
    ensures
        page_option(entry, Some(before + condition + after)) == Ok::<Seq<char>, u16>("secondaryPath"@),
{
    let k = before + condition + after;
    assert(k.subrange(before.len() as int, before.len() as int + condition.len()) == condition);
    assert(crate::text::occurs_at(k, condition, before.len() as int));
}

/// The secondary file is chosen only where the cookie holds the entry's
/// condition somewhere, and otherwise the default file is.
pub proof fn law_secondary_only_with_condition(entry: Json, cookie: Option<Seq<char>>)
    ensures
        page_option(entry, cookie) == Ok::<Seq<char>, u16>("secondaryPath"@) ==> (entry.member("secondaryCondition"@) matches Some(c)
            && c.text() matches Some(condition) && cookie matches Some(k) && exists|before: Seq<char>, after: Seq<char>|
            k == before + condition + after),
        page_option(entry, cookie) is Ok ==> page_option(entry, cookie) == Ok::<Seq<char>, u16>("secondaryPath"@)
            || page_option(entry, cookie) == Ok::<Seq<char>, u16>("defaultPath"@),
        page_option(entry, cookie) is Err <==> (entry.member("secondaryCondition"@) matches Some(c) && c.text() is None),
{
    reveal_strlit("secondaryPath");
    reveal_strlit("defaultPath");
    assert("secondaryPath"@ != "defaultPath"@) by {
        assert("secondaryPath"@.len() != "defaultPath"@.len());
    }
    if page_option(entry, cookie) == Ok::<Seq<char>, u16>("secondaryPath"@) {
        let c = entry.member("secondaryCondition"@).unwrap();
        let condition = c.text().unwrap();
        let k = cookie.unwrap();
        let i = choose|i: int| crate::text::occurs_at(k, condition, i);
        let before = k.subrange(0, i);
        let after = k.subrange(i + condition.len(), k.len() as int);
        assert(k == before + condition + after);
    }
}

} // verus!
