//! Routing of requests, content types, built-in assets and error pages.

use vstd::prelude::*;
use crate::decode::{decode_path, decoded_path};
use crate::paths::{extension, extension_of, file_name, file_name_of, relative_part, relative_path};
use crate::query::{sort_order_for, sort_param, sort_param_of, split_url, url_path_part, url_query_part, SortOrder};
use crate::text::{chars_of, ends_with, push_str, starts_with, str_eq, string_from_range};

verus! {

/// Where built-in assets are served from.
pub const ASSETS_PREFIX: &'static str = "/__mdopen_assets/";

/// Where the live-reload socket is served from.
pub const RELOAD_PREFIX: &'static str = "/__mdopen_reload/";

/// `Content-Type` of rendered pages.
pub const HTML_CONTENT_TYPE: &'static str = "text/html; charset=utf8";

/// `Content-Type` of raw file contents.
pub const RAW_CONTENT_TYPE: &'static str = "text/plain; charset=utf-8";

/// `Cache-Control` of built-in assets: a year.
pub const ASSET_CACHE_CONTROL: &'static str = "max-age=31536000";

/// The content type that a file extension stands for.
pub open spec fn mime_for(ext: Seq<char>) -> Option<Seq<char>> {
    if ext == "js"@ {
        Some("application/javascript"@)
    } else if ext == "css"@ {
        Some("text/css"@)
    } else if ext == "gif"@ {
        Some("image/gif"@)
    } else if ext == "png"@ {
        Some("image/png"@)
    } else if ext == "jpg"@ || ext == "jpeg"@ {
        Some("image/jpeg"@)
    } else if ext == "pdf"@ {
        Some("application/pdf"@)
    } else if ext == "html"@ {
        Some("text/html"@)
    } else if ext == "md"@ {
        Some("text/markdown"@)
    } else if ext == "txt"@ {
        Some("text/plain"@)
    } else {
        None
    }
}

pub open spec fn opt_str_view(o: Option<&str>) -> Option<Seq<char>> {
    match o {
        Some(s) => Some(s@),
        None => None,
    }
}

/// Gets the content type from an extension.
pub fn mime_type(ext: &str) -> (r: Option<&'static str>)
    ensures
        opt_str_view(r) == mime_for(ext@),
{
    if str_eq(ext, "js") {
        Some("application/javascript")
    } else if str_eq(ext, "css") {
        Some("text/css")
    } else if str_eq(ext, "gif") {
        Some("image/gif")
    } else if str_eq(ext, "png") {
        Some("image/png")
    } else if str_eq(ext, "jpg") || str_eq(ext, "jpeg") {
        Some("image/jpeg")
    } else if str_eq(ext, "pdf") {
        Some("application/pdf")
    } else if str_eq(ext, "html") {
        Some("text/html")
    } else if str_eq(ext, "md") {
        Some("text/markdown")
    } else if str_eq(ext, "txt") {
        Some("text/plain")
    } else {
        None
    }
}

/// The content type a served file is sent with: markdown goes out rendered,
/// as HTML.
pub open spec fn response_mime_for(ext: Seq<char>) -> Option<Seq<char>> {
    if mime_for(ext) == Some("text/markdown"@) {
        Some("text/html"@)
    } else {
        mime_for(ext)
    }
}

/// The content type a served file with this extension is sent with.
pub fn response_mime(ext: &str) -> (r: Option<&'static str>)
    ensures
        opt_str_view(r) == response_mime_for(ext@),
        mime_for(ext@) != Some("text/markdown"@) ==> opt_str_view(r) == mime_for(ext@),
        mime_for(ext@) == Some("text/markdown"@) ==> opt_str_view(r) == Some("text/html"@),
{
    match mime_type(ext) {
        Some(m) => {
            if str_eq(m, "text/markdown") {
                Some("text/html")
            } else {
                Some(m)
            }
        },
        None => None,
    }
}

/// Whether a file with this extension is rendered as markdown.
pub fn is_markdown_extension(ext: &str) -> (r: bool)
    ensures
        r == (ext@ == "md"@ || ext@ == "markdown"@),
{
    str_eq(ext, "md") || str_eq(ext, "markdown")
}

/// What a request asks for.
pub enum Route {
    /// Anything but `GET`.
    MethodNotAllowed,
    /// A built-in asset, by its name below the assets prefix.
    Asset(String),
    /// A file's raw contents, by the target less its `/raw` suffix.
    Raw(String),
    /// A file or directory, by the whole target.
    File(String),
}

/// A route with its strings taken by their text.
pub enum RouteView {
    MethodNotAllowed,
    Asset(Seq<char>),
    Raw(Seq<char>),
    File(Seq<char>),
}

impl View for Route {
    type V = RouteView;

    open spec fn view(&self) -> RouteView {
        match self {
            Route::MethodNotAllowed => RouteView::MethodNotAllowed,
            Route::Asset(s) => RouteView::Asset(s@),
            Route::Raw(s) => RouteView::Raw(s@),
            Route::File(s) => RouteView::File(s@),
        }
    }
}

/// The route of a request: non-`GET` requests are refused; targets under the
/// assets prefix name an asset; targets ending in `/raw` ask for a raw file;
/// every other target names a file or directory.
pub open spec fn route_for(is_get: bool, url: Seq<char>) -> RouteView {
    let prefix = ASSETS_PREFIX@;
    let suffix = "/raw"@;
    if !is_get {
        RouteView::MethodNotAllowed
    } else if prefix.len() <= url.len() && url.take(prefix.len() as int) == prefix {
        RouteView::Asset(url.skip(prefix.len() as int))
    } else if suffix.len() <= url.len() && url.skip(url.len() - suffix.len()) == suffix {
        RouteView::Raw(url.take(url.len() - suffix.len()))
    } else {
        RouteView::File(url)
    }
}

/// Routes a request by its method and target.
pub fn route(is_get: bool, url: &str) -> (r: Route)
    ensures
        r@ == route_for(is_get, url@),
{
    if !is_get {
        return Route::MethodNotAllowed;
    }
    let cs = chars_of(url);
    let prefix_len = chars_of(ASSETS_PREFIX).len();
    if starts_with(url, ASSETS_PREFIX) {
        let rest = string_from_range(cs.as_slice(), prefix_len, cs.len());
        assert(rest@ =~= url@.skip(ASSETS_PREFIX@.len() as int));
        Route::Asset(rest)
    } else if ends_with(url, "/raw") {
        let suffix_len = chars_of("/raw").len();
        let head = string_from_range(cs.as_slice(), 0, cs.len() - suffix_len);
        assert(head@ =~= url@.take(url@.len() - "/raw"@.len()));
        Route::Raw(head)
    } else {
        Route::File(crate::text::string_from_chars(cs.as_slice()))
    }
}

/// A built-in asset.
#[derive(Clone, Copy, PartialEq, Eq, Structural, Debug)]
pub enum Asset {
    /// The page stylesheet.
    Stylesheet,
}

/// The built-in asset a name below the assets prefix stands for.
pub fn asset_for(name: &str) -> (r: Option<Asset>)
    ensures
        r == (if name@ == "style.css"@ {
            Some(Asset::Stylesheet)
        } else {
            None
        }),
{
    if str_eq(name, "style.css") {
        Some(Asset::Stylesheet)
    } else {
        None
    }
}

/// What `tiny_http::StatusCode::default_reason_phrase` gives for a code.
pub uninterp spec fn reason_phrase(code: u16) -> Seq<char>;

/// `tiny_http::StatusCode::default_reason_phrase`: the standard reason phrase
/// of a status code ("Unknown" for codes the crate does not list). The result
/// is named by `reason_phrase`; the three codes this server sends are stated.
#[verifier::external_body]
fn default_reason_phrase(code: u16) -> (r: &'static str)
    ensures
        r@ == reason_phrase(code),
        code == 404 ==> r@ == "Not Found"@,
        code == 405 ==> r@ == "Method Not Allowed"@,
        code == 500 ==> r@ == "Internal Server Error"@,
{
    tiny_http::StatusCode(code).default_reason_phrase()
}

/// The contents of an error page.
pub struct ErrorPage {
    pub title: String,
    pub header: String,
    /// The status the page is sent with: always 404, whatever `header` names.
    pub status: u16,
}

/// The error page for a status code: titled "Error", headed by the code's
/// reason phrase, and sent with status 404.
pub fn error_page(code: u16) -> (p: ErrorPage)
    ensures
        p.title@ == "Error"@,
        p.header@ == reason_phrase(code),
        p.status == 404,
{
    let mut title = String::new();
    push_str(&mut title, "Error");
    let mut header = String::new();
    push_str(&mut header, default_reason_phrase(code));
    assert(title@ =~= "Error"@);
    assert(header@ =~= reason_phrase(code));
    ErrorPage { title, header, status: 404 }
}

/// The status of the error page for a file that could not be read: 404 when
/// it does not exist, 500 otherwise.
pub fn read_error_status(not_found: bool) -> (code: u16)
    ensures
        code == (if not_found { 404u16 } else { 500u16 }),
{
    if not_found {
        404
    } else {
        500
    }
}

/// Link to the raw contents of a file: `/`, its relative path, `/raw`.
pub fn raw_url(rel: &str) -> (r: String)
    ensures
        r@ == "/"@ + rel@ + "/raw"@,
{
    let mut out = String::new();
    push_str(&mut out, "/");
    push_str(&mut out, rel);
    push_str(&mut out, "/raw");
    assert(out@ =~= "/"@ + rel@ + "/raw"@);
    out
}

/// Link to the page stylesheet.
pub fn style_url() -> (r: String)
    ensures
        r@ == ASSETS_PREFIX@ + "style.css"@,
{
    let mut out = String::new();
    push_str(&mut out, ASSETS_PREFIX);
    push_str(&mut out, "style.css");
    assert(out@ =~= ASSETS_PREFIX@ + "style.css"@);
    out
}

/// Address of the live-reload socket for a server address (`host:port`).
pub fn websocket_url(addr: &str) -> (r: String)
    ensures
        r@ == "ws://"@ + addr@ + RELOAD_PREFIX@,
{
    let mut out = String::new();
    push_str(&mut out, "ws://");
    push_str(&mut out, addr);
    push_str(&mut out, RELOAD_PREFIX);
    assert(out@ =~= "ws://"@ + addr@ + RELOAD_PREFIX@);
    out
}


/// A served file goes out with its extension's content type, except that
/// markdown goes out as `text/html`.
pub proof fn lemma_response_mime_is_mime_but_markdown(ext: Seq<char>)
    ensures
        mime_for(ext) != Some("text/markdown"@) ==> response_mime_for(ext) == mime_for(ext),
        mime_for(ext) == Some("text/markdown"@) ==> response_mime_for(ext) == Some("text/html"@),
        ext == "txt"@ ==> response_mime_for(ext) == Some("text/plain"@),
{
    reveal_strlit("text/markdown");
    reveal_strlit("text/plain");
    assert("text/plain"@.len() != "text/markdown"@.len());
    if ext == "txt"@ {
        reveal_strlit("txt");
        reveal_strlit("js");
        reveal_strlit("css");
        reveal_strlit("gif");
        reveal_strlit("png");
        reveal_strlit("jpg");
        reveal_strlit("jpeg");
        reveal_strlit("pdf");
        reveal_strlit("html");
        reveal_strlit("md");
        assert("txt"@.len() != "js"@.len());
        assert("txt"@[0] != "css"@[0]);
        assert("txt"@[0] != "gif"@[0]);
        assert("txt"@[0] != "png"@[0]);
        assert("txt"@[0] != "jpg"@[0]);
        assert("txt"@.len() != "jpeg"@.len());
        assert("txt"@[0] != "pdf"@[0]);
        assert("txt"@.len() != "html"@.len());
        assert("txt"@.len() != "md"@.len());
        assert(mime_for(ext) == Some("text/plain"@));
    }
}

/// Markdown files never go out as `text/markdown`: they are sent rendered.
pub proof fn lemma_response_mime_not_markdown(ext: Seq<char>)
    ensures
        response_mime_for(ext) != Some("text/markdown"@),
{
    reveal_strlit("text/markdown");
    reveal_strlit("text/html");
    assert("text/markdown"@.len() != "text/html"@.len());
}

/// A target below the assets prefix names the asset after the prefix.
pub proof fn lemma_route_asset(name: Seq<char>)
    ensures
        route_for(true, ASSETS_PREFIX@ + name) == RouteView::Asset(name),
{
    let url = ASSETS_PREFIX@ + name;
    assert(url.take(ASSETS_PREFIX@.len() as int) =~= ASSETS_PREFIX@);
    assert(url.skip(ASSETS_PREFIX@.len() as int) =~= name);
}

/// A `GET` of a target ending in `/raw`, outside the assets prefix, asks for
/// the raw contents of the target without that suffix.
pub proof fn lemma_route_raw(target: Seq<char>)
    requires
        !(ASSETS_PREFIX@.len() <= (target + "/raw"@).len() && (target + "/raw"@).take(
            ASSETS_PREFIX@.len() as int,
        ) == ASSETS_PREFIX@),
    ensures
        route_for(true, target + "/raw"@) == RouteView::Raw(target),
{
    let url = target + "/raw"@;
    assert(url.skip(url.len() - "/raw"@.len()) =~= "/raw"@);
    assert(url.take(url.len() - "/raw"@.len()) =~= target);
}

/// The extension of a relative path, or empty text when it has none.
pub open spec fn extension_or_empty(rel: Seq<char>) -> Seq<char> {
    match extension_of(rel) {
        Some(e) => e,
        None => Seq::empty(),
    }
}

/// The `sort` value of a request target, if its query has one.
pub open spec fn sort_value_of(url: Seq<char>) -> Option<Seq<char>> {
    match url_query_part(url) {
        Some(q) => sort_param_of(q),
        None => None,
    }
}

/// How to answer a request for a file or directory.
pub struct FileRequest {
    /// The path below the served directory.
    pub rel: String,
    /// The order a directory listing is sorted in.
    pub sort: SortOrder,
    /// The path's extension, empty when it has none.
    pub extension: String,
    /// Whether a file is rendered as markdown.
    pub render_markdown: bool,
    /// The `Content-Type` the answer is sent with, if any.
    pub content_type: Option<&'static str>,
}

/// Reads a request target for a file or directory: the path before `?` is
/// percent-decoded and taken relative to the served directory, the `sort`
/// query value picks the listing order, and the extension picks how the
/// file is sent. `None` when the decoded path does not start with `/`.
pub fn plan_file_request(url: &str) -> (r: Option<FileRequest>)
    ensures
        match r {
            None => relative_part(decoded_path(url_path_part(url@))) is None,
            Some(f) => {
                &&& relative_part(decoded_path(url_path_part(url@))) == Some(f.rel@)
                &&& f.sort == sort_order_for(sort_value_of(url@))
                &&& f.extension@ == extension_or_empty(f.rel@)
                &&& f.render_markdown == (f.extension@ == "md"@ || f.extension@ == "markdown"@)
                &&& opt_str_view(f.content_type) == response_mime_for(f.extension@)
            },
        },
{
    let (path, query) = split_url(url);
    let sort = match &query {
        Some(q) => {
            let v = sort_param(q.as_str());
            match &v {
                Some(s) => SortOrder::from_query(Some(s.as_str())),
                None => SortOrder::from_query(None),
            }
        },
        None => SortOrder::from_query(None),
    };
    let decoded = decode_path(path.as_str());
    let rel = match relative_path(decoded.as_str()) {
        Some(rel) => rel,
        None => return None,
    };
    let ext = match extension(rel.as_str()) {
        Some(e) => e,
        None => String::new(),
    };
    let render_markdown = is_markdown_extension(ext.as_str());
    let content_type = response_mime(ext.as_str());
    Some(FileRequest { rel, sort, extension: ext, render_markdown, content_type })
}

/// The path below the served directory that a raw-file request names (the
/// target without its `/raw` suffix, percent-decoded); `None` when the
/// decoded path does not start with `/`.
pub fn plan_raw_request(target: &str) -> (r: Option<String>)
    ensures
        match r {
            None => relative_part(decoded_path(target@)) is None,
            Some(rel) => relative_part(decoded_path(target@)) == Some(rel@),
        },
{
    let decoded = decode_path(target);
    relative_path(decoded.as_str())
}

/// The title of a rendered page: the file's name.
pub fn page_title(rel: &str) -> (t: String)
    ensures
        t@ == match file_name_of(rel@) {
            Some(n) => n,
            None => "mdopen"@,
        },
{
    match file_name(rel) {
        Some(n) => n,
        None => {
            let mut t = String::new();
            push_str(&mut t, "mdopen");
            t
        },
    }
}

} // verus!
