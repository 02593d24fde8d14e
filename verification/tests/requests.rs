use mdopen::decode::decode_path;
use mdopen::paths::{breadcrumbs, extension, file_name, join_path, path_components, relative_path};
use mdopen::query::{name_next_sort, sort_param, split_url, time_next_sort, SortOrder};
use mdopen::routes::{
    asset_for, error_page, mime_type, page_title, plan_file_request, plan_raw_request, raw_url,
    read_error_status, response_mime, route, style_url, websocket_url, Asset, Route,
};

#[test]
fn mime_type_known_extensions() {
    assert_eq!(mime_type("js"), Some("application/javascript"));
    assert_eq!(mime_type("css"), Some("text/css"));
    assert_eq!(mime_type("gif"), Some("image/gif"));
    assert_eq!(mime_type("png"), Some("image/png"));
    assert_eq!(mime_type("jpg"), Some("image/jpeg"));
    assert_eq!(mime_type("jpeg"), Some("image/jpeg"));
    assert_eq!(mime_type("pdf"), Some("application/pdf"));
    assert_eq!(mime_type("html"), Some("text/html"));
    assert_eq!(mime_type("md"), Some("text/markdown"));
    assert_eq!(mime_type("txt"), Some("text/plain"));
}

#[test]
fn mime_type_unknown_extensions() {
    assert_eq!(mime_type("markdown"), None);
    assert_eq!(mime_type("JS"), None);
    assert_eq!(mime_type(""), None);
}

#[test]
fn response_mime_sends_markdown_as_html() {
    assert_eq!(response_mime("md"), Some("text/html"));
    assert_eq!(response_mime("css"), Some("text/css"));
    assert_eq!(response_mime("rs"), None);
}

#[test]
fn sort_order_from_query() {
    assert!(SortOrder::from_query(Some("name_desc")) == SortOrder::NameDesc);
    assert!(SortOrder::from_query(Some("time")) == SortOrder::TimeDesc);
    assert!(SortOrder::from_query(Some("time_asc")) == SortOrder::TimeAsc);
    assert!(SortOrder::from_query(Some("name")) == SortOrder::NameAsc);
    assert!(SortOrder::from_query(Some("bogus")) == SortOrder::NameAsc);
    assert!(SortOrder::from_query(None) == SortOrder::NameAsc);
}

#[test]
fn sort_order_round_trip() {
    for o in [SortOrder::NameAsc, SortOrder::NameDesc, SortOrder::TimeAsc, SortOrder::TimeDesc] {
        assert!(SortOrder::from_query(Some(o.as_str())) == o);
    }
    assert_eq!(SortOrder::TimeDesc.as_str(), "time");
}

#[test]
fn column_links_toggle() {
    assert_eq!(name_next_sort(SortOrder::NameAsc), "name_desc");
    assert_eq!(name_next_sort(SortOrder::TimeDesc), "name");
    assert_eq!(time_next_sort(SortOrder::TimeDesc), "time_asc");
    assert_eq!(time_next_sort(SortOrder::NameAsc), "time");
}

#[test]
fn split_url_at_first_question_mark() {
    let (p, q) = split_url("/docs/a.md?sort=time&x=?");
    assert_eq!(p, "/docs/a.md");
    assert_eq!(q.as_deref(), Some("sort=time&x=?"));
    let (p, q) = split_url("/plain");
    assert_eq!(p, "/plain");
    assert_eq!(q, None);
}

#[test]
fn sort_param_first_sort_pair() {
    assert_eq!(sort_param("a=1&sort=time&sort=name").as_deref(), Some("time"));
    assert_eq!(sort_param("sort&sort=name_desc").as_deref(), Some("name_desc"));
    assert_eq!(sort_param("sort=").as_deref(), Some(""));
    assert_eq!(sort_param("sort=a=b").as_deref(), Some("a=b"));
    assert_eq!(sort_param("x=1"), None);
    assert_eq!(sort_param(""), None);
}

#[test]
fn decode_path_percent_sequences() {
    assert_eq!(decode_path("/my%20file.md"), "/my file.md");
    assert_eq!(decode_path("/a%zz%4"), "/a%zz%4");
    assert_eq!(decode_path("/%C3%A9t%c3%a9"), "/été");
    assert_eq!(decode_path("/%FF"), "/\u{FFFD}");
}

#[test]
fn relative_path_trims_ends() {
    assert_eq!(relative_path("/").as_deref(), Some(""));
    assert_eq!(relative_path("//a//b/").as_deref(), Some("a//b"));
    assert_eq!(relative_path("/./a/./").as_deref(), Some("a"));
    assert_eq!(relative_path("/docs/../x").as_deref(), Some("docs/../x"));
    assert_eq!(relative_path("a"), None);
    assert_eq!(relative_path(""), None);
}

#[test]
fn components_skip_empty_and_dot() {
    assert_eq!(path_components("a//b/./c"), vec!["a", "b", "c"]);
    assert_eq!(path_components("a/../b"), vec!["a", "..", "b"]);
    assert!(path_components("").is_empty());
}

#[test]
fn breadcrumbs_accumulate() {
    let b = breadcrumbs("docs//api/v1");
    let got: Vec<(String, String)> = b.into_iter().map(|c| (c.name, c.path)).collect();
    assert_eq!(
        got,
        vec![
            ("docs".to_string(), "docs".to_string()),
            ("api".to_string(), "docs/api".to_string()),
            ("v1".to_string(), "docs/api/v1".to_string()),
        ]
    );
    assert!(breadcrumbs("").is_empty());
}

#[test]
fn join_path_like_path_buf_push() {
    assert_eq!(join_path("", "x.md"), "x.md");
    assert_eq!(join_path("docs", "x.md"), "docs/x.md");
    assert_eq!(join_path("docs/", "x.md"), "docs/x.md");
    assert_eq!(join_path("docs", "/abs"), "/abs");
}

#[test]
fn file_name_and_extension() {
    assert_eq!(file_name("a/b.md").as_deref(), Some("b.md"));
    assert_eq!(file_name("a/..").as_deref(), None);
    assert_eq!(file_name("").as_deref(), None);
    assert_eq!(extension("a/b.md").as_deref(), Some("md"));
    assert_eq!(extension("x.tar.gz").as_deref(), Some("gz"));
    assert_eq!(extension(".bashrc"), None);
    assert_eq!(extension(".a.md").as_deref(), Some("md"));
    assert_eq!(extension("a.").as_deref(), Some(""));
    assert_eq!(extension("README"), None);
    assert_eq!(extension("a/.."), None);
}

#[test]
fn route_by_method_and_target() {
    assert!(matches!(route(false, "/x.md"), Route::MethodNotAllowed));
    match route(true, "/__mdopen_assets/style.css") {
        Route::Asset(name) => assert_eq!(name, "style.css"),
        _ => panic!("expected an asset"),
    }
    match route(true, "/docs/a.md/raw") {
        Route::Raw(p) => assert_eq!(p, "/docs/a.md"),
        _ => panic!("expected a raw file"),
    }
    match route(true, "/docs/a.md?sort=time") {
        Route::File(p) => assert_eq!(p, "/docs/a.md?sort=time"),
        _ => panic!("expected a file"),
    }
}

#[test]
fn assets_by_name() {
    assert!(asset_for("style.css") == Some(Asset::Stylesheet));
    assert!(asset_for("other.css").is_none());
}

#[test]
fn error_pages_are_sent_as_not_found() {
    let p = error_page(404);
    assert_eq!((p.title.as_str(), p.header.as_str(), p.status), ("Error", "Not Found", 404));
    let p = error_page(405);
    assert_eq!((p.header.as_str(), p.status), ("Method Not Allowed", 404));
    let p = error_page(500);
    assert_eq!((p.header.as_str(), p.status), ("Internal Server Error", 404));
    let p = error_page(418);
    assert_eq!(p.header, "Unknown");
}

#[test]
fn read_errors_map_to_status() {
    assert_eq!(read_error_status(true), 404);
    assert_eq!(read_error_status(false), 500);
}

#[test]
fn page_links() {
    assert_eq!(raw_url("docs/a.md"), "/docs/a.md/raw");
    assert_eq!(style_url(), "/__mdopen_assets/style.css");
    assert_eq!(websocket_url("127.0.0.1:5032"), "ws://127.0.0.1:5032/__mdopen_reload/");
    assert_eq!(page_title("docs/a.md"), "a.md");
    assert_eq!(page_title(""), "mdopen");
}

#[test]
fn file_request_plan() {
    let f = plan_file_request("/docs/My%20Notes.md?sort=time").unwrap();
    assert_eq!(f.rel, "docs/My Notes.md");
    assert!(f.sort == SortOrder::TimeDesc);
    assert_eq!(f.extension, "md");
    assert!(f.render_markdown);
    assert_eq!(f.content_type, Some("text/html"));

    let f = plan_file_request("/").unwrap();
    assert_eq!(f.rel, "");
    assert!(f.sort == SortOrder::NameAsc);
    assert_eq!(f.extension, "");
    assert!(!f.render_markdown);
    assert_eq!(f.content_type, None);

    let f = plan_file_request("/notes.markdown").unwrap();
    assert!(f.render_markdown);
    assert_eq!(f.content_type, None);

    assert!(plan_file_request("*").is_none());
}

#[test]
fn raw_request_plan() {
    assert_eq!(plan_raw_request("/docs/a%20b.md").as_deref(), Some("docs/a b.md"));
    assert_eq!(plan_raw_request("docs"), None);
}

#[test]
fn decode_path_without_percent_is_unchanged() {
    assert_eq!(decode_path("/plain/päth-ü.md"), "/plain/päth-ü.md");
}

#[test]
fn clean_path_names_itself() {
    assert_eq!(relative_path("/docs/a.md").as_deref(), Some("docs/a.md"));
    let crumbs = breadcrumbs("docs/a.md");
    assert_eq!(crumbs.last().map(|c| c.path.as_str()), Some("docs/a.md"));
}
