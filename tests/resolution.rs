use blog_server::content_manager::{probe_paths, resolve, resolve_each};
use blog_server::file_system::{absolute_path, find_file, is_dir, read_path, segments, Disk, Entry, Node};
use blog_server::types::{UrlPath, WebContent, WebResponse};

fn dir(path: &str) -> Entry {
    Entry { path: path.to_string(), node: Node::Dir }
}

fn file(path: &str, content: &[u8]) -> Entry {
    Entry { path: path.to_string(), node: Node::File(content.to_vec()) }
}

fn url(s: &str) -> UrlPath {
    UrlPath(s.to_string())
}

fn html_of(r: WebResponse) -> Vec<u8> {
    match r {
        WebResponse::Content(WebContent::Html(b)) => b,
        other => panic!("expected html content, got {:?}", other),
    }
}

fn redirect_of(r: WebResponse) -> String {
    match r {
        WebResponse::Redirect(s) => s,
        other => panic!("expected a redirect, got {:?}", other),
    }
}

#[test]
fn directory_without_slash_redirects() {
    let disk = Disk { entries: vec![dir(""), dir("blog"), file("blog/content.html", b"<p>x</p>")] };
    assert_eq!(redirect_of(resolve(&disk, &url("/blog"), None)), "/blog/");
    let nested = Disk { entries: vec![dir(""), dir("a"), dir("a/b")] };
    assert_eq!(redirect_of(resolve(&nested, &url("/a/b"), None)), "/a/b/");
}

#[test]
fn directory_with_slash_serves_default_document() {
    let disk = Disk { entries: vec![dir(""), dir("blog"), file("blog/content.html", b"<p>x</p>")] };
    assert_eq!(html_of(resolve(&disk, &url("/blog/"), None)), b"<p>x</p>".to_vec());
}

#[test]
fn content_html_wins_over_content_md() {
    let disk = Disk {
        entries: vec![dir(""), dir("p"), file("p/content.md", b"# md"), file("p/content.html", b"html")],
    };
    let f = read_path(&disk, &url("/p/")).unwrap();
    assert_eq!(f.path, "p/content.html");
    assert_eq!(f.name, "content");
    assert_eq!(f.extension, "html");
    assert_eq!(f.content, b"html".to_vec());
}

#[test]
fn content_md_used_when_no_html() {
    let disk = Disk { entries: vec![dir(""), dir("p"), file("p/content.md", b"# md")] };
    let f = read_path(&disk, &url("/p/")).unwrap();
    assert_eq!(f.path, "p/content.md");
    assert_eq!(f.extension, "md");
}

#[test]
fn directory_without_default_document_is_not_found() {
    let disk = Disk { entries: vec![dir(""), dir("empty")] };
    assert!(read_path(&disk, &url("/empty/")).is_none());
    assert!(matches!(resolve(&disk, &url("/empty/"), None), WebResponse::NotFound));
}

#[test]
fn missing_file_is_not_found() {
    let disk = Disk { entries: vec![dir("")] };
    assert!(matches!(resolve(&disk, &url("/nothing.html"), None), WebResponse::NotFound));
}

#[test]
fn root_url_reads_root_content() {
    let disk = Disk { entries: vec![dir(""), file("content.html", b"home")] };
    assert_eq!(html_of(resolve(&disk, &url("/"), None)), b"home".to_vec());
}

#[test]
fn ancestor_template_is_used() {
    let disk = Disk {
        entries: vec![
            dir(""),
            dir("a"),
            file("a/template.html", b"<main><!-- content --></main>"),
            dir("a/b"),
            file("a/b/content.md", b"# T"),
        ],
    };
    let body = String::from_utf8(html_of(resolve(&disk, &url("/a/b/content.md"), None))).unwrap();
    assert!(body.starts_with("<main>"));
    assert!(body.contains("<h1>T</h1>"));
    assert!(body.ends_with("</main>"));
    assert!(!body.contains("<!-- content -->"));
}

#[test]
fn nearest_template_wins() {
    let disk = Disk {
        entries: vec![
            dir(""),
            file("template.html", b"root"),
            dir("a"),
            file("a/template.html", b"inner"),
        ],
    };
    let found = find_file(&disk, &url("/a/page.md"), "template.html").unwrap();
    assert_eq!(found.path, "a/template.html");
    assert_eq!(found.content, b"inner".to_vec());
    let top = find_file(&disk, &url("/b/page.md"), "template.html").unwrap();
    assert_eq!(top.path, "template.html");
    assert!(find_file(&disk, &url("/a/page.md"), "config.json").is_none());
}

#[test]
fn traversal_outside_root_is_not_found() {
    let disk = Disk { entries: vec![dir(""), file("secret.html", b"s")] };
    assert!(matches!(resolve(&disk, &url("/../etc/passwd"), None), WebResponse::NotFound));
    assert!(matches!(resolve(&disk, &url("/a/../../secret.html"), None), WebResponse::NotFound));
    assert!(absolute_path(&url("/../etc/passwd")).is_none());
    assert!(read_path(&disk, &url("/../secret.html")).is_none());
    assert!(!is_dir(&disk, &url("/..")));
}

#[test]
fn escaping_request_ignores_marker_inside_root() {
    let disk = Disk { entries: vec![dir(""), file("..url.redirect", b"x")] };
    assert!(matches!(resolve(&disk, &url("/.."), None), WebResponse::NotFound));
    assert!(matches!(resolve(&disk, &url("/a/../.."), None), WebResponse::NotFound));
}

#[test]
fn redirect_marker_trims_unicode_whitespace() {
    let disk = Disk { entries: vec![dir(""), file("gourl.redirect", "\u{a0}\u{3000} /there\u{2028}\r\n".as_bytes())] };
    assert_eq!(redirect_of(resolve(&disk, &url("/go"), None)), "/there");
}

#[test]
fn dot_segments_inside_root_resolve() {
    let disk = Disk { entries: vec![dir(""), file("b.html", b"b")] };
    assert_eq!(absolute_path(&url("/a/../b.html")).unwrap(), "b.html");
    assert_eq!(absolute_path(&url("/./x//y/")).unwrap(), "x/y");
    assert_eq!(html_of(resolve(&disk, &url("/a/../b.html"), None)), b"b".to_vec());
    let segs = segments("/a/./b/../c").unwrap();
    assert_eq!(segs, vec![vec!['a'], vec!['c']]);
}

#[test]
fn redirect_marker_redirects_trimmed() {
    let disk = Disk { entries: vec![dir(""), file("old-pageurl.redirect", b"/new-page\n")] };
    assert_eq!(redirect_of(resolve(&disk, &url("/old-page"), None)), "/new-page");
}

#[test]
fn redirect_marker_inside_directory() {
    let disk = Disk { entries: vec![dir(""), dir("old"), file("old/url.redirect", b"  /elsewhere \t\n")] };
    assert_eq!(redirect_of(resolve(&disk, &url("/old/"), None)), "/elsewhere");
}

#[test]
fn redirect_marker_not_utf8_is_not_found() {
    let disk = Disk { entries: vec![dir(""), file("xurl.redirect", &[0xff, 0xfe])] };
    assert!(matches!(resolve(&disk, &url("/x"), None), WebResponse::NotFound));
}

#[test]
fn unknown_extension_is_unsupported() {
    let disk = Disk { entries: vec![dir(""), file("data.xyz", b"whatever")] };
    assert_eq!(html_of(resolve(&disk, &url("/data.xyz"), None)), b"unsupported".to_vec());
}

#[test]
fn each_request_gets_its_own_reply() {
    let disk = Disk {
        entries: vec![
            dir(""),
            dir("d"),
            file("d/content.html", b"dir page"),
            file("page.css", b"body{}"),
            file("moveurl.redirect", b"/moved"),
        ],
    };
    let urls = vec![url("/d"), url("/page.css"), url("/missing"), url("/move"), url("/d/")];
    let replies = resolve_each(&disk, &urls);
    assert_eq!(replies.len(), 5);
    assert!(matches!(&replies[0], WebResponse::Redirect(s) if s == "/d/"));
    assert!(matches!(&replies[1], WebResponse::Content(WebContent::Css(b)) if b == b"body{}"));
    assert!(matches!(&replies[2], WebResponse::NotFound));
    assert!(matches!(&replies[3], WebResponse::Redirect(s) if s == "/moved"));
    assert!(matches!(&replies[4], WebResponse::Content(WebContent::Html(b)) if b == b"dir page"));
    assert!(resolve_each(&disk, &Vec::new()).is_empty());
}

#[test]
fn markdown_with_invalid_utf8_is_not_found() {
    let disk = Disk { entries: vec![dir(""), file("bad.md", &[0x23, 0x20, 0xff])] };
    assert!(matches!(resolve(&disk, &url("/bad.md"), None), WebResponse::NotFound));
}

#[test]
fn template_not_utf8_is_ignored() {
    let disk = Disk { entries: vec![dir(""), file("template.html", &[0xff]), file("p.md", b"# P")] };
    let body = String::from_utf8(html_of(resolve(&disk, &url("/p.md"), None))).unwrap();
    assert_eq!(body.trim(), "<h1>P</h1>");
}

#[test]
fn first_entry_for_a_path_counts() {
    let disk = Disk { entries: vec![dir(""), file("x.html", b"one"), file("x.html", b"two")] };
    assert_eq!(html_of(resolve(&disk, &url("/x.html"), None)), b"one".to_vec());
}

#[test]
fn file_names_split_at_last_dot() {
    let disk = Disk {
        entries: vec![dir(""), file("a.tar.gz", b""), file(".hidden", b""), file("plain", b""), file("end.", b"")],
    };
    let f = read_path(&disk, &url("/a.tar.gz")).unwrap();
    assert_eq!((f.name.as_str(), f.extension.as_str()), ("a.tar", "gz"));
    let f = read_path(&disk, &url("/.hidden")).unwrap();
    assert_eq!((f.name.as_str(), f.extension.as_str()), (".hidden", ""));
    let f = read_path(&disk, &url("/plain")).unwrap();
    assert_eq!((f.name.as_str(), f.extension.as_str()), ("plain", ""));
    let f = read_path(&disk, &url("/end.")).unwrap();
    assert_eq!((f.name.as_str(), f.extension.as_str()), ("end", ""));
}

#[test]
fn probe_paths_list_everything_consulted() {
    let probes = probe_paths(&url("/a/b"));
    let expected: Vec<String> = vec![
        "a/b",
        "a/b/content.html",
        "a/b/content.md",
        "template.html",
        "config.json",
        "a/template.html",
        "a/config.json",
        "a/b/template.html",
        "a/b/config.json",
        "a/burl.redirect",
        "a/burl.redirect/content.html",
        "a/burl.redirect/content.md",
    ]
    .into_iter()
    .map(String::from)
    .collect();
    assert_eq!(probes, expected);
    assert!(probe_paths(&url("/../../x/")).is_empty());
}
