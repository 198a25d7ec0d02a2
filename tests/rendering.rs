use blog_server::file_system::{Disk, Entry, Node};
use blog_server::templating::Template;
use blog_server::text::{chars_equal, chars_of, replace_chars};
use blog_server::types::{Configuration, FileContent, WebContent};
use blog_server::web_content::process_content;

fn record(name: &str, extension: &str, content: &[u8]) -> FileContent {
    FileContent {
        path: format!("{}.{}", name, extension),
        name: name.to_string(),
        extension: extension.to_string(),
        content: content.to_vec(),
    }
}

fn template(text: &str) -> Template {
    Template { content: text.to_string() }
}

#[test]
fn passthrough_kinds_keep_bytes() {
    let bytes: &[u8] = &[0, 1, 2, 255, b'<'];
    let cases = ["html", "js", "css", "jpeg", "png", "wasm", "ico", "svg", "woff2"];
    for ext in cases {
        let out = process_content(Some(template("<!-- f -->")), None, record("f", ext, bytes)).unwrap();
        let (tag_ok, payload) = match (ext, out) {
            ("html", WebContent::Html(b)) => (true, b),
            ("js", WebContent::JavaScript(b)) => (true, b),
            ("css", WebContent::Css(b)) => (true, b),
            ("jpeg", WebContent::Jpeg(b)) => (true, b),
            ("png", WebContent::Png(b)) => (true, b),
            ("wasm", WebContent::Wasm(b)) => (true, b),
            ("ico", WebContent::Ico(b)) => (true, b),
            ("svg", WebContent::Svg(b)) => (true, b),
            ("woff2", WebContent::Woff2(b)) => (true, b),
            (_, other) => panic!("wrong tag for {}: {:?}", ext, other),
        };
        assert!(tag_ok);
        assert_eq!(payload, bytes.to_vec());
    }
}

#[test]
fn extension_match_is_case_sensitive() {
    let out = process_content(None, None, record("f", "HTML", b"x")).unwrap();
    assert!(matches!(out, WebContent::Html(b) if b == b"unsupported"));
}

#[test]
fn markdown_heading_becomes_h1() {
    let out = process_content(None, None, record("post", "md", b"# Hi")).unwrap();
    match out {
        WebContent::Html(b) => {
            let s = String::from_utf8(b).unwrap();
            assert!(s.contains("<h1>Hi</h1>"), "{}", s);
        }
        other => panic!("{:?}", other),
    }
}

#[test]
fn markdown_fills_slot_named_after_file() {
    let out = process_content(Some(template("<body><!-- post --></body>")), None, record("post", "md", b"*e*")).unwrap();
    match out {
        WebContent::Html(b) => {
            let s = String::from_utf8(b).unwrap();
            assert_eq!(s, "<body><p><em>e</em></p></body>");
        }
        other => panic!("{:?}", other),
    }
}

#[test]
fn markdown_keeps_raw_html_and_gfm() {
    let out = process_content(None, None, record("p", "md", b"<div>raw</div>\n\n~~gone~~")).unwrap();
    let s = match out {
        WebContent::Html(b) => String::from_utf8(b).unwrap(),
        other => panic!("{:?}", other),
    };
    assert!(s.contains("<div>raw</div>"), "{}", s);
    assert!(s.contains("<del>gone</del>"), "{}", s);
}

#[test]
fn markdown_not_utf8_gives_none() {
    assert!(process_content(None, None, record("p", "md", &[0xc3])).is_none());
}

#[test]
fn unknown_extension_renders_unsupported() {
    let out = process_content(None, None, record("data", "xyz", b"payload")).unwrap();
    assert!(matches!(out, WebContent::Html(b) if b == b"unsupported"));
    let none = process_content(None, None, record("noext", "", b"payload")).unwrap();
    assert!(matches!(none, WebContent::Html(b) if b == b"unsupported"));
}

#[test]
fn slot_substitution_replaces_marker() {
    let mut t = template("<a><!-- body --></a>");
    t.set_section("body".to_string(), "X".to_string());
    assert_eq!(t.content, "<a>X</a>");
}

#[test]
fn slot_without_marker_leaves_template() {
    let mut t = template("<a><!-- body --></a>");
    t.set_section("missing".to_string(), "X".to_string());
    assert_eq!(t.content, "<a><!-- body --></a>");
}

#[test]
fn slot_replaced_everywhere_once() {
    let mut t = template("<!-- s -->|<!-- s -->");
    t.set_section("s".to_string(), "<!-- s -->!".to_string());
    assert_eq!(t.content, "<!-- s -->!|<!-- s -->!");
}

#[test]
fn slot_text_with_multibyte_chars() {
    let mut t = template("é<!-- n -->ü");
    t.set_section("n".to_string(), "ß→".to_string());
    assert_eq!(t.content, "éß→ü");
}

#[test]
fn template_loads_utf8_only() {
    let ok = Template::new(record("template", "html", "<p>ö</p>".as_bytes())).unwrap();
    assert_eq!(ok.content, "<p>ö</p>");
    assert!(Template::new(record("template", "html", &[0xff, 0x00])).is_none());
}

#[test]
fn replace_helpers_agree_with_std() {
    let s = chars_of("aXbXXc");
    let r = replace_chars(&s, &chars_of("X"), &chars_of("yy"));
    assert_eq!(r.iter().collect::<String>(), "aXbXXc".replace('X', "yy"));
    let unchanged = replace_chars(&s, &Vec::new(), &chars_of("z"));
    assert_eq!(unchanged, s);
    assert!(chars_equal(&chars_of("ab"), &chars_of("ab")));
    assert!(!chars_equal(&chars_of("ab"), &chars_of("abc")));
}

#[test]
fn snapshot_types_are_plain_values() {
    let disk = Disk { entries: vec![Entry { path: String::new(), node: Node::Dir }] };
    assert_eq!(disk.entries.len(), 1);
}

#[test]
fn configuration_header_names_unique() {
    let pair = |k: &str, v: &str| (k.to_string(), v.to_string());
    let ok = Configuration::new(Some(vec![pair("a", "1"), pair("b", "2")])).unwrap();
    assert_eq!(ok.headers.unwrap().len(), 2);
    assert!(Configuration::new(Some(vec![pair("a", "1"), pair("b", "2"), pair("a", "3")])).is_none());
    assert!(Configuration::new(None).unwrap().headers.is_none());
}
