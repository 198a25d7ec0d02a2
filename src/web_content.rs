//! The content renderer: file bytes become a tagged body, by extension.

use vstd::prelude::*;
use vstd::utf8::{decode_utf8, encode_utf8, valid_utf8};

use crate::templating::{slot_marker, Template};
use crate::text::{bytes_of, chars_equal, chars_of, replace_all, utf8_text};
use crate::types::{Configuration, FileContent, WebContent};

verus! {

/// The HTML that the markdown crate compiles from the given source, with
/// GitHub-flavoured parsing and raw HTML and protocols allowed.
pub uninterp spec fn gfm_html(md: Seq<char>) -> Seq<char>;

/// Relies on `markdown::to_html_with_options` with `ParseOptions::gfm()` and
/// dangerous HTML and protocols allowed. The crate documents that it errors
/// only on MDX syntax, which these options leave off.
#[verifier::external_body]
fn markdown_to_html(md: &str) -> (r: String)
    ensures
        r@ == gfm_html(md@),
{
    let options = markdown::Options {
        parse: markdown::ParseOptions::gfm(),
        compile: markdown::CompileOptions {
            allow_dangerous_html: true,
            allow_dangerous_protocol: true,
            ..markdown::CompileOptions::default()
        },
    };
    match markdown::to_html_with_options(md, &options) {
        Ok(html) => html,
        Err(_) => String::new(),
    }
}

pub open spec fn ext_html() -> Seq<char> {
    seq!['h', 't', 'm', 'l']
}

pub open spec fn ext_md() -> Seq<char> {
    seq!['m', 'd']
}

pub open spec fn ext_js() -> Seq<char> {
    seq!['j', 's']
}

pub open spec fn ext_css() -> Seq<char> {
    seq!['c', 's', 's']
}

pub open spec fn ext_jpeg() -> Seq<char> {
    seq!['j', 'p', 'e', 'g']
}

pub open spec fn ext_png() -> Seq<char> {
    seq!['p', 'n', 'g']
}

pub open spec fn ext_wasm() -> Seq<char> {
    seq!['w', 'a', 's', 'm']
}

pub open spec fn ext_ico() -> Seq<char> {
    seq!['i', 'c', 'o']
}

pub open spec fn ext_svg() -> Seq<char> {
    seq!['s', 'v', 'g']
}

pub open spec fn ext_woff2() -> Seq<char> {
    seq!['w', 'o', 'f', 'f', '2']
}

/// The extensions whose bytes are served as they are.
pub open spec fn is_passthrough(ext: Seq<char>) -> bool {
    ext == ext_html() || ext == ext_js() || ext == ext_css() || ext == ext_jpeg() || ext
        == ext_png() || ext == ext_wasm() || ext == ext_ico() || ext == ext_svg() || ext
        == ext_woff2()
}

/// The body served for an extension that is not supported: the ASCII
/// text `unsupported`.
pub open spec fn unsupported_body() -> Seq<u8> {
    seq![117u8, 110, 115, 117, 112, 112, 111, 114, 116, 101, 100]
}

/// The tag that a body rendered from a file with extension `ext` carries.
pub open spec fn tag_fits(ext: Seq<char>, c: WebContent) -> bool {
    if ext == ext_js() {
        c is JavaScript
    } else if ext == ext_css() {
        c is Css
    } else if ext == ext_jpeg() {
        c is Jpeg
    } else if ext == ext_png() {
        c is Png
    } else if ext == ext_wasm() {
        c is Wasm
    } else if ext == ext_ico() {
        c is Ico
    } else if ext == ext_svg() {
        c is Svg
    } else if ext == ext_woff2() {
        c is Woff2
    } else {
        c is Html
    }
}

/// Markdown compiled to HTML and, given a template, put in the slot named
/// `name`; `None` when the source is not UTF-8.
pub open spec fn rendered_markdown(template: Option<Seq<char>>, name: Seq<char>, md: Seq<u8>) -> Option<
    Seq<u8>,
> {
    if !valid_utf8(md) {
        None
    } else {
        let html = gfm_html(decode_utf8(md));
        match template {
            Some(t) => Some(encode_utf8(replace_all(t, slot_marker(name), html))),
            None => Some(encode_utf8(html)),
        }
    }
}

pub open spec fn template_text(template: Option<Template>) -> Option<Seq<char>> {
    match template {
        Some(t) => Some(t.content@),
        None => None,
    }
}

/// The payload rendered from a file: markdown compiled, the supported kinds
/// as they are, anything else the fixed `unsupported` body.
pub open spec fn render_bytes(template: Option<Seq<char>>, name: Seq<char>, ext: Seq<char>, content: Seq<u8>) -> Option<Seq<u8>> {
    if ext == ext_md() {
        rendered_markdown(template, name, content)
    } else if is_passthrough(ext) {
        Some(content)
    } else {
        Some(unsupported_body())
    }
}

/// `render_bytes` on a template and a file record.
pub open spec fn rendered(template: Option<Template>, file: FileContent) -> Option<Seq<u8>> {
    render_bytes(template_text(template), file.name@, file.extension@, file.content@)
}

/// A file of a kind served as it is keeps its bytes, whatever the template.
pub proof fn lemma_passthrough_keeps_bytes(template: Option<Template>, file: FileContent)
    requires
        is_passthrough(file.extension@),
    ensures
        rendered(template, file) == Some(file.content@),
{
    assert(ext_md() != ext_html() && ext_md() != ext_js() && ext_md() != ext_css() && ext_md()
        != ext_jpeg() && ext_md() != ext_png() && ext_md() != ext_wasm() && ext_md() != ext_ico()
        && ext_md() != ext_svg() && ext_md() != ext_woff2()) by {
        assert(ext_md().len() == 2 && ext_js().len() == 2);
        assert(ext_md()[0] != ext_js()[0]);
    }
}

/// A file whose extension is neither markdown nor a supported kind renders
/// as the fixed `unsupported` body, never as a failure.
pub proof fn lemma_unknown_extension(template: Option<Template>, file: FileContent)
    requires
        file.extension@ != ext_md(),
        !is_passthrough(file.extension@),
    ensures
        rendered(template, file) == Some(unsupported_body()),
{
}

/// Compiles markdown to HTML and, given a template, fills the slot `name`.
fn process_markdown(template: Option<Template>, name: String, md: Vec<u8>) -> (r: Option<Vec<u8>>)
    ensures
        match r {
            Some(b) => rendered_markdown(template_text(template), name@, md@) == Some(b@),
            None => rendered_markdown(template_text(template), name@, md@) is None,
        },
{
    let source = match utf8_text(md) {
        Some(s) => s,
        None => return None,
    };
    let html = markdown_to_html(source.as_str());
    match template {
        Some(mut t) => {
            t.set_section(name, html);
            Some(bytes_of(&t.content))
        },
        None => Some(bytes_of(&html)),
    }
}

/// Renders a file by its extension (exact, case-sensitive). The
/// configuration is accepted for later use and does not change the result.
/// `None` when a markdown source is not UTF-8.
pub fn process_content(
    template: Option<Template>,
    _config: Option<Configuration>,
    file_content: FileContent,
) -> (r: Option<WebContent>)
    ensures
        r is Some <==> rendered(template, file_content) is Some,
        r is Some ==> tag_fits(file_content.extension@, r->0) && r->0.payload() == rendered(
            template,
            file_content,
        )->0,
{
    let ghost t0 = template;
    let ghost f0 = file_content;
    let ext = chars_of(file_content.extension.as_str());
    let content = file_content.content;
    if chars_equal(&ext, &vec!['h', 't', 'm', 'l']) {
        Some(WebContent::Html(content))
    } else if chars_equal(&ext, &vec!['m', 'd']) {
        match process_markdown(template, file_content.name, content) {
            Some(b) => Some(WebContent::Html(b)),
            None => None,
        }
    } else if chars_equal(&ext, &vec!['j', 's']) {
        Some(WebContent::JavaScript(content))
    } else if chars_equal(&ext, &vec!['c', 's', 's']) {
        Some(WebContent::Css(content))
    } else if chars_equal(&ext, &vec!['j', 'p', 'e', 'g']) {
        Some(WebContent::Jpeg(content))
    } else if chars_equal(&ext, &vec!['p', 'n', 'g']) {
        Some(WebContent::Png(content))
    } else if chars_equal(&ext, &vec!['w', 'a', 's', 'm']) {
        Some(WebContent::Wasm(content))
    } else if chars_equal(&ext, &vec!['i', 'c', 'o']) {
        Some(WebContent::Ico(content))
    } else if chars_equal(&ext, &vec!['s', 'v', 'g']) {
        Some(WebContent::Svg(content))
    } else if chars_equal(&ext, &vec!['w', 'o', 'f', 'f', '2']) {
        Some(WebContent::Woff2(content))
    } else {
        let body = vec![117u8, 110, 115, 117, 112, 112, 111, 114, 116, 101, 100];
        assert(body@ =~= unsupported_body());
        Some(WebContent::Html(body))
    }
}

} // verus!
