//! The resolution worker's decisions: one request path and a snapshot of the
//! content tree in, exactly one reply out.

use vstd::prelude::*;
use vstd::utf8::{decode_utf8, valid_utf8};

use crate::file_system::{
    child_path, content_html, content_md, file_at, file_ext, file_stem, find_file, found_file,
    is_dir, join, joined, last_seg, lemma_nearest_ancestor, names_dir, nearest, node_at, read_path, resolved_file,
    segments, url_segments, Disk, Entry,
};
use crate::templating::Template;
use crate::text::{chars_of, string_of_chars, trim_text, trimmed, utf8_text};
use crate::types::{Configuration, UrlPath, WebResponse};
use crate::web_content::{process_content, render_bytes, tag_fits};

verus! {

pub open spec fn redirect_marker() -> Seq<char> {
    seq!['u', 'r', 'l', '.', 'r', 'e', 'd', 'i', 'r', 'e', 'c', 't']
}

pub open spec fn template_name() -> Seq<char> {
    seq!['t', 'e', 'm', 'p', 'l', 'a', 't', 'e', '.', 'h', 't', 'm', 'l']
}

pub open spec fn config_name() -> Seq<char> {
    seq!['c', 'o', 'n', 'f', 'i', 'g', '.', 'j', 's', 'o', 'n']
}

pub open spec fn ends_with_slash(url: Seq<char>) -> bool {
    url.len() > 0 && url.last() == '/'
}

/// The text of the template nearest to `url`, if there is one and it is UTF-8.
pub open spec fn cascaded_template(es: Seq<Entry>, url: Seq<char>) -> Option<Seq<char>> {
    match found_file(es, url, template_name()) {
        Some(ts) => {
            let b = file_at(es, join(ts))->0;
            if valid_utf8(b) {
                Some(decode_utf8(b))
            } else {
                None
            }
        },
        None => None,
    }
}

/// `r` is the reply owed to a request for `url` against the snapshot `es`:
/// a request whose `..` segments leave the content root is refused; a
/// directory named without its trailing slash is redirected to the slashed
/// form; else a redirect marker at `url` followed by `url.redirect` redirects
/// to its trimmed text; else the file that `url` names is rendered, with the
/// nearest template; in any other case the reply is `NotFound`.
pub open spec fn answers(es: Seq<Entry>, url: Seq<char>, r: WebResponse) -> bool {
    if url_segments(url) is None {
        r is NotFound
    } else if names_dir(es, url) && !ends_with_slash(url) {
        r is Redirect && r->Redirect_0@ == url.push('/')
    } else {
        match resolved_file(es, url + redirect_marker()) {
            Some(rs) => {
                let b = file_at(es, join(rs))->0;
                if valid_utf8(b) {
                    r is Redirect && r->Redirect_0@ == trimmed(decode_utf8(b))
                } else {
                    r is NotFound
                }
            },
            None => match resolved_file(es, url) {
                None => r is NotFound,
                Some(fs) => {
                    let ext = file_ext(last_seg(fs));
                    match render_bytes(
                        cascaded_template(es, url),
                        file_stem(last_seg(fs)),
                        ext,
                        file_at(es, join(fs))->0,
                    ) {
                        None => r is NotFound,
                        Some(p) => r is Content && tag_fits(ext, r->Content_0)
                            && r->Content_0.payload() == p,
                    }
                },
            },
        }
    }
}

/// A directory named without its trailing slash is always redirected to the
/// slashed form, never served or refused.
pub proof fn lemma_directory_redirect(es: Seq<Entry>, url: Seq<char>, r: WebResponse)
    requires
        names_dir(es, url),
        !ends_with_slash(url),
        answers(es, url, r),
    ensures
        r is Redirect,
        r->Redirect_0@ == url.push('/'),
{
}

/// A request whose `..` segments would leave the content root is always
/// refused: no redirect, no content.
pub proof fn lemma_escape_not_found(es: Seq<Entry>, url: Seq<char>, r: WebResponse)
    requires
        url_segments(url) is None,
        answers(es, url, r),
    ensures
        r is NotFound,
{
}

/// A page whose own directories hold no template takes the one of its
/// nearest ancestor: where the nearest `template.html` from the path upward
/// stands at depth `k`, that is the template a rendered page is put in.
pub proof fn lemma_template_cascades(es: Seq<Entry>, url: Seq<char>, segs: Seq<Seq<char>>, k: nat)
    requires
        url_segments(url) == Some(segs),
        k <= segs.len(),
        file_at(es, join(segs.take(k as int).push(template_name()))) is Some,
        valid_utf8(file_at(es, join(segs.take(k as int).push(template_name())))->0),
        forall|j: int|
            k < j <= segs.len() ==> file_at(es, #[trigger] join(segs.take(j).push(template_name())))
                is None,
    ensures
        cascaded_template(es, url) == Some(
            decode_utf8(file_at(es, join(segs.take(k as int).push(template_name())))->0),
        ),
{
    lemma_nearest_ancestor(es, url, template_name(), segs, k);
}

/// The views of a list of strings.
pub open spec fn views(v: Seq<String>) -> Seq<Seq<char>> {
    v.map_values(|s: String| s@)
}

/// The paths that a file lookup at `segs` reads: the path, and the two
/// default documents inside it.
pub open spec fn file_probes(segs: Seq<Seq<char>>) -> Seq<Seq<char>> {
    seq![join(segs), join(segs.push(content_html())), join(segs.push(content_md()))]
}

/// The template and configuration candidates of the first `m` ancestors,
/// from the root down.
pub open spec fn cascade_probes(segs: Seq<Seq<char>>, m: nat) -> Seq<Seq<char>>
    decreases m,
{
    if m == 0 {
        Seq::empty()
    } else {
        cascade_probes(segs, (m - 1) as nat) + seq![
            join(segs.take(m - 1).push(template_name())),
            join(segs.take(m - 1).push(config_name())),
        ]
    }
}

/// Every path of the content tree that answering `url` may look at, so that
/// a snapshot holding them all is complete for the request.
pub open spec fn probe_list(url: Seq<char>) -> Seq<Seq<char>> {
    match url_segments(url) {
        Some(segs) => {
            let own = file_probes(segs) + cascade_probes(segs, segs.len() + 1);
            match url_segments(url + redirect_marker()) {
                Some(rs) => own + file_probes(rs),
                None => own,
            }
        },
        None => Seq::empty(),
    }
}

/// The two snapshots hold the same thing at `p`.
pub open spec fn same_at(es1: Seq<Entry>, es2: Seq<Entry>, p: Seq<char>) -> bool {
    node_at(es1, p) == node_at(es2, p)
}

proof fn lemma_cascade_len(segs: Seq<Seq<char>>, m: nat)
    ensures
        cascade_probes(segs, m).len() == 2 * m,
    decreases m,
{
    if m > 0 {
        lemma_cascade_len(segs, (m - 1) as nat);
    }
}

proof fn lemma_cascade_index(segs: Seq<Seq<char>>, m: nat, j: int)
    requires
        0 <= j < m,
    ensures
        cascade_probes(segs, m).len() == 2 * m,
        cascade_probes(segs, m)[2 * j] == join(segs.take(j).push(template_name())),
    decreases m,
{
    lemma_cascade_len(segs, m);
    lemma_cascade_len(segs, (m - 1) as nat);
    if j < m - 1 {
        lemma_cascade_index(segs, (m - 1) as nat, j);
    }
}

proof fn lemma_nearest_agree(
    es1: Seq<Entry>,
    es2: Seq<Entry>,
    segs: Seq<Seq<char>>,
    name: Seq<char>,
    k: nat,
)
    requires
        forall|j: int| 0 <= j <= k ==> same_at(es1, es2, #[trigger] join(segs.take(j).push(name))),
    ensures
        nearest(es1, segs, name, k) == nearest(es2, segs, name, k),
        nearest(es1, segs, name, k) matches Some(ts) ==> same_at(es1, es2, join(ts)),
    decreases k,
{
    assert(same_at(es1, es2, join(segs.take(k as int).push(name))));
    if k > 0 {
        lemma_nearest_agree(es1, es2, segs, name, (k - 1) as nat);
    }
}

proof fn lemma_resolved_agree(es1: Seq<Entry>, es2: Seq<Entry>, url: Seq<char>)
    requires
        url_segments(url) matches Some(segs) ==> forall|i: int|
            0 <= i < 3 ==> same_at(es1, es2, #[trigger] file_probes(segs)[i]),
    ensures
        resolved_file(es1, url) == resolved_file(es2, url),
        names_dir(es1, url) == names_dir(es2, url),
        resolved_file(es1, url) matches Some(fs) ==> same_at(es1, es2, join(fs)),
{
    if let Some(segs) = url_segments(url) {
        assert(same_at(es1, es2, file_probes(segs)[0]));
        assert(same_at(es1, es2, file_probes(segs)[1]));
        assert(same_at(es1, es2, file_probes(segs)[2]));
    }
}

/// A snapshot that holds what the content tree holds at every path of
/// `probe_list(url)` is enough: any two such snapshots owe the same reply.
pub proof fn lemma_probes_suffice(es1: Seq<Entry>, es2: Seq<Entry>, url: Seq<char>, r: WebResponse)
    requires
        forall|i: int| 0 <= i < probe_list(url).len() ==> same_at(es1, es2, #[trigger] probe_list(url)[i]),
    ensures
        answers(es1, url, r) == answers(es2, url, r),
{
    let list = probe_list(url);
    let marker_url = url + redirect_marker();
    if let Some(segs) = url_segments(url) {
        let own = file_probes(segs) + cascade_probes(segs, segs.len() + 1);
        lemma_cascade_index(segs, segs.len() + 1, 0);
        assert forall|i: int| 0 <= i < 3 implies same_at(es1, es2, #[trigger] file_probes(segs)[i]) by {
            assert(list[i] == file_probes(segs)[i]);
        }
        assert forall|j: int| 0 <= j <= segs.len() implies same_at(
            es1,
            es2,
            #[trigger] join(segs.take(j).push(template_name())),
        ) by {
            lemma_cascade_index(segs, segs.len() + 1, j);
            assert(list[3 + 2 * j] == join(segs.take(j).push(template_name())));
        }
        lemma_nearest_agree(es1, es2, segs, template_name(), segs.len());
        lemma_resolved_agree(es1, es2, url);
        if let Some(rs) = url_segments(marker_url) {
            assert forall|i: int| 0 <= i < 3 implies same_at(es1, es2, #[trigger] file_probes(rs)[i]) by {
                assert(list[own.len() + i] == file_probes(rs)[i]);
            }
        }
        lemma_resolved_agree(es1, es2, marker_url);
        assert(cascaded_template(es1, url) == cascaded_template(es2, url));
    }
}

fn push_file_probes(out: &mut Vec<String>, segs: &Vec<Vec<char>>)
    ensures
        views(final(out)@) == views(old(out)@) + file_probes(segs.deep_view()),
{
    let ghost sv = segs.deep_view();
    let n = segs.len();
    assert(sv.take(n as int) =~= sv);
    let html = chars_of("content.html");
    let md = chars_of("content.md");
    proof {
        reveal_strlit("content.html");
        reveal_strlit("content.md");
    }
    assert(html@ =~= content_html());
    assert(md@ =~= content_md());
    out.push(string_of_chars(&joined(segs, n)));
    out.push(child_path(segs, n, &html));
    out.push(child_path(segs, n, &md));
    assert(views(final(out)@) =~= views(old(out)@) + file_probes(sv));
}

/// The paths that app code must load into a snapshot before a request for
/// `url` is answered, as `probe_list` gives them.
pub fn probe_paths(url: &UrlPath) -> (r: Vec<String>)
    ensures
        views(r@) == probe_list(url.0@),
{
    let mut out: Vec<String> = Vec::new();
    assert(views(out@) =~= Seq::<Seq<char>>::empty());
    let segs = match segments(url.0.as_str()) {
        Some(segs) => segs,
        None => return out,
    };
    {
        let ghost sv = segs.deep_view();
        push_file_probes(&mut out, &segs);
        let tname = chars_of("template.html");
        let cname = chars_of("config.json");
        proof {
            reveal_strlit("template.html");
            reveal_strlit("config.json");
        }
        assert(tname@ =~= template_name());
        assert(cname@ =~= config_name());
        let mut k: usize = 0;
        loop
            invariant_except_break
                views(out@) == file_probes(sv) + cascade_probes(sv, k as nat),
            invariant
                k <= segs.len(),
                sv == segs.deep_view(),
                tname@ == template_name(),
                cname@ == config_name(),
            ensures
                views(out@) == file_probes(sv) + cascade_probes(sv, sv.len() + 1),
            decreases segs.len() - k,
        {
            let ghost before = views(out@);
            out.push(child_path(&segs, k, &tname));
            out.push(child_path(&segs, k, &cname));
            assert(views(out@) =~= before + seq![
                join(sv.take(k as int).push(template_name())),
                join(sv.take(k as int).push(config_name())),
            ]);
            assert(views(out@) =~= file_probes(sv) + cascade_probes(sv, (k + 1) as nat));
            if k == segs.len() {
                break;
            }
            k = k + 1;
        }
    }
    let ghost own = views(out@);
    let mut cs = chars_of(url.0.as_str());
    push_chars(&mut cs, &chars_of("url.redirect"));
    proof {
        reveal_strlit("url.redirect");
    }
    assert(cs@ =~= url.0@ + redirect_marker());
    if let Some(rs) = segments(string_of_chars(&cs).as_str()) {
        push_file_probes(&mut out, &rs);
    }
    out
}

/// Appends the characters of `tail` to `cs`.
fn push_chars(cs: &mut Vec<char>, tail: &Vec<char>)
    ensures
        final(cs)@ == old(cs)@ + tail@,
{
    let ghost base = cs@;
    let mut j: usize = 0;
    while j < tail.len()
        invariant
            j <= tail.len(),
            cs@ == base + tail@.take(j as int),
        decreases tail.len() - j,
    {
        cs.push(tail[j]);
        assert(tail@.take(j + 1) =~= tail@.take(j as int).push(tail@[j as int]));
        j = j + 1;
    }
    assert(tail@.take(j as int) =~= tail@);
}

/// Loads the template nearest to `url`; `None` when there is none or it is
/// not UTF-8.
fn nearest_template(disk: &Disk, url: &UrlPath) -> (r: Option<Template>)
    ensures
        match r {
            Some(t) => cascaded_template(disk.entries@, url.0@) == Some(t.content@),
            None => cascaded_template(disk.entries@, url.0@) is None,
        },
{
    proof {
        reveal_strlit("template.html");
    }
    assert("template.html"@ =~= template_name());
    match find_file(disk, url, "template.html") {
        Some(file) => Template::new(file),
        None => None,
    }
}

/// Decides the reply to a request for `url` against the snapshot `disk`.
/// The configuration found for the request is accepted for later use; it
/// does not change the reply.
pub fn resolve(disk: &Disk, url: &UrlPath, config: Option<Configuration>) -> (r: WebResponse)
    ensures
        answers(disk.entries@, url.0@, r),
{
    let ghost es = disk.entries@;
    if segments(url.0.as_str()).is_none() {
        return WebResponse::NotFound;
    }
    let mut cs = chars_of(url.0.as_str());
    let n = cs.len();
    let slashed = n > 0 && cs[n - 1] == '/';
    if is_dir(disk, url) && !slashed {
        cs.push('/');
        return WebResponse::Redirect(string_of_chars(&cs));
    }
    proof {
        reveal_strlit("url.redirect");
    }
    let marker = chars_of("url.redirect");
    assert(marker@ =~= redirect_marker());
    push_chars(&mut cs, &marker);
    let redirect_url = UrlPath(string_of_chars(&cs));
    if let Some(marker_file) = read_path(disk, &redirect_url) {
        return match utf8_text(marker_file.content) {
            Some(text) => WebResponse::Redirect(trim_text(text.as_str())),
            None => WebResponse::NotFound,
        };
    }
    let template = nearest_template(disk, url);
    match read_path(disk, url) {
        None => WebResponse::NotFound,
        Some(file) => match process_content(template, config, file) {
            Some(content) => WebResponse::Content(content),
            None => WebResponse::NotFound,
        },
    }
}

/// Decides the replies to a queue of requests, in order: one reply per
/// request, each the one owed to that request alone.
pub fn resolve_each(disk: &Disk, urls: &Vec<UrlPath>) -> (r: Vec<WebResponse>)
    ensures
        r.len() == urls.len(),
        forall|i: int| 0 <= i < urls.len() ==> answers(disk.entries@, urls[i].0@, #[trigger] r[i]),
{
    let mut out: Vec<WebResponse> = Vec::new();
    let mut i: usize = 0;
    while i < urls.len()
        invariant
            i <= urls.len(),
            out.len() == i,
            forall|k: int| 0 <= k < i ==> answers(disk.entries@, urls[k].0@, #[trigger] out[k]),
        decreases urls.len() - i,
    {
        let reply = resolve(disk, &urls[i], None);
        out.push(reply);
        i = i + 1;
    }
    out
}

} // verus!
