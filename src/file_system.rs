//! The path resolver: URL paths become paths inside the content root, and
//! files are looked up in a snapshot of the content tree.

use vstd::prelude::*;

use crate::text::{chars_of, string_of_chars};
use crate::types::{FileContent, UrlPath};

verus! {

/// What stands at a path of the content tree.
#[derive(Debug)]
pub enum Node {
    Dir,
    File(Vec<u8>),
}

/// One path of the content tree, relative to the root (segments joined by
/// `/`, the root itself being the empty path), with what stands there.
#[derive(Debug)]
pub struct Entry {
    pub path: String,
    pub node: Node,
}

/// A snapshot of the parts of the content tree that a request looks at.
/// A path that no entry names is absent; where two entries name one path,
/// the first counts.
#[derive(Debug)]
pub struct Disk {
    pub entries: Vec<Entry>,
}

/// What the snapshot holds at `p`.
pub open spec fn node_at(es: Seq<Entry>, p: Seq<char>) -> Option<Node>
    decreases es.len(),
{
    if es.len() == 0 {
        None
    } else if es[0].path@ == p {
        Some(es[0].node)
    } else {
        node_at(es.drop_first(), p)
    }
}

pub open spec fn is_dir_at(es: Seq<Entry>, p: Seq<char>) -> bool {
    node_at(es, p) matches Some(Node::Dir)
}

/// The bytes of the file at `p`, if a file stands there.
pub open spec fn file_at(es: Seq<Entry>, p: Seq<char>) -> Option<Seq<u8>> {
    match node_at(es, p) {
        Some(Node::File(b)) => Some(b@),
        _ => None,
    }
}

/// `s` cut at every `/`; empty pieces are kept.
pub open spec fn split_slash(s: Seq<char>) -> Seq<Seq<char>>
    decreases s.len(),
{
    if s.len() == 0 {
        seq![Seq::empty()]
    } else {
        let p = split_slash(s.drop_last());
        if s.last() == '/' {
            p.push(Seq::empty())
        } else {
            p.update(p.len() - 1, p.last().push(s.last()))
        }
    }
}

/// One segment applied to the directory stack: empty and `.` segments stay
/// put, `..` goes up, and going up from the root fails.
pub open spec fn step(st: Seq<Seq<char>>, seg: Seq<char>) -> Option<Seq<Seq<char>>> {
    if seg.len() == 0 || seg == seq!['.'] {
        Some(st)
    } else if seg == seq!['.', '.'] {
        if st.len() == 0 {
            None
        } else {
            Some(st.drop_last())
        }
    } else {
        Some(st.push(seg))
    }
}

pub open spec fn walk(segs: Seq<Seq<char>>) -> Option<Seq<Seq<char>>>
    decreases segs.len(),
{
    if segs.len() == 0 {
        Some(Seq::empty())
    } else {
        match walk(segs.drop_last()) {
            Some(st) => step(st, segs.last()),
            None => None,
        }
    }
}

/// The segments of the path inside the content root that `url` names, or
/// `None` when it would leave the root.
pub open spec fn url_segments(url: Seq<char>) -> Option<Seq<Seq<char>>> {
    walk(split_slash(url))
}

/// A segment that names an entry: neither empty, nor `.`, nor `..`.
pub open spec fn plain_segment(seg: Seq<char>) -> bool {
    &&& seg.len() > 0
    &&& seg != seq!['.']
    &&& seg != seq!['.', '.']
    &&& !seg.contains('/')
}

/// Every segment is plain: the path lies beneath the content root.
pub open spec fn beneath_root(segs: Seq<Seq<char>>) -> bool {
    forall|i: int| 0 <= i < segs.len() ==> plain_segment(#[trigger] segs[i])
}

/// No piece of a split holds a `/`.
proof fn lemma_split_no_slash(s: Seq<char>)
    ensures
        forall|i: int| 0 <= i < split_slash(s).len() ==> !(#[trigger] split_slash(s)[i]).contains('/'),
        split_slash(s).len() > 0,
    decreases s.len(),
{
    if s.len() > 0 {
        lemma_split_no_slash(s.drop_last());
        let p = split_slash(s.drop_last());
        if s.last() != '/' {
            let q = p.update(p.len() - 1, p.last().push(s.last()));
            assert forall|i: int| 0 <= i < q.len() implies !(#[trigger] q[i]).contains('/') by {
                if i == p.len() - 1 {
                    assert(!p[i].contains('/'));
                    if q[i].contains('/') {
                        let k = choose|k: int| 0 <= k < q[i].len() && q[i][k] == '/';
                        assert(p[i].push(s.last())[k] == '/');
                        assert(k < p[i].len());
                        assert(p[i][k] == '/');
                    }
                }
            }
        } else {
            let q = p.push(Seq::<char>::empty());
            assert forall|i: int| 0 <= i < q.len() implies !(#[trigger] q[i]).contains('/') by {
                if i < p.len() {
                    assert(q[i] == p[i]);
                }
            }
        }
    }
}

/// Walking slash-free segments yields only plain segments: a resolved path
/// never goes up, so every lookup stays beneath the content root.
pub proof fn lemma_walk_plain(segs: Seq<Seq<char>>)
    requires
        forall|i: int| 0 <= i < segs.len() ==> !(#[trigger] segs[i]).contains('/'),
    ensures
        walk(segs) matches Some(st) ==> beneath_root(st),
    decreases segs.len(),
{
    if segs.len() > 0 {
        let init = segs.drop_last();
        assert forall|i: int| 0 <= i < init.len() implies !(#[trigger] init[i]).contains('/') by {
            assert(init[i] == segs[i]);
        }
        lemma_walk_plain(init);
        assert(!segs[segs.len() - 1].contains('/'));
        if let Some(prev) = walk(init) {
            if let Some(st) = step(prev, segs.last()) {
                assert forall|i: int| 0 <= i < st.len() implies plain_segment(#[trigger] st[i]) by {
                    if i < prev.len() {
                        assert(st[i] == prev[i]);
                    }
                }
            }
        }
    }
}

/// Whatever a URL resolves to lies beneath the content root.
pub proof fn lemma_url_beneath_root(url: Seq<char>)
    ensures
        url_segments(url) matches Some(st) ==> beneath_root(st),
{
    lemma_split_no_slash(url);
    lemma_walk_plain(split_slash(url));
}

/// Segments joined by `/`.
pub open spec fn join(segs: Seq<Seq<char>>) -> Seq<char>
    decreases segs.len(),
{
    if segs.len() == 0 {
        Seq::empty()
    } else if segs.len() == 1 {
        segs[0]
    } else {
        join(segs.drop_last()) + seq!['/'] + segs.last()
    }
}

/// Index of the last `.` of `seg`, or -1.
pub open spec fn last_dot(seg: Seq<char>) -> int
    decreases seg.len(),
{
    if seg.len() == 0 {
        -1
    } else if seg.last() == '.' {
        seg.len() - 1
    } else {
        last_dot(seg.drop_last())
    }
}

/// The segment without its extension; a leading dot starts no extension.
pub open spec fn file_stem(seg: Seq<char>) -> Seq<char> {
    if last_dot(seg) <= 0 {
        seg
    } else {
        seg.take(last_dot(seg))
    }
}

/// What follows the last dot of the segment, or nothing.
pub open spec fn file_ext(seg: Seq<char>) -> Seq<char> {
    if last_dot(seg) <= 0 {
        Seq::empty()
    } else {
        seg.skip(last_dot(seg) + 1)
    }
}

pub open spec fn last_seg(segs: Seq<Seq<char>>) -> Seq<char> {
    if segs.len() == 0 {
        Seq::empty()
    } else {
        segs.last()
    }
}

/// `f` is the file at `segs` holding `bytes`.
pub open spec fn describes(f: FileContent, segs: Seq<Seq<char>>, bytes: Seq<u8>) -> bool {
    &&& f.path@ == join(segs)
    &&& f.name@ == file_stem(last_seg(segs))
    &&& f.extension@ == file_ext(last_seg(segs))
    &&& f.content@ == bytes
}

pub open spec fn content_html() -> Seq<char> {
    seq!['c', 'o', 'n', 't', 'e', 'n', 't', '.', 'h', 't', 'm', 'l']
}

pub open spec fn content_md() -> Seq<char> {
    seq!['c', 'o', 'n', 't', 'e', 'n', 't', '.', 'm', 'd']
}

/// The segments of the file that a request for `url` reads: the path itself
/// when it is a file; for a directory, its `content.html`, else its
/// `content.md`.
pub open spec fn resolved_file(es: Seq<Entry>, url: Seq<char>) -> Option<Seq<Seq<char>>> {
    match url_segments(url) {
        None => None,
        Some(segs) => if is_dir_at(es, join(segs)) {
            if file_at(es, join(segs.push(content_html()))) is Some {
                Some(segs.push(content_html()))
            } else if file_at(es, join(segs.push(content_md()))) is Some {
                Some(segs.push(content_md()))
            } else {
                None
            }
        } else if file_at(es, join(segs)) is Some {
            Some(segs)
        } else {
            None
        },
    }
}

/// The nearest file named `name` in the directories `segs.take(k)`,
/// `segs.take(k - 1)`, ..., up to the root.
pub open spec fn nearest(es: Seq<Entry>, segs: Seq<Seq<char>>, name: Seq<char>, k: nat) -> Option<
    Seq<Seq<char>>,
>
    decreases k,
{
    if file_at(es, join(segs.take(k as int).push(name))) is Some {
        Some(segs.take(k as int).push(name))
    } else if k == 0 {
        None
    } else {
        nearest(es, segs, name, (k - 1) as nat)
    }
}

/// The file named `name` nearest to `url`, searching from `url`'s own path
/// up to the root.
pub open spec fn found_file(es: Seq<Entry>, url: Seq<char>, name: Seq<char>) -> Option<
    Seq<Seq<char>>,
> {
    match url_segments(url) {
        None => None,
        Some(segs) => nearest(es, segs, name, segs.len()),
    }
}

/// The default documents' names are plain segments.
proof fn lemma_default_docs_plain()
    ensures
        plain_segment(content_html()),
        plain_segment(content_md()),
{
    assert(content_html()[0] == 'c');
    assert(content_html()[1] == 'o');
    assert(content_html()[2] == 'n');
    assert(content_html()[3] == 't');
    assert(content_html()[4] == 'e');
    assert(content_html()[5] == 'n');
    assert(content_html()[6] == 't');
    assert(content_html()[7] == '.');
    assert(content_html()[8] == 'h');
    assert(content_html()[9] == 't');
    assert(content_html()[10] == 'm');
    assert(content_html()[11] == 'l');
    assert(content_md()[0] == 'c');
    assert(content_md()[1] == 'o');
    assert(content_md()[2] == 'n');
    assert(content_md()[3] == 't');
    assert(content_md()[4] == 'e');
    assert(content_md()[5] == 'n');
    assert(content_md()[6] == 't');
    assert(content_md()[7] == '.');
    assert(content_md()[8] == 'm');
    assert(content_md()[9] == 'd');
    assert(content_html()[0] != seq!['.'][0]);
    assert(content_md()[0] != seq!['.'][0]);
    assert(!content_html().contains('/'));
    assert(!content_md().contains('/'));
}

proof fn lemma_push_beneath(segs: Seq<Seq<char>>, seg: Seq<char>)
    requires
        beneath_root(segs),
        plain_segment(seg),
    ensures
        beneath_root(segs.push(seg)),
{
    assert forall|i: int| 0 <= i < segs.push(seg).len() implies plain_segment(#[trigger] segs.push(seg)[i]) by {
        if i < segs.len() {
            assert(segs.push(seg)[i] == segs[i]);
        }
    }
}

proof fn lemma_nearest_shape(es: Seq<Entry>, segs: Seq<Seq<char>>, name: Seq<char>, k: nat)
    requires
        k <= segs.len(),
    ensures
        nearest(es, segs, name, k) matches Some(ts) ==> ts.len() >= 1 && ts.len() - 1 <= k
            && ts.drop_last() == segs.take(ts.len() - 1) && ts.last() == name,
    decreases k,
{
    assert(segs.take(k as int).push(name).drop_last() =~= segs.take(k as int));
    if k > 0 {
        lemma_nearest_shape(es, segs, name, (k - 1) as nat);
    }
}

/// The file found for `url` sits in a directory beneath the content root,
/// and under the name asked for; so the whole path lies beneath the root
/// when that name is a plain segment.
pub proof fn lemma_found_beneath_root(es: Seq<Entry>, url: Seq<char>, name: Seq<char>)
    ensures
        found_file(es, url, name) matches Some(ts) ==> ts.len() > 0 && ts.last() == name
            && beneath_root(ts.drop_last()) && (plain_segment(name) ==> beneath_root(ts)),
{
    lemma_url_beneath_root(url);
    if let Some(segs) = url_segments(url) {
        lemma_nearest_shape(es, segs, name, segs.len());
        if let Some(ts) = nearest(es, segs, name, segs.len()) {
            let parent = ts.drop_last();
            assert forall|i: int| 0 <= i < parent.len() implies plain_segment(#[trigger] parent[i]) by {
                assert(parent[i] == segs[i]);
            }
            assert(ts =~= parent.push(name));
            if plain_segment(name) {
                lemma_push_beneath(parent, name);
            }
        }
    }
}

/// The file that a request reads lies beneath the content root.
pub proof fn lemma_resolved_beneath_root(es: Seq<Entry>, url: Seq<char>)
    ensures
        resolved_file(es, url) matches Some(fs) ==> beneath_root(fs),
{
    lemma_url_beneath_root(url);
    lemma_default_docs_plain();
    if let Some(segs) = url_segments(url) {
        lemma_push_beneath(segs, content_html());
        lemma_push_beneath(segs, content_md());
    }
}

proof fn lemma_nearest_from(es: Seq<Entry>, segs: Seq<Seq<char>>, name: Seq<char>, k: nat, m: nat)
    requires
        k <= m <= segs.len(),
        file_at(es, join(segs.take(k as int).push(name))) is Some,
        forall|j: int| k < j <= segs.len() ==> file_at(es, #[trigger] join(segs.take(j).push(name))) is None,
    ensures
        nearest(es, segs, name, m) == Some(segs.take(k as int).push(name)),
    decreases m,
{
    if m > k {
        assert(file_at(es, join(segs.take(m as int).push(name))) is None);
        lemma_nearest_from(es, segs, name, k, (m - 1) as nat);
    }
}

/// The search finds the file in the nearest directory that holds one: from
/// the path itself upward, the first directory with `name` in it wins.
pub proof fn lemma_nearest_ancestor(
    es: Seq<Entry>,
    url: Seq<char>,
    name: Seq<char>,
    segs: Seq<Seq<char>>,
    k: nat,
)
    requires
        url_segments(url) == Some(segs),
        k <= segs.len(),
        file_at(es, join(segs.take(k as int).push(name))) is Some,
        forall|j: int| k < j <= segs.len() ==> file_at(es, #[trigger] join(segs.take(j).push(name))) is None,
    ensures
        found_file(es, url, name) == Some(segs.take(k as int).push(name)),
{
    lemma_nearest_from(es, segs, name, k, segs.len());
}

/// What the snapshot holds at `p`.
fn lookup<'a>(disk: &'a Disk, p: &String) -> (r: Option<&'a Node>)
    ensures
        match r {
            Some(n) => node_at(disk.entries@, p@) == Some(*n),
            None => node_at(disk.entries@, p@) is None,
        },
{
    let ghost es = disk.entries@;
    let mut i: usize = 0;
    assert(es.skip(0) =~= es);
    while i < disk.entries.len()
        invariant
            i <= es.len(),
            es == disk.entries@,
            node_at(es, p@) == node_at(es.skip(i as int), p@),
        decreases es.len() - i,
    {
        assert(es.skip(i as int)[0] == es[i as int]);
        if disk.entries[i].path == *p {
            return Some(&disk.entries[i].node);
        }
        assert(es.skip(i as int).drop_first() =~= es.skip(i + 1));
        i = i + 1;
    }
    None
}

/// The bytes of the file at `p`, if a file stands there.
fn file_bytes(disk: &Disk, p: &String) -> (r: Option<Vec<u8>>)
    ensures
        match r {
            Some(b) => file_at(disk.entries@, p@) == Some(b@),
            None => file_at(disk.entries@, p@) is None,
        },
{
    match lookup(disk, p) {
        Some(Node::File(b)) => {
            let c = b.clone();
            assert(c@ =~= b@);
            Some(c)
        },
        _ => None,
    }
}

fn is_dir_path(disk: &Disk, p: &String) -> (r: bool)
    ensures
        r == is_dir_at(disk.entries@, p@),
{
    match lookup(disk, p) {
        Some(Node::Dir) => true,
        _ => false,
    }
}

/// Applies one segment to the directory stack; `false` when it leaves the root.
fn push_segment(stack: &mut Vec<Vec<char>>, seg: Vec<char>) -> (ok: bool)
    ensures
        ok <==> step(old(stack).deep_view(), seg@) is Some,
        ok ==> final(stack).deep_view() == step(old(stack).deep_view(), seg@)->0,
{
    let n = seg.len();
    if n == 0 || (n == 1 && seg[0] == '.') {
        proof {
            if n == 1 {
                assert(seg@ =~= seq!['.']);
            }
        }
        true
    } else if n == 2 && seg[0] == '.' && seg[1] == '.' {
        assert(seg@ =~= seq!['.', '.']);
        if stack.len() == 0 {
            false
        } else {
            let _ = stack.pop();
            assert(stack.deep_view() =~= old(stack).deep_view().drop_last());
            true
        }
    } else {
        proof {
            if n == 1 {
                assert(seg@ != seq!['.']) by {
                    assert(seq!['.'][0] == '.');
                }
            }
            if n == 2 {
                assert(seg@ != seq!['.', '.']) by {
                    assert(seq!['.', '.'][0] == '.');
                    assert(seq!['.', '.'][1] == '.');
                }
            }
        }
        let ghost sv = seg@;
        assert(seg.deep_view() =~= sv);
        stack.push(seg);
        assert(stack.deep_view() =~= old(stack).deep_view().push(sv));
        true
    }
}

/// The segments of the path inside the content root that `url` names, or
/// `None` when `..` segments would leave the root.
pub fn segments(url: &str) -> (r: Option<Vec<Vec<char>>>)
    ensures
        match r {
            Some(v) => url_segments(url@) == Some(v.deep_view()),
            None => url_segments(url@) is None,
        },
{
    let cs = chars_of(url);
    let mut stack: Vec<Vec<char>> = Vec::new();
    let mut cur: Vec<char> = Vec::new();
    let mut alive = true;
    let mut i: usize = 0;
    assert(cs@.take(0) =~= Seq::<char>::empty());
    assert(stack.deep_view() =~= Seq::<Seq<char>>::empty());
    assert(split_slash(cs@.take(0)).drop_last() =~= Seq::<Seq<char>>::empty());
    while i < cs.len()
        invariant
            i <= cs.len(),
            cs@ == url@,
            split_slash(cs@.take(i as int)).len() > 0,
            cur@ == split_slash(cs@.take(i as int)).last(),
            alive ==> walk(split_slash(cs@.take(i as int)).drop_last()) == Some(stack.deep_view()),
            !alive ==> walk(split_slash(cs@.take(i as int)).drop_last()) is None,
        decreases cs.len() - i,
    {
        let ghost parts = split_slash(cs@.take(i as int));
        let c = cs[i];
        assert(cs@.take(i + 1).drop_last() =~= cs@.take(i as int));
        assert(cs@.take(i + 1).last() == c);
        if c == '/' {
            let ghost next = split_slash(cs@.take(i + 1));
            assert(next == parts.push(Seq::empty()));
            assert(next.drop_last() =~= parts);
            assert(parts =~= parts.drop_last().push(parts.last()));
            assert(parts.drop_last() == parts.drop_last().push(parts.last()).drop_last());
            let seg = cur;
            cur = Vec::new();
            if alive {
                alive = push_segment(&mut stack, seg);
            }
            assert(cur@ =~= next.last());
        } else {
            let ghost next = split_slash(cs@.take(i + 1));
            assert(next == parts.update(parts.len() - 1, parts.last().push(c)));
            assert(next.drop_last() =~= parts.drop_last());
            cur.push(c);
        }
        i = i + 1;
    }
    assert(cs@.take(i as int) =~= cs@);
    let ghost parts = split_slash(cs@);
    assert(parts =~= parts.drop_last().push(parts.last()));
    assert(parts.drop_last() == parts.drop_last().push(parts.last()).drop_last());
    if alive && push_segment(&mut stack, cur) {
        Some(stack)
    } else {
        None
    }
}

/// The first `n` segments joined by `/`.
pub(crate) fn joined(segs: &Vec<Vec<char>>, n: usize) -> (r: Vec<char>)
    requires
        n <= segs.len(),
    ensures
        r@ == join(segs.deep_view().take(n as int)),
{
    let ghost dv = segs.deep_view();
    let mut out: Vec<char> = Vec::new();
    let mut i: usize = 0;
    assert(dv.take(0) =~= Seq::<Seq<char>>::empty());
    while i < n
        invariant
            i <= n <= segs.len(),
            dv == segs.deep_view(),
            out@ == join(dv.take(i as int)),
        decreases n - i,
    {
        let ghost before = out@;
        assert(dv.take(i + 1).drop_last() =~= dv.take(i as int));
        assert(dv.take(i + 1).last() == segs[i as int]@);
        if i > 0 {
            out.push('/');
        }
        let seg = &segs[i];
        let mut j: usize = 0;
        let ghost mid = out@;
        while j < seg.len()
            invariant
                j <= seg.len(),
                out@ == mid + seg@.take(j as int),
            decreases seg.len() - j,
        {
            out.push(seg[j]);
            assert(seg@.take(j + 1) =~= seg@.take(j as int).push(seg@[j as int]));
            j = j + 1;
        }
        assert(seg@.take(j as int) =~= seg@);
        if i == 0 {
            assert(out@ =~= join(dv.take(1)));
        } else {
            assert(out@ =~= before + seq!['/'] + seg@);
        }
        i = i + 1;
    }
    out
}

/// The path of `name` inside the directory named by the first `k` segments.
pub(crate) fn child_path(segs: &Vec<Vec<char>>, k: usize, name: &Vec<char>) -> (r: String)
    requires
        k <= segs.len(),
    ensures
        r@ == join(segs.deep_view().take(k as int).push(name@)),
{
    let ghost parent = segs.deep_view().take(k as int);
    let ghost cand = parent.push(name@);
    assert(cand.drop_last() =~= parent);
    let mut out = joined(segs, k);
    if k > 0 {
        out.push('/');
    }
    let ghost mid = out@;
    let mut j: usize = 0;
    while j < name.len()
        invariant
            j <= name.len(),
            out@ == mid + name@.take(j as int),
        decreases name.len() - j,
    {
        out.push(name[j]);
        assert(name@.take(j + 1) =~= name@.take(j as int).push(name@[j as int]));
        j = j + 1;
    }
    assert(name@.take(j as int) =~= name@);
    if k == 0 {
        assert(out@ =~= join(cand));
    } else {
        assert(out@ =~= join(cand));
    }
    string_of_chars(&out)
}

/// Position of the last dot of `seg`, as `last_dot` says.
fn find_last_dot(seg: &Vec<char>) -> (r: Option<usize>)
    ensures
        match r {
            Some(i) => last_dot(seg@) == i as int && i < seg.len(),
            None => last_dot(seg@) == -1,
        },
{
    let mut j: usize = seg.len();
    assert(seg@.take(j as int) =~= seg@);
    while j > 0
        invariant
            j <= seg.len(),
            last_dot(seg@) == last_dot(seg@.take(j as int)),
        decreases j,
    {
        assert(seg@.take(j as int).last() == seg@[j - 1]);
        if seg[j - 1] == '.' {
            return Some(j - 1);
        }
        assert(seg@.take(j as int).drop_last() =~= seg@.take(j - 1));
        j = j - 1;
    }
    None
}

/// The record of the file at `path` whose last segment is `last`.
fn file_record(path: String, last: &Vec<char>, content: Vec<u8>) -> (f: FileContent)
    ensures
        f.path@ == path@,
        f.name@ == file_stem(last@),
        f.extension@ == file_ext(last@),
        f.content@ == content@,
{
    let (stem, ext) = match find_last_dot(last) {
        Some(d) if d > 0 => {
            let mut stem: Vec<char> = Vec::new();
            let mut ext: Vec<char> = Vec::new();
            let mut j: usize = 0;
            while j < last.len()
                invariant
                    0 < d < last.len(),
                    j <= last.len(),
                    j <= d ==> stem@ == last@.take(j as int) && ext@.len() == 0,
                    j > d ==> stem@ == last@.take(d as int) && ext@ == last@.subrange(d + 1, j as int),
                decreases last.len() - j,
            {
                if j < d {
                    stem.push(last[j]);
                    assert(last@.take(j + 1) =~= last@.take(j as int).push(last@[j as int]));
                } else if j > d {
                    ext.push(last[j]);
                    assert(last@.subrange(d + 1, j + 1) =~= last@.subrange(d + 1, j as int).push(last@[j as int]));
                } else {
                    assert(last@.subrange(d + 1, d + 1) =~= Seq::<char>::empty());
                }
                j = j + 1;
            }
            assert(ext@ =~= last@.skip(d + 1));
            (stem, ext)
        },
        _ => (last.clone(), Vec::new()),
    };
    proof {
        if last_dot(last@) <= 0 {
            assert(stem@ =~= last@);
        }
    }
    FileContent { path, name: string_of_chars(&stem), extension: string_of_chars(&ext), content }
}

/// Whether `url` names a directory inside the content root.
pub open spec fn names_dir(es: Seq<Entry>, url: Seq<char>) -> bool {
    match url_segments(url) {
        Some(segs) => is_dir_at(es, join(segs)),
        None => false,
    }
}

fn content_html_name() -> (r: Vec<char>)
    ensures
        r@ == content_html(),
{
    let r = vec!['c', 'o', 'n', 't', 'e', 'n', 't', '.', 'h', 't', 'm', 'l'];
    assert(r@ =~= content_html());
    r
}

fn content_md_name() -> (r: Vec<char>)
    ensures
        r@ == content_md(),
{
    let r = vec!['c', 'o', 'n', 't', 'e', 'n', 't', '.', 'm', 'd'];
    assert(r@ =~= content_md());
    r
}

/// The path inside the content root that `url` names, segments joined by
/// `/`; `None` when `..` segments would leave the root.
pub fn absolute_path(url: &UrlPath) -> (r: Option<String>)
    ensures
        match r {
            Some(p) => url_segments(url.0@) is Some && p@ == join(url_segments(url.0@)->0),
            None => url_segments(url.0@) is None,
        },
{
    match segments(url.0.as_str()) {
        Some(segs) => {
            let n = segs.len();
            let p = joined(&segs, n);
            assert(segs.deep_view().take(n as int) =~= segs.deep_view());
            Some(string_of_chars(&p))
        },
        None => None,
    }
}

/// Whether `url` names a directory of the snapshot.
pub fn is_dir(disk: &Disk, url: &UrlPath) -> (r: bool)
    ensures
        r == names_dir(disk.entries@, url.0@),
{
    match absolute_path(url) {
        Some(p) => is_dir_path(disk, &p),
        None => false,
    }
}

/// Reads the file that `url` names; for a directory, its `content.html`,
/// else its `content.md`. `None` when there is no such file or the path
/// would leave the root.
pub fn read_path(disk: &Disk, url: &UrlPath) -> (r: Option<FileContent>)
    ensures
        r is Some <==> resolved_file(disk.entries@, url.0@) is Some,
        r is Some ==> describes(
            r->0,
            resolved_file(disk.entries@, url.0@)->0,
            file_at(disk.entries@, join(resolved_file(disk.entries@, url.0@)->0))->0,
        ),
        r is Some ==> beneath_root(resolved_file(disk.entries@, url.0@)->0),
{
    proof {
        lemma_resolved_beneath_root(disk.entries@, url.0@);
    }
    let segs = match segments(url.0.as_str()) {
        Some(s) => s,
        None => return None,
    };
    let ghost sv = segs.deep_view();
    let n = segs.len();
    assert(sv.take(n as int) =~= sv);
    let p = string_of_chars(&joined(&segs, n));
    if is_dir_path(disk, &p) {
        let html = content_html_name();
        let hp = child_path(&segs, n, &html);
        if let Some(b) = file_bytes(disk, &hp) {
            return Some(file_record(hp, &html, b));
        }
        let md = content_md_name();
        let mp = child_path(&segs, n, &md);
        if let Some(b) = file_bytes(disk, &mp) {
            return Some(file_record(mp, &md, b));
        }
        None
    } else {
        match file_bytes(disk, &p) {
            Some(b) => {
                let last = if n > 0 {
                    let l = segs[n - 1].clone();
                    assert(l@ =~= sv.last());
                    l
                } else {
                    Vec::new()
                };
                Some(file_record(p, &last, b))
            },
            None => None,
        }
    }
}

/// Finds the file `name` nearest to `url`: in the path that `url` names,
/// else in its parent, and so on up to and including the content root.
pub fn find_file(disk: &Disk, url: &UrlPath, name: &str) -> (r: Option<FileContent>)
    ensures
        r is Some <==> found_file(disk.entries@, url.0@, name@) is Some,
        r is Some ==> describes(
            r->0,
            found_file(disk.entries@, url.0@, name@)->0,
            file_at(disk.entries@, join(found_file(disk.entries@, url.0@, name@)->0))->0,
        ),
        r is Some ==> beneath_root(found_file(disk.entries@, url.0@, name@)->0.drop_last()),
        r is Some && plain_segment(name@) ==> beneath_root(
            found_file(disk.entries@, url.0@, name@)->0,
        ),
{
    proof {
        lemma_found_beneath_root(disk.entries@, url.0@, name@);
    }
    let segs = match segments(url.0.as_str()) {
        Some(s) => s,
        None => return None,
    };
    let ghost sv = segs.deep_view();
    let name_chars = chars_of(name);
    let mut k: usize = segs.len();
    loop
        invariant
            k <= segs.len(),
            sv == segs.deep_view(),
            name_chars@ == name@,
            found_file(disk.entries@, url.0@, name@) == nearest(disk.entries@, sv, name@, k as nat),
        decreases k,
    {
        let cand = child_path(&segs, k, &name_chars);
        if let Some(b) = file_bytes(disk, &cand) {
            proof {
                lemma_found_beneath_root(disk.entries@, url.0@, name@);
            }
            return Some(file_record(cand, &name_chars, b));
        }
        if k == 0 {
            return None;
        }
        k = k - 1;
    }
}

} // verus!
