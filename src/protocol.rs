//! The remote-helper protocol: reading a command line and writing replies.
use crate::addressing::{bundle_path_spec, GitRef, Key};
use crate::catalog::{Catalog, Record, RemoteRefs};
use crate::push::{push_ref_spec, parse_push_ref, PushOutcome, PushRequest};
use vstd::prelude::*;

verus! {

/// ASCII whitespace, as the protocol separates words.
pub open spec fn is_ws(c: char) -> bool {
    c == ' ' || c == '\t' || c == '\n' || c == '\r' || c == '\x0C'
}

/// Reading `s` from the left: the finished words and the word in progress.
pub open spec fn scan_words(s: Seq<char>) -> (Seq<Seq<char>>, Seq<char>)
    decreases s.len(),
{
    if s.len() == 0 {
        (seq![], seq![])
    } else {
        let (done, cur) = scan_words(s.drop_last());
        if is_ws(s.last()) {
            if cur.len() > 0 { (done.push(cur), seq![]) } else { (done, cur) }
        } else {
            (done, cur.push(s.last()))
        }
    }
}

/// The words of `s`: its maximal runs of characters other than whitespace.
pub open spec fn words(s: Seq<char>) -> Seq<Seq<char>> {
    let (done, cur) = scan_words(s);
    if cur.len() > 0 { done.push(cur) } else { done }
}

/// Splits a line into its words.
pub fn split_words(line: &str) -> (r: Vec<String>)
    ensures
        r@.map_values(|w: String| w@) == words(line@),
{
    let n = line.unicode_len();
    let mut done: Vec<String> = Vec::new();
    let mut start: usize = 0;
    let mut i: usize = 0;
    while i < n
        invariant
            n == line@.len(),
            start <= i <= n,
            (done@.map_values(|w: String| w@), line@.subrange(start as int, i as int)) == scan_words(
                line@.take(i as int),
            ),
        decreases n - i,
    {
        let ghost d0 = done@;
        assert(line@.take(i + 1).drop_last() =~= line@.take(i as int));
        if is_space(line.get_char(i)) {
            if start < i {
                done.push(line.substring_char(start, i).to_owned());
                assert(done@.map_values(|w: String| w@) =~= d0.map_values(|w: String| w@).push(
                    line@.subrange(start as int, i as int),
                ));
            }
            start = i + 1;
        } else {
            assert(line@.subrange(start as int, i + 1) =~= line@.subrange(start as int, i as int).push(
                line@[i as int],
            ));
        }
        i = i + 1;
    }
    assert(line@.take(n as int) =~= line@);
    if start < n {
        let ghost d0 = done@;
        done.push(line.substring_char(start, n).to_owned());
        assert(done@.map_values(|w: String| w@) =~= d0.map_values(|w: String| w@).push(
            line@.subrange(start as int, n as int),
        ));
    }
    done
}

fn is_space(c: char) -> (r: bool)
    ensures
        r == is_ws(c),
{
    c == ' ' || c == '\t' || c == '\n' || c == '\r' || c == '\x0C'
}

/// One request of the protocol.
pub enum Command {
    Capabilities,
    List,
    Push { arg: String },
    Fetch { sha: String, name: String },
    Unknown,
    /// A blank line: the session ends.
    End,
}

pub open spec fn capabilities_word() -> Seq<char> {
    seq!['c', 'a', 'p', 'a', 'b', 'i', 'l', 'i', 't', 'i', 'e', 's']
}

pub open spec fn list_word() -> Seq<char> {
    seq!['l', 'i', 's', 't']
}

pub open spec fn for_push_word() -> Seq<char> {
    seq!['f', 'o', 'r', '-', 'p', 'u', 's', 'h']
}

pub open spec fn push_word() -> Seq<char> {
    seq!['p', 'u', 's', 'h']
}

pub open spec fn fetch_word() -> Seq<char> {
    seq!['f', 'e', 't', 'c', 'h']
}

pub open spec fn is_list(w: Seq<Seq<char>>) -> bool {
    (w.len() == 1 && w[0] == list_word()) || (w.len() == 2 && w[0] == list_word() && w[1]
        == for_push_word())
}

pub open spec fn is_capabilities(w: Seq<Seq<char>>) -> bool {
    w.len() == 1 && w[0] == capabilities_word()
}

pub open spec fn is_push(w: Seq<Seq<char>>) -> bool {
    w.len() == 2 && w[0] == push_word()
}

pub open spec fn is_fetch(w: Seq<Seq<char>>) -> bool {
    w.len() == 3 && w[0] == fetch_word()
}

fn word_is(w: &String, lit: &str) -> (r: bool)
    ensures
        r == (w@ == lit@),
{
    let l = lit.to_owned();
    *w == l
}

/// Reads one line of the protocol.
pub fn parse_command(line: &str) -> (r: Command)
    ensures
        ({
            let w = words(line@);
            match r {
                Command::End => w.len() == 0,
                Command::Capabilities => is_capabilities(w),
                Command::List => is_list(w),
                Command::Push { arg } => is_push(w) && arg@ == w[1],
                Command::Fetch { sha, name } => is_fetch(w) && sha@ == w[1] && name@ == w[2],
                Command::Unknown => w.len() > 0 && !is_capabilities(w) && !is_list(w) && !is_push(
                    w,
                ) && !is_fetch(w),
            }
        }),
{
    let mut w = split_words(line);
    let ghost v = w@.map_values(|x: String| x@);
    proof {
        reveal_strlit("capabilities");
        reveal_strlit("list");
        reveal_strlit("for-push");
        reveal_strlit("push");
        reveal_strlit("fetch");
        assert("capabilities"@ =~= capabilities_word());
        assert("list"@ =~= list_word());
        assert("for-push"@ =~= for_push_word());
        assert("push"@ =~= push_word());
        assert("fetch"@ =~= fetch_word());
    }
    let n = w.len();
    if n == 0 {
        return Command::End;
    }
    assert(v[0] == w@[0]@);
    let first_is_cap = word_is(&w[0], "capabilities");
    let first_is_list = word_is(&w[0], "list");
    let first_is_push = word_is(&w[0], "push");
    let first_is_fetch = word_is(&w[0], "fetch");
    assert(first_is_cap == (v[0] == capabilities_word()));
    assert(first_is_list == (v[0] == list_word()));
    assert(first_is_push == (v[0] == push_word()));
    assert(first_is_fetch == (v[0] == fetch_word()));
    if n == 1 && first_is_cap {
        Command::Capabilities
    } else if n == 1 && first_is_list {
        Command::List
    } else if n == 2 && first_is_list && word_is(&w[1], "for-push") {
        assert(v[1] == w@[1]@);
        Command::List
    } else if n == 2 && first_is_push {
        assert(v[1] == w@[1]@);
        let arg = w.pop().unwrap();
        Command::Push { arg }
    } else if n == 3 && first_is_fetch {
        assert(v[1] == w@[1]@);
        assert(v[2] == w@[2]@);
        let name = w.pop().unwrap();
        let sha = w.pop().unwrap();
        Command::Fetch { sha, name }
    } else {
        proof {
            if n == 2 && first_is_list {
                assert(v[1] == w@[1]@);
            }
        }
        Command::Unknown
    }
}

/// The views of a sequence of lines.
pub open spec fn lines(v: Seq<String>) -> Seq<Seq<char>> {
    v.map_values(|s: String| s@)
}

fn text(lit: &str) -> (r: String)
    ensures
        r@ == lit@,
{
    String::from_str(lit)
}

/// A one-line reply and the blank line that ends it.
fn reply(line: String) -> (r: Vec<String>)
    ensures
        lines(r@) == seq![line@, Seq::<char>::empty()],
{
    let mut v: Vec<String> = Vec::new();
    v.push(line);
    v.push(String::new());
    assert(lines(v@) =~= seq![line@, Seq::<char>::empty()]);
    v
}

/// The reply to `capabilities`.
pub fn capabilities_reply() -> (r: Vec<String>)
    ensures
        lines(r@) == seq!["*push"@, "*fetch"@, Seq::<char>::empty()],
{
    let mut v: Vec<String> = Vec::new();
    v.push(text("*push"));
    v.push(text("*fetch"));
    v.push(String::new());
    assert(lines(v@) =~= seq!["*push"@, "*fetch"@, Seq::<char>::empty()]);
    v
}

/// `error <msg>` and the blank line.
pub fn error_reply(msg: &str) -> (r: Vec<String>)
    ensures
        lines(r@) == seq!["error "@ + msg@, Seq::<char>::empty()],
{
    let mut l = text("error ");
    l.append(msg);
    reply(l)
}

/// The first seven characters of a hash, or all of a shorter one.
pub open spec fn short_sha(s: Seq<char>) -> Seq<char> {
    if s.len() <= 7 { s } else { s.take(7) }
}

/// `<sha> <name>`: the line of a ref's current artifact.
pub open spec fn canonical_line(r: Record) -> Seq<char> {
    r.sha + seq![' '] + r.name
}

/// `<sha> <name>__<short sha>`: the line of a superseded artifact.
pub open spec fn stale_line(r: Record) -> Seq<char> {
    r.sha + seq![' '] + r.name + seq!['_', '_'] + short_sha(r.sha)
}

/// The lines of one history: its first artifact under the ref's own name, the
/// others under disambiguated names.
pub open spec fn history_lines(h: Seq<Record>) -> Seq<Seq<char>> {
    if h.len() == 0 {
        seq![]
    } else {
        seq![canonical_line(h[0])] + h.skip(1).map_values(|r: Record| stale_line(r))
    }
}

/// The lines of the histories of `e`, in order.
pub open spec fn entries_lines(e: Seq<(String, RemoteRefs)>) -> Seq<Seq<char>>
    decreases e.len(),
{
    if e.len() == 0 {
        seq![]
    } else {
        entries_lines(e.drop_last()) + history_lines(e.last().1.history())
    }
}

/// The ref that `HEAD` is advertised to point at.
pub open spec fn master_ref() -> Seq<char> {
    seq!['r', 'e', 'f', 's', '/', 'h', 'e', 'a', 'd', 's', '/', 'm', 'a', 's', 't', 'e', 'r']
}

/// The reply to `list`: every history's lines, the `HEAD` alias where the
/// master branch exists, and the blank line.
pub open spec fn list_reply_spec(c: Catalog) -> Seq<Seq<char>> {
    entries_lines(c.entries@) + (if c.has_entry(master_ref()) {
        seq!["@refs/heads/master HEAD"@]
    } else {
        seq![]
    }) + seq![Seq::<char>::empty()]
}

fn stale_name(r: &crate::catalog::RemoteRef) -> (s: String)
    ensures
        s@ == stale_line(r@),
{
    proof {
        reveal_strlit(" ");
        reveal_strlit("__");
    }
    let n = r.reference.sha.as_str().unicode_len();
    let k: usize = if n <= 7 { n } else { 7 };
    let mut l = r.reference.sha.clone();
    l.append(" ");
    l.append(r.reference.name.as_str());
    l.append("__");
    l.append(r.reference.sha.as_str().substring_char(0, k));
    assert(l@ =~= stale_line(r@));
    l
}

fn canonical_name(r: &crate::catalog::RemoteRef) -> (s: String)
    ensures
        s@ == canonical_line(r@),
{
    proof {
        reveal_strlit(" ");
    }
    let mut l = r.reference.sha.clone();
    l.append(" ");
    l.append(r.reference.name.as_str());
    assert(l@ =~= canonical_line(r@));
    l
}

/// The reply to `list` on the catalog `c`.
pub fn list_reply(c: &Catalog) -> (r: Vec<String>)
    ensures
        lines(r@) == list_reply_spec(*c),
{
    let mut out: Vec<String> = Vec::new();
    let n = c.entries.len();
    let mut i: usize = 0;
    while i < n
        invariant
            n == c.entries.len(),
            i <= n,
            lines(out@) == entries_lines(c.entries@.take(i as int)),
        decreases n - i,
    {
        let h = &c.entries[i].1;
        let ghost hs = h.history();
        let ghost base = lines(out@);
        assert(c.entries@.take(i + 1).drop_last() =~= c.entries@.take(i as int));
        let m = h.by_update_time.len();
        let mut j: usize = 0;
        while j < m
            invariant
                m == h.by_update_time.len(),
                hs == h.history(),
                j <= m,
                lines(out@) == base + history_lines(hs.take(j as int)),
            decreases m - j,
        {
            let ghost before = lines(out@);
            let a = &h.by_update_time[j];
            if j == 0 {
                out.push(canonical_name(a));
                assert(history_lines(hs.take(1)) =~= seq![canonical_line(hs[0])]);
            } else {
                out.push(stale_name(a));
                assert(hs.take(j + 1).skip(1) =~= hs.take(j as int).skip(1).push(hs[j as int]));
                assert(history_lines(hs.take(j + 1)) =~= history_lines(hs.take(j as int)).push(
                    stale_line(hs[j as int]),
                ));
            }
            assert(lines(out@) =~= before.push(lines(out@).last()));
            j = j + 1;
        }
        assert(hs.take(m as int) =~= hs);
        i = i + 1;
    }
    assert(c.entries@.take(n as int) =~= c.entries@);
    if c.contains_key("refs/heads/master") {
        proof {
            reveal_strlit("refs/heads/master");
            assert("refs/heads/master"@ =~= master_ref());
        }
        out.push(text("@refs/heads/master HEAD"));
    } else {
        proof {
            reveal_strlit("refs/heads/master");
            assert("refs/heads/master"@ =~= master_ref());
        }
    }
    out.push(String::new());
    assert(lines(out@) =~= list_reply_spec(*c));
    out
}

proof fn lemma_entries_lines_contains(e: Seq<(String, RemoteRefs)>, i: int)
    requires
        0 <= i < e.len(),
        e[i].1.by_update_time.len() > 0,
    ensures
        entries_lines(e).contains(canonical_line(e[i].1.history()[0])),
    decreases e.len(),
{
    let prev = entries_lines(e.drop_last());
    let hl = history_lines(e.last().1.history());
    assert(entries_lines(e) == prev + hl);
    if i == e.len() - 1 {
        assert((prev + hl)[prev.len() as int] == canonical_line(e[i].1.history()[0]));
    } else {
        assert(e.drop_last()[i] == e[i]);
        lemma_entries_lines_contains(e.drop_last(), i);
        let k = choose|k: int| 0 <= k < prev.len() && prev[k] == canonical_line(e[i].1.history()[0]);
        assert((prev + hl)[k] == prev[k]);
    }
}

/// In a catalog of the store, every history runs from the most recently updated
/// artifact to the oldest, and `list` reports the first one as the ref itself:
/// `<sha> <name>`.
pub proof fn lemma_newest_is_listed_as_ref(c: Catalog, recs: Seq<Record>, i: int)
    requires
        c.holds(recs),
        0 <= i < c.entries.len(),
    ensures
        crate::catalog::newest_first(c.entries@[i].1.history()),
        list_reply_spec(c).contains(
            c.entries@[i].1.history()[0].sha + seq![' '] + c.name(i),
        ),
{
    let h = c.entries@[i].1;
    assert(h.wf(c.name(i)));
    assert(h.history()[0].name == c.name(i));
    lemma_entries_lines_contains(c.entries@, i);
    let e = entries_lines(c.entries@);
    let tail = (if c.has_entry(master_ref()) {
        seq!["@refs/heads/master HEAD"@]
    } else {
        seq![]
    }) + seq![Seq::<char>::empty()];
    let k = choose|k: int| 0 <= k < e.len() && e[k] == canonical_line(h.history()[0]);
    assert(list_reply_spec(c) =~= e + tail);
    assert((e + tail)[k] == e[k]);
}

/// The message that ends a push whose two ref names differ.
pub open spec fn mismatch_message() -> Seq<char> {
    "src_ref != dst_ref"@
}

/// Starts a push: the request to carry out, or the reply that ends it at once
/// (an argument without a colon, or two different ref names).
pub fn start_push(arg: &str) -> (r: Result<PushRequest, Vec<String>>)
    ensures
        match push_ref_spec(arg@) {
            None => r matches Err(v) && lines(v@) == seq![
                "error Invalid push reference format"@,
                Seq::<char>::empty(),
            ],
            Some((force, src, dst)) => if src != dst {
                r matches Err(v) && lines(v@) == seq!["error src_ref != dst_ref"@, Seq::<char>::empty()]
            } else {
                r matches Ok(p) && p.force == force && p.src@ == src && p.dst@ == dst
            },
        },
{
    match parse_push_ref(arg) {
        None => Err(reply(text("error Invalid push reference format"))),
        Some(p) => {
            if p.src == p.dst {
                Ok(p)
            } else {
                Err(reply(text("error src_ref != dst_ref")))
            }
        },
    }
}

/// The reason given when a push is refused.
pub open spec fn rejected_line() -> Seq<char> {
    "error remote changed: a force push is required to overwrite, and the existing artifact is preserved until it is merged"@
}

/// The reply to a decided push: refused; accepted, with the upload's error if
/// it failed; or accepted and stored.
pub fn push_reply(dst: &str, outcome: &PushOutcome, upload_error: &Option<String>) -> (r: Vec<String>)
    ensures
        lines(r@) == if !outcome.accepted {
            seq![rejected_line(), Seq::<char>::empty()]
        } else {
            match upload_error {
                Some(e) => seq!["error failed to push: "@ + e@, Seq::<char>::empty()],
                None => seq!["ok "@ + dst@, Seq::<char>::empty()],
            }
        },
{
    if !outcome.accepted {
        reply(
            text(
                "error remote changed: a force push is required to overwrite, and the existing artifact is preserved until it is merged",
            ),
        )
    } else {
        match upload_error {
            Some(e) => {
                let mut l = text("error failed to push: ");
                l.append(e.as_str());
                reply(l)
            },
            None => {
                let mut l = text("ok ");
                l.append(dst);
                reply(l)
            },
        }
    }
}

/// The store object that `fetch <sha> <name>` downloads; None for `HEAD`, which
/// needs no access to the store.
pub fn fetch_target(root: &Key, sha: &str, name: &str) -> (r: Option<Key>)
    ensures
        match r {
            None => name@ == "HEAD"@,
            Some(k) => name@ != "HEAD"@ && k.bucket@ == root.bucket@ && k.key@ == bundle_path_spec(
                root.key@,
                name@,
                sha@,
            ),
        },
{
    let n = name.to_owned();
    if n == text("HEAD") {
        return None;
    }
    let g = GitRef { name: n, sha: sha.to_owned() };
    let key = g.bundle_path(root.key.clone());
    Some(Key { bucket: root.bucket.clone(), key })
}

/// What the session does after a command: whether it goes on, and whether it
/// is then inside a batch of `push` or `fetch` lines. A blank line ends a batch;
/// outside a batch it ends the session.
pub fn after_command(cmd: &Command, in_batch: bool) -> (r: (bool, bool))
    ensures
        r == match cmd {
            Command::End => (in_batch, false),
            Command::Push { .. } => (true, true),
            Command::Fetch { .. } => (true, true),
            _ => (true, false),
        },
{
    match cmd {
        Command::End => (in_batch, false),
        Command::Push { .. } => (true, true),
        Command::Fetch { .. } => (true, true),
        _ => (true, false),
    }
}

} // verus!
