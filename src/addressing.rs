//! Mapping between (ref name, commit hash) pairs and store paths.
use crate::push::{find_char, first_index, lemma_first_index_at, lemma_first_index_none};
use vstd::prelude::*;

verus! {

/// A ref name together with the commit hash it points at.
pub struct GitRef {
    pub name: String,
    pub sha: String,
}

/// The address of one object in the store.
pub struct Key {
    pub bucket: String,
    pub key: String,
}

/// A store path that does not follow the `<root>/<name>/<sha>.bundle` layout.
pub struct MalformedPath {
    pub path: String,
}

/// The extension of every artifact.
pub open spec fn bundle_ext() -> Seq<char> {
    seq!['.', 'b', 'u', 'n', 'd', 'l', 'e']
}

/// `<root>/<name>/<sha>.bundle`
pub open spec fn bundle_path_spec(root: Seq<char>, name: Seq<char>, sha: Seq<char>) -> Seq<char> {
    root + seq!['/'] + name + seq!['/'] + sha + bundle_ext()
}

/// Index of the last occurrence of `c` in `s`, or -1.
pub open spec fn last_index(s: Seq<char>, c: char) -> int
    decreases s.len(),
{
    if s.len() == 0 {
        -1
    } else if s.last() == c {
        s.len() - 1
    } else {
        last_index(s.drop_last(), c)
    }
}

/// The (name, sha) that a path under `root` stands for, if it follows the layout:
/// the path starts with `root` and a slash, the name runs up to the last slash,
/// and the final segment is the hash followed by the bundle extension.
pub open spec fn decode_spec(root: Seq<char>, path: Seq<char>) -> Option<(Seq<char>, Seq<char>)> {
    let p = root.len() + 1int;
    if path.len() < p || path.take(root.len() as int) != root || path[root.len() as int] != '/' {
        None
    } else {
        let rest = path.skip(p);
        let j = last_index(rest, '/');
        if j < 0 {
            None
        } else {
            let file = rest.skip(j + 1);
            if file.len() < 7 || file.skip(file.len() - 7) != bundle_ext() {
                None
            } else {
                Some((rest.take(j), file.take(file.len() - 7)))
            }
        }
    }
}

proof fn lemma_last_index_at(s: Seq<char>, c: char, j: int)
    requires
        0 <= j < s.len(),
        s[j] == c,
        forall|k: int| j < k < s.len() ==> s[k] != c,
    ensures
        last_index(s, c) == j,
    decreases s.len(),
{
    if s.last() != c {
        lemma_last_index_at(s.drop_last(), c, j);
    }
}

proof fn lemma_last_index_none(s: Seq<char>, c: char)
    requires
        forall|k: int| 0 <= k < s.len() ==> s[k] != c,
    ensures
        last_index(s, c) == -1,
    decreases s.len(),
{
    if s.len() > 0 {
        lemma_last_index_none(s.drop_last(), c);
    }
}

/// Decoding the path of an artifact gives back its name and hash, for every
/// hash without a slash.
pub proof fn lemma_bundle_path_round_trip(root: Seq<char>, name: Seq<char>, sha: Seq<char>)
    requires
        !sha.contains('/'),
    ensures
        decode_spec(root, bundle_path_spec(root, name, sha)) == Some((name, sha)),
{
    let path = bundle_path_spec(root, name, sha);
    let rest = name + seq!['/'] + sha + bundle_ext();
    assert(path.take(root.len() as int) =~= root);
    assert(path.skip(root.len() + 1int) =~= rest);
    let j = name.len() as int;
    assert forall|k: int| j < k < rest.len() implies rest[k] != '/' by {
        if k < j + 1 + sha.len() {
            assert(rest[k] == sha[k - j - 1]);
        }
    }
    lemma_last_index_at(rest, '/', j);
    let file = rest.skip(j + 1);
    assert(file =~= sha + bundle_ext());
    assert(file.skip(file.len() - 7) =~= bundle_ext());
    assert(file.take(file.len() - 7) =~= sha);
    assert(rest.take(j) =~= name);
}

impl GitRef {
    /// The store path of this ref's bundle under `root`.
    pub fn bundle_path(&self, root: String) -> (r: String)
        ensures
            r@ == bundle_path_spec(root@, self.name@, self.sha@),
    {
        let mut s = root;
        proof {
            reveal_strlit("/");
            reveal_strlit(".bundle");
        }
        s.append("/");
        s.append(self.name.as_str());
        s.append("/");
        s.append(self.sha.as_str());
        s.append(".bundle");
        assert(s@ =~= bundle_path_spec(root@, self.name@, self.sha@));
        s
    }
}

/// Reads a store path under `root` back into the ref it holds.
pub fn decode_bundle_path(root: &str, path: &str) -> (r: Result<GitRef, MalformedPath>)
    ensures
        match r {
            Ok(g) => decode_spec(root@, path@) == Some((g.name@, g.sha@)),
            Err(e) => decode_spec(root@, path@) is None && e.path@ == path@,
        },
{
    let rl = root.unicode_len();
    let pl = path.unicode_len();
    if pl <= rl {
        return Err(MalformedPath { path: path.to_owned() });
    }
    let mut i: usize = 0;
    while i < rl
        invariant
            rl == root@.len(),
            pl == path@.len(),
            rl < pl,
            i <= rl,
            forall|k: int| 0 <= k < i ==> path@[k] == root@[k],
        decreases rl - i,
    {
        if path.get_char(i) != root.get_char(i) {
            proof {
                assert(path@.take(rl as int)[i as int] != root@[i as int]);
            }
            return Err(MalformedPath { path: path.to_owned() });
        }
        i = i + 1;
    }
    assert(path@.take(rl as int) =~= root@);
    if path.get_char(rl) != '/' {
        return Err(MalformedPath { path: path.to_owned() });
    }
    let p: usize = rl + 1;
    let ghost rest = path@.skip(p as int);
    // scan backwards for the last slash after the root
    let mut j: usize = pl;
    while j > p && path.get_char(j - 1) != '/'
        invariant
            pl == path@.len(),
            p <= j <= pl,
            rest == path@.skip(p as int),
            forall|k: int| j <= k < pl ==> path@[k] != '/',
        decreases j,
    {
        j = j - 1;
    }
    if j == p {
        proof {
            assert forall|k: int| 0 <= k < rest.len() implies rest[k] != '/' by {
                assert(rest[k] == path@[k + p]);
            }
            lemma_last_index_none(rest, '/');
        }
        return Err(MalformedPath { path: path.to_owned() });
    }
    // path[j - 1] is the last slash
    proof {
        assert forall|k: int| (j - 1 - p) < k < rest.len() implies rest[k] != '/' by {
            assert(rest[k] == path@[k + p]);
        }
        lemma_last_index_at(rest, '/', j - 1 - p);
    }
    let ghost file = rest.skip(j - p);
    assert(file =~= path@.subrange(j as int, pl as int));
    if pl - j < 7 {
        return Err(MalformedPath { path: path.to_owned() });
    }
    let e: usize = pl - 7;
    let ext_ok = path.get_char(e) == '.' && path.get_char(e + 1) == 'b' && path.get_char(e + 2)
        == 'u' && path.get_char(e + 3) == 'n' && path.get_char(e + 4) == 'd' && path.get_char(e
        + 5) == 'l' && path.get_char(e + 6) == 'e';
    assert(file.skip(file.len() - 7) =~= path@.subrange(e as int, pl as int));
    if !ext_ok {
        proof {
            if file.skip(file.len() - 7) == bundle_ext() {
                assert(path@.subrange(e as int, pl as int)[0] == '.');
                assert(path@.subrange(e as int, pl as int)[1] == 'b');
                assert(path@.subrange(e as int, pl as int)[2] == 'u');
                assert(path@.subrange(e as int, pl as int)[3] == 'n');
                assert(path@.subrange(e as int, pl as int)[4] == 'd');
                assert(path@.subrange(e as int, pl as int)[5] == 'l');
                assert(path@.subrange(e as int, pl as int)[6] == 'e');
            }
        }
        return Err(MalformedPath { path: path.to_owned() });
    }
    assert(file.skip(file.len() - 7) =~= bundle_ext());
    let name = path.substring_char(p, j - 1).to_owned();
    let sha = path.substring_char(j, e).to_owned();
    assert(name@ =~= rest.take(j - 1 - p));
    assert(sha@ =~= file.take(file.len() - 7));
    Ok(GitRef { name, sha })
}

/// Why a remote URL could not be read.
pub enum UrlError {
    /// It does not start with `s3://`.
    NotS3,
    /// It has no slash after the bucket.
    NoPrefix,
}

impl UrlError {
    /// The error as one line of text.
    pub fn message(&self) -> (r: String)
        ensures
            r@ == match self {
                UrlError::NotS3 => "remote url does not start with s3://. expected a url in the format s3://bucket/prefix"@,
                UrlError::NoPrefix => "remote url does not appear to have a prefix. expected a url in the format s3://bucket/prefix"@,
            },
    {
        match self {
            UrlError::NotS3 => String::from_str(
                "remote url does not start with s3://. expected a url in the format s3://bucket/prefix",
            ),
            UrlError::NoPrefix => String::from_str(
                "remote url does not appear to have a prefix. expected a url in the format s3://bucket/prefix",
            ),
        }
    }
}

pub open spec fn scheme() -> Seq<char> {
    seq!['s', '3', ':', '/', '/']
}

/// `s3://<bucket>/<prefix>`: the bucket up to the first slash, and the prefix
/// after it without one trailing slash.
pub open spec fn remote_url_spec(u: Seq<char>) -> Result<(Seq<char>, Seq<char>), UrlError> {
    if u.len() < 5 || u.take(5) != scheme() {
        Err(UrlError::NotS3)
    } else {
        let rest = u.skip(5);
        let s = first_index(rest, '/');
        if s < 0 {
            Err(UrlError::NoPrefix)
        } else {
            let end = if rest.last() == '/' { rest.len() - 1 } else { rest.len() as int };
            let prefix = if end <= s + 1 { seq![] } else { rest.subrange(s + 1, end) };
            Ok((rest.take(s), prefix))
        }
    }
}

/// Reads the remote's URL as the root under which the artifacts live.
pub fn parse_remote_url(url: &str) -> (r: Result<Key, UrlError>)
    ensures
        match (r, remote_url_spec(url@)) {
            (Ok(k), Ok((b, p))) => k.bucket@ == b && k.key@ == p,
            (Err(UrlError::NotS3), Err(UrlError::NotS3)) => true,
            (Err(UrlError::NoPrefix), Err(UrlError::NoPrefix)) => true,
            _ => false,
        },
{
    let n = url.unicode_len();
    if n < 5 {
        return Err(UrlError::NotS3);
    }
    let ok = url.get_char(0) == 's' && url.get_char(1) == '3' && url.get_char(2) == ':'
        && url.get_char(3) == '/' && url.get_char(4) == '/';
    if !ok {
        proof {
            if url@.take(5) == scheme() {
                assert(url@.take(5)[0] == 's');
                assert(url@.take(5)[1] == '3');
                assert(url@.take(5)[2] == ':');
                assert(url@.take(5)[3] == '/');
                assert(url@.take(5)[4] == '/');
            }
        }
        return Err(UrlError::NotS3);
    }
    assert(url@.take(5) =~= scheme());
    let ghost rest = url@.skip(5);
    let s = find_char(url, '/', 5);
    if s == n {
        proof {
            assert forall|k: int| 0 <= k < rest.len() implies rest[k] != '/' by {
                assert(rest[k] == url@[k + 5]);
            }
            lemma_first_index_none(rest, '/');
        }
        return Err(UrlError::NoPrefix);
    }
    proof {
        assert forall|k: int| 0 <= k < s - 5 implies rest[k] != '/' by {
            assert(rest[k] == url@[k + 5]);
        }
        lemma_first_index_at(rest, '/', s - 5);
    }
    let end: usize = if url.get_char(n - 1) == '/' { n - 1 } else { n };
    assert(rest.last() == url@[n - 1]);
    let bucket = url.substring_char(5, s).to_owned();
    assert(bucket@ =~= rest.take(s - 5));
    let key = if end <= s + 1 {
        String::new()
    } else {
        url.substring_char(s + 1, end).to_owned()
    };
    assert(end > s + 1 ==> key@ =~= rest.subrange(s - 5 + 1, end - 5));
    assert(end <= s + 1 ==> key@ =~= Seq::<char>::empty());
    Ok(Key { bucket, key })
}

} // verus!
