//! The remote catalog: every artifact under the root, grouped by ref name and
//! ordered from the most recent update to the oldest.
use crate::addressing::{decode_bundle_path, decode_spec, GitRef, Key};
use itertools::Itertools;
use vstd::prelude::*;

verus! {

broadcast use vstd::seq_lib::group_seq_properties, vstd::seq_lib::group_to_multiset_ensures;

/// One object as the store lists it.
pub struct StoredObject {
    pub key: Option<String>,
    pub last_modified: Option<String>,
}

/// One artifact found in the store.
pub struct RemoteRef {
    pub object: Key,
    pub updated: String,
    pub reference: GitRef,
}

/// What an artifact holds, as plain text.
pub struct Record {
    pub bucket: Seq<char>,
    pub key: Seq<char>,
    pub updated: Seq<char>,
    pub name: Seq<char>,
    pub sha: Seq<char>,
}

impl View for RemoteRef {
    type V = Record;

    open spec fn view(&self) -> Record {
        Record {
            bucket: self.object.bucket@,
            key: self.object.key@,
            updated: self.updated@,
            name: self.reference.name@,
            sha: self.reference.sha@,
        }
    }
}

/// The records of a sequence of artifacts.
pub open spec fn records(s: Seq<RemoteRef>) -> Seq<Record> {
    s.map_values(|r: RemoteRef| r@)
}

/// The order of the store's update times: lexicographic by character, which
/// for UTF-8 text is the order of the bytes.
pub open spec fn text_le(a: Seq<char>, b: Seq<char>) -> bool
    decreases a.len(),
{
    if a.len() == 0 {
        true
    } else if b.len() == 0 {
        false
    } else if a[0] != b[0] {
        (a[0] as u32) < (b[0] as u32)
    } else {
        text_le(a.skip(1), b.skip(1))
    }
}

/// Each record comes no earlier than the ones after it.
pub open spec fn newest_first(s: Seq<Record>) -> bool {
    forall|i: int, j: int| 0 <= i < j < s.len() ==> text_le(s[j].updated, s[i].updated)
}

/// The artifacts of one ref name, the most recently updated first.
pub struct RemoteRefs {
    pub by_update_time: Vec<RemoteRef>,
}

impl RemoteRefs {
    pub open spec fn history(&self) -> Seq<Record> {
        records(self.by_update_time@)
    }

    /// A non-empty history of the ref `name`, newest first.
    pub open spec fn wf(&self, name: Seq<char>) -> bool {
        &&& self.by_update_time.len() > 0
        &&& forall|i: int| 0 <= i < self.by_update_time.len() ==> #[trigger] self.history()[i].name == name
        &&& newest_first(self.history())
    }

    /// The authoritative artifact of the ref: the most recent one.
    pub fn latest_ref(&self) -> (r: &RemoteRef)
        requires
            self.by_update_time.len() > 0,
        ensures
            r == self.by_update_time@[0],
    {
        &self.by_update_time[0]
    }
}

/// Relies on itertools::Itertools::sorted_by_key, a stable sort by the key: the
/// artifacts come back in ascending order of update time (String's order), as a
/// permutation of the input.
#[verifier::external_body]
fn sort_by_update_time(refs: Vec<RemoteRef>) -> (r: Vec<RemoteRef>)
    ensures
        records(r@).to_multiset() == records(refs@).to_multiset(),
        forall|i: int, j: int|
            0 <= i < j < r.len() ==> text_le(r@[i].updated@, r@[j].updated@),
{
    refs.into_iter().sorted_by_key(|r| r.updated.clone()).collect()
}

/// Orders the artifacts of one ref from the most recent to the oldest.
pub fn sorted_remote_refs(refs: Vec<RemoteRef>) -> (r: RemoteRefs)
    ensures
        r.history().to_multiset() == records(refs@).to_multiset(),
        newest_first(r.history()),
{
    let mut rest = sort_by_update_time(refs);
    let ghost sorted = rest@;
    let ghost n = sorted.len();
    let mut out: Vec<RemoteRef> = Vec::new();
    while rest.len() > 0
        invariant
            n == sorted.len(),
            rest@ =~= sorted.take(rest.len() as int),
            out.len() + rest.len() == n,
            forall|k: int| 0 <= k < out.len() ==> out@[k] == sorted[n - 1 - k],
        decreases rest.len(),
    {
        let ghost before = rest@;
        let x = rest.pop().unwrap();
        assert(x == before[before.len() - 1]);
        assert(rest@ =~= sorted.take(rest.len() as int));
        out.push(x);
    }
    assert(out@ =~= sorted.reverse());
    assert(records(out@) =~= records(sorted).reverse());
    proof {
        records(sorted).lemma_reverse_to_multiset();
    }
    RemoteRefs { by_update_time: out }
}

/// Why a listing could not be read as a catalog.
pub enum CatalogError {
    /// The store listed an object without a key.
    MissingKey,
    /// The store listed an object without an update time.
    MissingTimestamp { key: String },
    /// An object's key does not follow the artifact layout.
    MalformedPath { path: String },
}

impl CatalogError {
    /// The error as one line of text.
    pub fn message(&self) -> (r: String)
        ensures
            r@ == match self {
                CatalogError::MissingKey => "listed object without a key"@,
                CatalogError::MissingTimestamp { key } => "listed object without an update time: "@ + key@,
                CatalogError::MalformedPath { path } => "malformed artifact path: "@ + path@,
            },
    {
        match self {
            CatalogError::MissingKey => String::from_str("listed object without a key"),
            CatalogError::MissingTimestamp { key } => {
                let mut m = String::from_str("listed object without an update time: ");
                m.append(key.as_str());
                m
            },
            CatalogError::MalformedPath { path } => {
                let mut m = String::from_str("malformed artifact path: ");
                m.append(path.as_str());
                m
            },
        }
    }
}

/// The record that a listed object stands for, where it is an artifact under
/// `prefix` with an update time.
pub open spec fn object_record(bucket: Seq<char>, prefix: Seq<char>, o: StoredObject) -> Option<Record> {
    match (o.key, o.last_modified) {
        (Some(k), Some(t)) => match decode_spec(prefix, k@) {
            Some((name, sha)) => Some(Record { bucket, key: k@, updated: t@, name, sha }),
            None => None,
        },
        _ => None,
    }
}

/// Every listed object is an artifact.
pub open spec fn listing_ok(bucket: Seq<char>, prefix: Seq<char>, objs: Seq<StoredObject>) -> bool {
    forall|i: int| 0 <= i < objs.len() ==> #[trigger] object_record(bucket, prefix, objs[i]) is Some
}

/// The records of a listing in which every object is an artifact.
pub open spec fn listing_records(bucket: Seq<char>, prefix: Seq<char>, objs: Seq<StoredObject>) -> Seq<Record> {
    objs.map_values(|o: StoredObject| object_record(bucket, prefix, o)->Some_0)
}

/// The records of `recs` that belong to the ref `name`, in their order.
pub open spec fn records_named(recs: Seq<Record>, name: Seq<char>) -> Seq<Record> {
    recs.filter(|x: Record| x.name == name)
}

/// Every ref name in the store with its history.
pub struct Catalog {
    pub entries: Vec<(String, RemoteRefs)>,
}

impl Catalog {
    pub open spec fn name(&self, i: int) -> Seq<char> {
        self.entries@[i].0@
    }

    /// The catalog holds exactly the artifacts `recs`: one entry per name,
    /// whose history holds that name's records, newest first.
    pub open spec fn holds(&self, recs: Seq<Record>) -> bool {
        &&& forall|i: int, j: int| 0 <= i < j < self.entries.len() ==> self.name(i) != self.name(j)
        &&& forall|i: int| 0 <= i < self.entries.len() ==> #[trigger] self.entries@[i].1.wf(self.name(i))
        &&& forall|i: int| 0 <= i < self.entries.len() ==>
            #[trigger] self.entries@[i].1.history().to_multiset() == records_named(recs, self.name(i)).to_multiset()
        &&& forall|k: int| 0 <= k < recs.len() ==> self.has_entry(#[trigger] recs[k].name)
    }

    /// Some entry carries the name `n`.
    pub open spec fn has_entry(&self, n: Seq<char>) -> bool {
        exists|i: int| 0 <= i < self.entries.len() && self.name(i) == n
    }

    /// The history of the ref `name`, if the store holds any artifact of it.
    pub fn get(&self, name: &str) -> (r: Option<&RemoteRefs>)
        ensures
            match r {
                Some(h) => exists|i: int| 0 <= i < self.entries.len() && self.name(i) == name@ && *h == self.entries@[i].1,
                None => forall|i: int| 0 <= i < self.entries.len() ==> self.name(i) != name@,
            },
    {
        let target = name.to_owned();
        let mut i: usize = 0;
        while i < self.entries.len()
            invariant
                target@ == name@,
                i <= self.entries.len(),
                forall|k: int| 0 <= k < i ==> self.name(k) != name@,
            decreases self.entries.len() - i,
        {
            if self.entries[i].0 == target {
                assert(self.name(i as int) == name@);
                return Some(&self.entries[i].1);
            }
            i = i + 1;
        }
        None
    }

    /// Whether the store holds any artifact of the ref `name`.
    pub fn contains_key(&self, name: &str) -> (r: bool)
        ensures
            r == self.has_entry(name@),
    {
        self.get(name).is_some()
    }
}

/// Some group carries the name `n`.
pub open spec fn has_group(groups: Seq<(String, Vec<RemoteRef>)>, n: Seq<char>) -> bool {
    exists|i: int| 0 <= i < groups.len() && groups[i].0@ == n
}

/// Relies on itertools::Itertools::into_group_map: each name is a key once, with
/// the artifacts that carry it in input order. The order of the names is that of
/// a HashMap's walk, of which nothing is stated.
#[verifier::external_body]
fn group_by_name(refs: Vec<RemoteRef>) -> (r: Vec<(String, Vec<RemoteRef>)>)
    ensures
        forall|i: int, j: int| 0 <= i < j < r.len() ==> r@[i].0@ != r@[j].0@,
        forall|i: int| 0 <= i < r.len() ==> #[trigger] records(r@[i].1@) == records_named(records(refs@), r@[i].0@),
        forall|i: int| 0 <= i < r.len() ==> #[trigger] r@[i].1.len() > 0,
        forall|k: int| 0 <= k < refs.len() ==> has_group(r@, #[trigger] refs@[k].reference.name@),
{
    refs.into_iter().map(|r| (r.reference.name.clone(), r)).into_group_map().into_iter().collect()
}

/// Reads the store's listing of `root` as a catalog. Fails on the first object
/// that is not an artifact with an update time.
pub fn list_remote_refs(root: &Key, objects: &Vec<StoredObject>) -> (r: Result<Catalog, CatalogError>)
    ensures
        match r {
            Ok(c) => listing_ok(root.bucket@, root.key@, objects@)
                && c.holds(listing_records(root.bucket@, root.key@, objects@)),
            Err(e) => !listing_ok(root.bucket@, root.key@, objects@) && match e {
                CatalogError::MissingKey => exists|i: int| 0 <= i < objects.len() && objects@[i].key is None,
                CatalogError::MissingTimestamp { key } => exists|i: int|
                    0 <= i < objects.len() && objects@[i].key == Some(key) && objects@[i].last_modified is None,
                CatalogError::MalformedPath { path } => exists|i: int|
                    0 <= i < objects.len() && objects@[i].key == Some(path) && decode_spec(root.key@, path@) is None,
            },
        },
{
    let ghost b = root.bucket@;
    let ghost p = root.key@;
    let mut parsed: Vec<RemoteRef> = Vec::new();
    let mut i: usize = 0;
    while i < objects.len()
        invariant
            b == root.bucket@,
            p == root.key@,
            i <= objects.len(),
            parsed.len() == i,
            forall|k: int| 0 <= k < i ==> object_record(b, p, #[trigger] objects@[k]) == Some(parsed@[k]@),
        decreases objects.len() - i,
    {
        let o = &objects[i];
        match &o.key {
            None => {
                return Err(CatalogError::MissingKey);
            },
            Some(k) => match &o.last_modified {
                None => {
                    return Err(CatalogError::MissingTimestamp { key: k.clone() });
                },
                Some(t) => match decode_bundle_path(root.key.as_str(), k.as_str()) {
                    Err(e) => {
                        assert(object_record(b, p, objects@[i as int]) is None);
                        return Err(CatalogError::MalformedPath { path: k.clone() });
                    },
                    Ok(g) => {
                        parsed.push(
                            RemoteRef {
                                object: Key { bucket: root.bucket.clone(), key: k.clone() },
                                updated: t.clone(),
                                reference: g,
                            },
                        );
                    },
                },
            },
        }
        i = i + 1;
    }
    let ghost recs = listing_records(b, p, objects@);
    assert(records(parsed@) =~= recs);
    assert(listing_ok(b, p, objects@));
    let ghost pv = parsed@;
    let mut groups = group_by_name(parsed);
    let ghost g0 = groups@;
    let ghost m = g0.len();
    let mut entries: Vec<(String, RemoteRefs)> = Vec::new();
    while groups.len() > 0
        invariant
            m == g0.len(),
            recs == records(pv),
            forall|i: int, j: int| 0 <= i < j < m ==> g0[i].0@ != g0[j].0@,
            forall|i: int| 0 <= i < m ==> #[trigger] records(g0[i].1@) == records_named(records(pv), g0[i].0@),
            forall|i: int| 0 <= i < m ==> #[trigger] g0[i].1.len() > 0,
            forall|k: int| 0 <= k < pv.len() ==> has_group(g0, #[trigger] pv[k].reference.name@),
            groups@ =~= g0.take(groups.len() as int),
            entries.len() + groups.len() == m,
            forall|k: int| 0 <= k < entries.len() ==> {
                &&& (#[trigger] entries@[k]).0 == g0[m - 1 - k].0
                &&& entries@[k].1.history().to_multiset() == records(g0[m - 1 - k].1@).to_multiset()
                &&& entries@[k].1.wf(entries@[k].0@)
            },
        decreases groups.len(),
    {
        let ghost j = groups.len() - 1;
        let ghost before = groups@;
        let (name, refs) = groups.pop().unwrap();
        assert(before[j] == g0[j]);
        assert((name, refs) == g0[j]);
        let h = sorted_remote_refs(refs);
        proof {
            let hs = h.history();
            let gs = records(refs@);
            assert(gs == records_named(recs, name@));
            assert(g0[j].1.len() > 0);
            assert(gs.len() > 0);
            assert(hs.len() == gs.len()) by {
                assert(hs.to_multiset().len() == gs.to_multiset().len());
            }
            assert forall|x: int| 0 <= x < hs.len() implies #[trigger] hs[x].name == name@ by {
                assert(hs.contains(hs[x]));
                assert(hs.to_multiset().count(hs[x]) > 0);
                assert(gs.contains(hs[x]));
                broadcast use vstd::seq_lib::group_filter_ensures;
            }
        }
        entries.push((name, h));
    }
    let c = Catalog { entries };
    proof {
        assert forall|k: int| 0 <= k < recs.len() implies c.has_entry(#[trigger] recs[k].name) by {
            assert(recs[k].name == pv[k].reference.name@);
            assert(has_group(g0, pv[k].reference.name@));
            let gi = choose|gi: int| 0 <= gi < m && g0[gi].0@ == pv[k].reference.name@;
            assert(c.name(m - 1 - gi) == recs[k].name);
        }
        assert forall|i: int, j: int| 0 <= i < j < c.entries.len() implies c.name(i) != c.name(j) by {
            assert(c.entries@[i].0 == g0[m - 1 - i].0);
            assert(c.entries@[j].0 == g0[m - 1 - j].0);
        }
        assert forall|i: int| 0 <= i < c.entries.len() implies
            #[trigger] c.entries@[i].1.history().to_multiset() == records_named(recs, c.name(i)).to_multiset() by {
            assert(c.entries@[i].0 == g0[m - 1 - i].0);
        }
        assert forall|i: int| 0 <= i < c.entries.len() implies #[trigger] c.entries@[i].1.wf(c.name(i)) by {
            assert(c.entries@[i] == c.entries@[i]);
        }
        assert(c.holds(recs));
    }
    Ok(c)
}

} // verus!
