//! Whether a push is accepted, and which artifacts it makes obsolete.
use crate::addressing::Key;
use crate::catalog::{Record, RemoteRefs};
use vstd::prelude::*;

verus! {

/// A push argument `[+]<src>:<dst>` taken apart.
pub struct PushRequest {
    pub force: bool,
    pub src: String,
    pub dst: String,
}

/// Index of the first occurrence of `c` in `s`, or -1.
pub open spec fn first_index(s: Seq<char>, c: char) -> int
    decreases s.len(),
{
    if s.len() == 0 {
        -1
    } else if s[0] == c {
        0
    } else {
        let k = first_index(s.skip(1), c);
        if k < 0 { -1 } else { k + 1 }
    }
}

/// `[+]<src>:<dst>[:...]`: the force flag, the source without its `+`, and the
/// text between the first and the second colon. None where there is no colon.
pub open spec fn push_ref_spec(s: Seq<char>) -> Option<(bool, Seq<char>, Seq<char>)> {
    let c = first_index(s, ':');
    if c < 0 {
        None
    } else {
        let force = s.len() > 0 && s[0] == '+';
        let src = if force { s.subrange(1, c) } else { s.take(c) };
        let rest = s.skip(c + 1);
        let d = first_index(rest, ':');
        let dst = if d < 0 { rest } else { rest.take(d) };
        Some((force, src, dst))
    }
}

pub(crate) proof fn lemma_first_index_at(s: Seq<char>, c: char, j: int)
    requires
        0 <= j < s.len(),
        s[j] == c,
        forall|k: int| 0 <= k < j ==> s[k] != c,
    ensures
        first_index(s, c) == j,
    decreases s.len(),
{
    if j > 0 {
        lemma_first_index_at(s.skip(1), c, j - 1);
    }
}

pub(crate) proof fn lemma_first_index_none(s: Seq<char>, c: char)
    requires
        forall|k: int| 0 <= k < s.len() ==> s[k] != c,
    ensures
        first_index(s, c) == -1,
    decreases s.len(),
{
    if s.len() > 0 {
        lemma_first_index_none(s.skip(1), c);
    }
}

/// Position of the first `c` in `s` at or after `from`, or the length.
pub(crate) fn find_char(s: &str, c: char, from: usize) -> (r: usize)
    requires
        from <= s@.len(),
    ensures
        from <= r <= s@.len(),
        r < s@.len() ==> s@[r as int] == c,
        forall|k: int| from <= k < r ==> s@[k] != c,
{
    let n = s.unicode_len();
    let mut i = from;
    while i < n && s.get_char(i) != c
        invariant
            n == s@.len(),
            from <= i <= n,
            forall|k: int| from <= k < i ==> s@[k] != c,
        decreases n - i,
    {
        i = i + 1;
    }
    i
}

/// Takes a push argument apart; None where it has no colon.
pub fn parse_push_ref(arg: &str) -> (r: Option<PushRequest>)
    ensures
        match r {
            Some(p) => push_ref_spec(arg@) == Some((p.force, p.src@, p.dst@)),
            None => push_ref_spec(arg@) is None,
        },
{
    let n = arg.unicode_len();
    let c = find_char(arg, ':', 0);
    if c == n {
        proof {
            lemma_first_index_none(arg@, ':');
        }
        return None;
    }
    proof {
        lemma_first_index_at(arg@, ':', c as int);
    }
    let force = n > 0 && arg.get_char(0) == '+';
    let start: usize = if force { 1 } else { 0 };
    let src = arg.substring_char(start, c).to_owned();
    let d = find_char(arg, ':', c + 1);
    let dst = arg.substring_char(c + 1, d).to_owned();
    proof {
        let rest = arg@.skip(c + 1);
        if d < n {
            assert forall|k: int| 0 <= k < d - c - 1 implies rest[k] != ':' by {
                assert(rest[k] == arg@[k + c + 1]);
            }
            lemma_first_index_at(rest, ':', d - c - 1);
            assert(dst@ =~= rest.take(d - c - 1));
        } else {
            assert forall|k: int| 0 <= k < rest.len() implies rest[k] != ':' by {
                assert(rest[k] == arg@[k + c + 1]);
            }
            lemma_first_index_none(rest, ':');
            assert(dst@ =~= rest);
        }
        assert(!force ==> src@ =~= arg@.take(c as int));
    }
    Some(PushRequest { force, src, dst })
}

/// The decision on one push.
pub struct PushOutcome {
    pub accepted: bool,
    /// The artifacts to delete once the new one is stored.
    pub dominated: Vec<Key>,
}

/// An object's address as plain text: (bucket, key).
pub open spec fn key_view(k: Key) -> (Seq<char>, Seq<char>) {
    (k.bucket@, k.key@)
}

/// The addresses of the artifacts of `hist` whose flag in `anc` is set, in order.
pub open spec fn dominated_spec(hist: Seq<Record>, anc: Seq<bool>) -> Seq<(Seq<char>, Seq<char>)>
    decreases hist.len(),
{
    if hist.len() == 0 || anc.len() == 0 {
        seq![]
    } else {
        let rest = dominated_spec(hist.drop_last(), anc.drop_last());
        if anc.last() {
            rest.push((hist.last().bucket, hist.last().key))
        } else {
            rest
        }
    }
}

/// Whether a push is accepted: forced, the first for its name, or a fast-forward
/// of the current artifact.
pub open spec fn push_accepted(force: bool, has_history: bool, current_is_ancestor: bool) -> bool {
    force || !has_history || current_is_ancestor
}

/// Decides a push of a local commit onto the ref whose history is `history`.
/// `ancestry[i]` tells whether the hash of the history's i-th artifact is an
/// ancestor of the local commit (or the commit itself).
pub fn decide_push(history: Option<&RemoteRefs>, force: bool, ancestry: &Vec<bool>) -> (r: PushOutcome)
    requires
        match history {
            Some(h) => h.by_update_time.len() > 0 && ancestry.len() == h.by_update_time.len(),
            None => true,
        },
    ensures
        r.accepted == push_accepted(force, history is Some, history is Some && ancestry@[0]),
        r.dominated@.map_values(|k: Key| key_view(k)) == match history {
            Some(h) => if r.accepted { dominated_spec(h.history(), ancestry@) } else { seq![] },
            None => seq![],
        },
{
    match history {
        None => PushOutcome { accepted: true, dominated: Vec::new() },
        Some(h) => {
            let accepted = force || ancestry[0];
            let mut dominated: Vec<Key> = Vec::new();
            if accepted {
                let n = h.by_update_time.len();
                let mut i: usize = 0;
                while i < n
                    invariant
                        n == h.by_update_time.len(),
                        n == ancestry.len(),
                        i <= n,
                        dominated@.map_values(|k: Key| key_view(k)) == dominated_spec(
                            h.history().take(i as int),
                            ancestry@.take(i as int),
                        ),
                    decreases n - i,
                {
                    let ghost before = dominated@;
                    assert(h.history().take(i + 1).drop_last() =~= h.history().take(i as int));
                    assert(ancestry@.take(i + 1).drop_last() =~= ancestry@.take(i as int));
                    if ancestry[i] {
                        let a = &h.by_update_time[i];
                        dominated.push(Key { bucket: a.object.bucket.clone(), key: a.object.key.clone() });
                        assert(dominated@.map_values(|k: Key| key_view(k)) =~= before.map_values(
                            |k: Key| key_view(k),
                        ).push((h.history()[i as int].bucket, h.history()[i as int].key)));
                    }
                    i = i + 1;
                }
                assert(h.history().take(n as int) =~= h.history());
                assert(ancestry@.take(n as int) =~= ancestry@);
            }
            PushOutcome { accepted, dominated }
        },
    }
}

/// The store's objects after a push that stored `uploaded` and then deleted
/// each object of `deleted`.
pub open spec fn store_after_push(
    store: Set<(Seq<char>, Seq<char>)>,
    uploaded: (Seq<char>, Seq<char>),
    deleted: Seq<(Seq<char>, Seq<char>)>,
) -> Set<(Seq<char>, Seq<char>)> {
    store.insert(uploaded).difference(deleted.to_set())
}

proof fn lemma_dominated_contains(hist: Seq<Record>, anc: Seq<bool>, x: (Seq<char>, Seq<char>))
    requires
        hist.len() == anc.len(),
    ensures
        dominated_spec(hist, anc).contains(x) <==> exists|j: int|
            0 <= j < hist.len() && anc[j] && (hist[j].bucket, hist[j].key) == x,
    decreases hist.len(),
{
    if hist.len() > 0 {
        let h0 = hist.drop_last();
        let a0 = anc.drop_last();
        lemma_dominated_contains(h0, a0, x);
        let rest = dominated_spec(h0, a0);
        if dominated_spec(hist, anc).contains(x) {
            if rest.contains(x) {
                let j = choose|j: int| 0 <= j < h0.len() && a0[j] && (h0[j].bucket, h0[j].key) == x;
                assert(hist[j] == h0[j]);
            } else {
                let k = choose|k: int| 0 <= k < dominated_spec(hist, anc).len() && dominated_spec(hist, anc)[k] == x;
                assert(k == rest.len());
                assert(anc[hist.len() - 1]);
            }
        }
        if exists|j: int| 0 <= j < hist.len() && anc[j] && (hist[j].bucket, hist[j].key) == x {
            let j = choose|j: int| 0 <= j < hist.len() && anc[j] && (hist[j].bucket, hist[j].key) == x;
            if j < hist.len() - 1 {
                assert(h0[j] == hist[j]);
                assert(a0[j] == anc[j]);
                assert(0 <= j < h0.len() && a0[j] && (h0[j].bucket, h0[j].key) == x);
                assert(rest.contains(x));
                if anc.last() {
                    let k = choose|k: int| 0 <= k < rest.len() && rest[k] == x;
                    assert(dominated_spec(hist, anc)[k] == x);
                }
            } else {
                assert(dominated_spec(hist, anc).last() == x);
            }
        }
    }
}

/// After an accepted push without force, every artifact of the ref whose hash is
/// an ancestor of the pushed commit is gone from the store, and every other
/// artifact of the ref is still there.
pub proof fn lemma_push_removes_exactly_ancestors(
    store: Set<(Seq<char>, Seq<char>)>,
    history: RemoteRefs,
    ancestry: Seq<bool>,
    uploaded: (Seq<char>, Seq<char>),
)
    requires
        history.by_update_time.len() > 0,
        ancestry.len() == history.by_update_time.len(),
        push_accepted(false, true, ancestry[0]),
        forall|i: int| 0 <= i < ancestry.len() ==> #[trigger] store.contains(
            (history.history()[i].bucket, history.history()[i].key),
        ),
        forall|i: int, j: int|
            0 <= i < ancestry.len() && 0 <= j < ancestry.len() && history.history()[i].key
                == history.history()[j].key ==> ancestry[i] == ancestry[j],
    ensures
        forall|i: int| #![trigger history.history()[i]]
            0 <= i < ancestry.len() ==> (store_after_push(
                store,
                uploaded,
                dominated_spec(history.history(), ancestry),
            ).contains((history.history()[i].bucket, history.history()[i].key)) <==> !ancestry[i]),
{
    let hist = history.history();
    let d = dominated_spec(hist, ancestry);
    assert forall|i: int| #![trigger hist[i]] 0 <= i < ancestry.len() implies (store_after_push(
        store,
        uploaded,
        d,
    ).contains((hist[i].bucket, hist[i].key)) <==> !ancestry[i]) by {
        let x = (hist[i].bucket, hist[i].key);
        lemma_dominated_contains(hist, ancestry, x);
        assert(store.contains(x));
        if ancestry[i] {
            assert(d.contains(x));
            assert(d.to_set().contains(x));
        } else {
            if d.contains(x) {
                let j = choose|j: int| 0 <= j < hist.len() && ancestry[j] && (hist[j].bucket, hist[j].key) == x;
                assert(hist[i].key == hist[j].key);
            }
            assert(!d.to_set().contains(x));
        }
    }
}

/// A push onto a name that has no artifact yet is always accepted.
pub proof fn lemma_first_push_accepted(force: bool, current_is_ancestor: bool)
    ensures
        push_accepted(force, false, current_is_ancestor),
{
}

/// The objects to delete after a push: the dominated artifacts, and only once the
/// push was accepted and its upload succeeded.
pub fn cleanup_targets(outcome: PushOutcome, upload_error: &Option<String>) -> (r: Vec<Key>)
    ensures
        r@ == if outcome.accepted && upload_error is None {
            outcome.dominated@
        } else {
            Seq::<Key>::empty()
        },
{
    if outcome.accepted && upload_error.is_none() {
        outcome.dominated
    } else {
        Vec::new()
    }
}

} // verus!
