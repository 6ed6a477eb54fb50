use vstd::prelude::*;

use crate::util::string::str_eq;
use crate::util::toks::{canon_str, hier_of, join_toks, seq_views, tokenize, valid_toks};
use crate::util::treepath::{shortcut_toks, TreePath};

verus! {

pub enum PathTreeOk {
    DropOk,
}

pub enum PathTreeErr {
    DropNodeDoesNotExist,
    DropNodeIsNull,
}

/// One node of the tree: how many registered paths run through it, and the
/// payload, present exactly when the node's own path is registered.
pub struct Node<T> {
    pub share_count: usize,
    pub value: Option<T>,
}

/// A registry of paths. A node exists for every non-empty prefix of every
/// registered path, keyed by the prefix's canonical string; its share count
/// says how many registered paths run through it. The abstract value of the
/// tree is the map from registered paths, as token sequences, to payloads.
pub struct PathTree<T> {
    tree: Vec<(String, Node<T>)>,
}

/// The registered paths of an entry sequence: token sequence to payload.
pub open spec fn payload_map<T>(s: Seq<(String, Node<T>)>) -> Map<Seq<Seq<char>>, T>
    decreases s.len(),
{
    if s.len() == 0 {
        Map::empty()
    } else {
        let m = payload_map(s.drop_last());
        match s.last().1.value {
            Some(v) => m.insert(tokenize(s.last().0@), v),
            None => m,
        }
    }
}

/// 1 when the entry is registered and `q` is a prefix of its path.
pub open spec fn reg_at<T>(e: (String, Node<T>), q: Seq<Seq<char>>) -> nat {
    if e.1.value is Some && q.is_prefix_of(tokenize(e.0@)) {
        1
    } else {
        0
    }
}

/// How many registered entries of `s` have `q` as a prefix of their path.
pub open spec fn ext_count<T>(s: Seq<(String, Node<T>)>, q: Seq<Seq<char>>) -> nat
    decreases s.len(),
{
    if s.len() == 0 {
        0
    } else {
        ext_count(s.drop_last(), q) + reg_at(s.last(), q)
    }
}

/// Whether a node stands at the path `q`.
pub open spec fn key_present<T>(s: Seq<(String, Node<T>)>, q: Seq<Seq<char>>) -> bool {
    exists|j: int| 0 <= j < s.len() && tokenize(#[trigger] s[j].0@) == q
}

/// Whether some registered entry of `s` extends the path `q`.
pub open spec fn on_registered_path<T>(s: Seq<(String, Node<T>)>, q: Seq<Seq<char>>) -> bool {
    exists|j: int|
        0 <= j < s.len() && (#[trigger] s[j].1.value) is Some && q.is_prefix_of(
            tokenize(s[j].0@),
        )
}

/// Whether some registered path of `m` runs through the prefix `q`.
pub open spec fn spec_path_exists<T>(m: Map<Seq<Seq<char>>, T>, q: Seq<Seq<char>>) -> bool {
    q.len() > 0 && exists|r: Seq<Seq<char>>| #[trigger] m.dom().contains(r) && q.is_prefix_of(r)
}

/// The registered paths of `m` that run through the prefix `q`.
pub open spec fn reg_exts<T>(m: Map<Seq<Seq<char>>, T>, q: Seq<Seq<char>>) -> Set<Seq<Seq<char>>> {
    Set::new(|r: Seq<Seq<char>>| m.dom().contains(r) && q.is_prefix_of(r))
}

/// The share count that the node at prefix `q` carries: the number of
/// registered paths that run through it.
pub open spec fn spec_share_count<T>(m: Map<Seq<Seq<char>>, T>, q: Seq<Seq<char>>) -> nat {
    reg_exts(m, q).len()
}

/// The internal invariant of the tree:
/// keys are canonical strings of non-empty paths, no key repeats, every
/// share count equals the number of registered extensions, every node lies
/// on some registered path, and every non-empty prefix of a registered path
/// has a node.
pub open spec fn wf_entries<T>(s: Seq<(String, Node<T>)>) -> bool {
    &&& forall|i: int| 0 <= i < s.len() ==> canon_str(#[trigger] s[i].0@)
    &&& forall|i: int, j: int| 0 <= i < j < s.len() ==> s[i].0@ != s[j].0@
    &&& forall|i: int|
        0 <= i < s.len() ==> (#[trigger] s[i].1.share_count) as nat == ext_count(
            s,
            tokenize(s[i].0@),
        )
    &&& forall|i: int|
        0 <= i < s.len() ==> #[trigger] on_registered_path(s, tokenize(s[i].0@))
    &&& forall|i: int, l: int|
        0 <= i < s.len() && s[i].1.value is Some && 1 <= l <= tokenize(s[i].0@).len()
            ==> #[trigger] key_present(s, tokenize(s[i].0@).take(l))
}

/// `ext_count` adds up over concatenation.
pub proof fn lemma_ext_count_append<T>(
    a: Seq<(String, Node<T>)>,
    b: Seq<(String, Node<T>)>,
    q: Seq<Seq<char>>,
)
    ensures
        ext_count(a + b, q) == ext_count(a, q) + ext_count(b, q),
    decreases b.len(),
{
    if b.len() == 0 {
        assert(a + b =~= a);
    } else {
        lemma_ext_count_append(a, b.drop_last(), q);
        assert((a + b).drop_last() =~= a + b.drop_last());
        assert((a + b).last() == b.last());
    }
}

/// A positive extension count means a registered extension exists, and the
/// other way round.
pub proof fn lemma_ext_count_pos<T>(s: Seq<(String, Node<T>)>, q: Seq<Seq<char>>)
    ensures
        (ext_count(s, q) > 0) <==> (exists|j: int|
            0 <= j < s.len() && (#[trigger] s[j].1.value) is Some && q.is_prefix_of(
                tokenize(s[j].0@),
            )),
    decreases s.len(),
{
    if s.len() == 0 {
    } else {
        lemma_ext_count_pos(s.drop_last(), q);
        let d = s.drop_last();
        if ext_count(s, q) > 0 {
            if reg_at(s.last(), q) == 1 {
                assert(s[s.len() - 1].1.value is Some && q.is_prefix_of(
                    tokenize(s[s.len() - 1].0@),
                ));
            } else {
                let j = choose|j: int|
                    0 <= j < d.len() && (#[trigger] d[j].1.value) is Some && q.is_prefix_of(
                        tokenize(d[j].0@),
                    );
                assert(s[j] == d[j]);
                assert(s[j].1.value is Some && q.is_prefix_of(tokenize(s[j].0@)));
            }
        }
        if exists|j: int|
            0 <= j < s.len() && (#[trigger] s[j].1.value) is Some && q.is_prefix_of(
                tokenize(s[j].0@),
            ) {
            let j = choose|j: int|
                0 <= j < s.len() && (#[trigger] s[j].1.value) is Some && q.is_prefix_of(
                    tokenize(s[j].0@),
                );
            if j == s.len() - 1 {
                assert(reg_at(s.last(), q) == 1);
            } else {
                assert(d[j] == s[j]);
                assert(ext_count(d, q) > 0);
            }
        }
    }
}

/// What the payload map holds: exactly the token paths of entries that carry
/// a value, each mapped to that value.
pub proof fn lemma_payload_map_mem<T>(s: Seq<(String, Node<T>)>)
    requires
        forall|i: int| 0 <= i < s.len() ==> canon_str(#[trigger] s[i].0@),
        forall|i: int, j: int| 0 <= i < j < s.len() ==> s[i].0@ != s[j].0@,
    ensures
        payload_map(s).dom().finite(),
        forall|k: Seq<Seq<char>>|
            #[trigger] payload_map(s).contains_key(k) <==> exists|i: int|
                0 <= i < s.len() && (#[trigger] s[i].1.value) is Some && tokenize(s[i].0@) == k,
        forall|i: int|
            0 <= i < s.len() && (#[trigger] s[i].1.value) is Some ==> payload_map(s).contains_key(
                tokenize(s[i].0@),
            ) && s[i].1.value == Some(payload_map(s)[tokenize(s[i].0@)]),
    decreases s.len(),
{
    if s.len() == 0 {
    } else {
        let d = s.drop_last();
        assert(forall|i: int| 0 <= i < d.len() ==> #[trigger] d[i] == s[i]);
        lemma_payload_map_mem(d);
        let e = s.last();
        match e.1.value {
            Some(v) => {
                let t = tokenize(e.0@);
                // no earlier entry shares this token path: equal tokens would
                // force equal canonical strings
                assert forall|i: int| 0 <= i < d.len() implies tokenize(
                    #[trigger] d[i].0@,
                ) != t by {
                    if tokenize(d[i].0@) == t {
                        assert(canon_str(d[i].0@));
                        assert(canon_str(e.0@));
                        assert(d[i].0@ == join_toks(tokenize(d[i].0@)));
                        assert(s[i].0@ == s[s.len() - 1].0@);
                        assert(false);
                    }
                }
                assert(!payload_map(d).contains_key(t));
                assert forall|k: Seq<Seq<char>>| #[trigger] payload_map(s).contains_key(k)
                    implies exists|i: int|
                    0 <= i < s.len() && (#[trigger] s[i].1.value) is Some && tokenize(s[i].0@)
                        == k by {
                    if k == t {
                        assert(s[s.len() - 1].1.value is Some && tokenize(s[s.len() - 1].0@) == k);
                    } else {
                        assert(payload_map(d).contains_key(k));
                        let i = choose|i: int|
                            0 <= i < d.len() && (#[trigger] d[i].1.value) is Some && tokenize(
                                d[i].0@,
                            ) == k;
                        assert(s[i].1.value is Some && tokenize(s[i].0@) == k);
                    }
                }
                assert forall|k: Seq<Seq<char>>|
                    (exists|i: int|
                        0 <= i < s.len() && (#[trigger] s[i].1.value) is Some && tokenize(s[i].0@)
                            == k) implies #[trigger] payload_map(s).contains_key(k) by {
                    let i = choose|i: int|
                        0 <= i < s.len() && (#[trigger] s[i].1.value) is Some && tokenize(s[i].0@)
                            == k;
                    if i == s.len() - 1 {
                    } else {
                        assert(d[i].1.value is Some && tokenize(d[i].0@) == k);
                        assert(payload_map(d).contains_key(k));
                    }
                }
            },
            None => {
                assert forall|k: Seq<Seq<char>>| #[trigger] payload_map(s).contains_key(k)
                    implies exists|i: int|
                    0 <= i < s.len() && (#[trigger] s[i].1.value) is Some && tokenize(s[i].0@)
                        == k by {
                    let i = choose|i: int|
                        0 <= i < d.len() && (#[trigger] d[i].1.value) is Some && tokenize(d[i].0@)
                            == k;
                    assert(s[i].1.value is Some && tokenize(s[i].0@) == k);
                }
                assert forall|k: Seq<Seq<char>>|
                    (exists|i: int|
                        0 <= i < s.len() && (#[trigger] s[i].1.value) is Some && tokenize(s[i].0@)
                            == k) implies #[trigger] payload_map(s).contains_key(k) by {
                    let i = choose|i: int|
                        0 <= i < s.len() && (#[trigger] s[i].1.value) is Some && tokenize(s[i].0@)
                            == k;
                    assert(i < s.len() - 1);
                    assert(d[i].1.value is Some && tokenize(d[i].0@) == k);
                    assert(payload_map(d).contains_key(k));
                }
            },
        }
    }
}

/// The extension count of a prefix equals the number of registered paths
/// that run through it.
pub proof fn lemma_ext_count_card<T>(s: Seq<(String, Node<T>)>, q: Seq<Seq<char>>)
    requires
        forall|i: int| 0 <= i < s.len() ==> canon_str(#[trigger] s[i].0@),
        forall|i: int, j: int| 0 <= i < j < s.len() ==> s[i].0@ != s[j].0@,
    ensures
        reg_exts(payload_map(s), q).finite(),
        ext_count(s, q) == reg_exts(payload_map(s), q).len(),
    decreases s.len(),
{
    if s.len() == 0 {
        assert(reg_exts(payload_map(s), q) =~= Set::<Seq<Seq<char>>>::empty());
    } else {
        let d = s.drop_last();
        assert(forall|i: int| 0 <= i < d.len() ==> #[trigger] d[i] == s[i]);
        lemma_ext_count_card(d, q);
        let e = s.last();
        match e.1.value {
            Some(v) => {
                let t = tokenize(e.0@);
                lemma_payload_map_mem(d);
                assert forall|i: int| 0 <= i < d.len() implies tokenize(
                    #[trigger] d[i].0@,
                ) != t by {
                    if tokenize(d[i].0@) == t {
                        assert(d[i].0@ == join_toks(tokenize(d[i].0@)));
                        assert(e.0@ == join_toks(t));
                        assert(s[i].0@ == s[s.len() - 1].0@);
                        assert(false);
                    }
                }
                assert(!payload_map(d).contains_key(t));
                if q.is_prefix_of(t) {
                    assert(reg_exts(payload_map(s), q) =~= reg_exts(payload_map(d), q).insert(t));
                    assert(!reg_exts(payload_map(d), q).contains(t));
                } else {
                    assert(reg_exts(payload_map(s), q) =~= reg_exts(payload_map(d), q));
                }
            },
            None => {
                assert(payload_map(s) == payload_map(d));
                assert(reg_at(e, q) == 0);
            },
        }
    }
}

/// Under the invariant: a node stands at `q` exactly when some registered
/// path runs through `q`.
pub proof fn lemma_key_iff_exists<T>(s: Seq<(String, Node<T>)>, q: Seq<Seq<char>>)
    requires
        wf_entries(s),
    ensures
        key_present(s, q) <==> spec_path_exists(payload_map(s), q),
{
    lemma_payload_map_mem(s);
    if key_present(s, q) {
        let i = choose|i: int| 0 <= i < s.len() && tokenize(#[trigger] s[i].0@) == q;
        assert(canon_str(s[i].0@));
        assert(tokenize(s[i].0@).len() > 0);
        assert(q.len() > 0);
        assert(on_registered_path(s, tokenize(s[i].0@)));
        assert(on_registered_path(s, q));
        let j = choose|j: int|
            0 <= j < s.len() && (#[trigger] s[j].1.value) is Some && q.is_prefix_of(
                tokenize(s[j].0@),
            );
        assert(0 <= j < s.len() && s[j].1.value is Some && q.is_prefix_of(tokenize(s[j].0@)));
        assert(payload_map(s).contains_key(tokenize(s[j].0@)));
        assert(payload_map(s).dom().contains(tokenize(s[j].0@)) && q.is_prefix_of(
            tokenize(s[j].0@),
        ));
    }
    if spec_path_exists(payload_map(s), q) {
        let r = choose|r: Seq<Seq<char>>|
            #[trigger] payload_map(s).dom().contains(r) && q.is_prefix_of(r);
        let j = choose|j: int|
            0 <= j < s.len() && (#[trigger] s[j].1.value) is Some && tokenize(s[j].0@) == r;
        assert(1 <= q.len() <= tokenize(s[j].0@).len());
        assert(key_present(s, tokenize(s[j].0@).take(q.len() as int)));
        assert(tokenize(s[j].0@).take(q.len() as int) =~= q);
    }
}

/// Under the invariant: a node stands at `q` exactly when some entry's key
/// is the canonical string of `q`.
pub proof fn lemma_string_key<T>(s: Seq<(String, Node<T>)>, q: Seq<Seq<char>>)
    requires
        wf_entries(s),
        valid_toks(q),
        q.len() > 0,
    ensures
        (exists|i: int| 0 <= i < s.len() && #[trigger] s[i].0@ == join_toks(q)) <==> key_present(
            s,
            q,
        ),
{
    crate::util::toks::lemma_canon_join(q);
    if exists|i: int| 0 <= i < s.len() && #[trigger] s[i].0@ == join_toks(q) {
        let i = choose|i: int| 0 <= i < s.len() && #[trigger] s[i].0@ == join_toks(q);
        assert(tokenize(s[i].0@) == q);
        assert(key_present(s, q));
    }
    if key_present(s, q) {
        let i = choose|i: int| 0 <= i < s.len() && tokenize(#[trigger] s[i].0@) == q;
        assert(canon_str(s[i].0@));
        assert(s[i].0@ == join_toks(q));
    }
}

/// Two entry sequences with the same keys and registration pattern count
/// extensions alike.
pub proof fn lemma_ext_count_same<T>(
    a: Seq<(String, Node<T>)>,
    b: Seq<(String, Node<T>)>,
    q: Seq<Seq<char>>,
)
    requires
        a.len() == b.len(),
        forall|i: int| 0 <= i < a.len() ==> (#[trigger] a[i].0)@ == b[i].0@,
        forall|i: int|
            0 <= i < a.len() ==> ((#[trigger] a[i].1.value) is Some <==> b[i].1.value is Some),
    ensures
        ext_count(a, q) == ext_count(b, q),
    decreases a.len(),
{
    if a.len() == 0 {
    } else {
        let da = a.drop_last();
        let db = b.drop_last();
        assert(forall|i: int| 0 <= i < da.len() ==> #[trigger] da[i] == a[i] && db[i] == b[i]);
        lemma_ext_count_same(da, db, q);
        assert(a[a.len() - 1].0@ == b[a.len() - 1].0@);
        assert(reg_at(a.last(), q) == reg_at(b.last(), q));
    }
}

/// Entry sequences with the same keys and the same payloads have the same
/// abstract value and the same structure.
pub proof fn lemma_entries_same<T>(a: Seq<(String, Node<T>)>, b: Seq<(String, Node<T>)>)
    requires
        a.len() == b.len(),
        forall|i: int| 0 <= i < a.len() ==> canon_str((#[trigger] a[i].0)@),
        forall|i: int, j: int| 0 <= i < j < a.len() ==> a[i].0@ != a[j].0@,
        forall|i: int| 0 <= i < a.len() ==> (#[trigger] a[i].0)@ == b[i].0@,
        forall|i: int| 0 <= i < a.len() ==> (#[trigger] a[i].1.value) == b[i].1.value,
    ensures
        payload_map(a) == payload_map(b),
        forall|q: Seq<Seq<char>>| #[trigger] ext_count(a, q) == ext_count(b, q),
        forall|q: Seq<Seq<char>>| #[trigger] key_present(a, q) <==> key_present(b, q),
{
    assert forall|i: int| 0 <= i < b.len() implies canon_str((#[trigger] b[i].0)@) by {
        assert(a[i].0@ == b[i].0@);
        assert(canon_str(a[i].0@));
    }
    assert forall|i: int, j: int| 0 <= i < j < b.len() implies b[i].0@ != b[j].0@ by {
        assert(a[i].0@ == b[i].0@);
        assert(a[j].0@ == b[j].0@);
    }
    lemma_payload_map_mem(a);
    lemma_payload_map_mem(b);
    assert forall|q: Seq<Seq<char>>| #[trigger] ext_count(a, q) == ext_count(b, q) by {
        lemma_ext_count_same(a, b, q);
    }
    assert forall|q: Seq<Seq<char>>| #[trigger] key_present(a, q) <==> key_present(b, q) by {
        if key_present(a, q) {
            let j = choose|j: int| 0 <= j < a.len() && tokenize(#[trigger] a[j].0@) == q;
            assert(tokenize(b[j].0@) == q);
        }
        if key_present(b, q) {
            let j = choose|j: int| 0 <= j < b.len() && tokenize(#[trigger] b[j].0@) == q;
            assert(tokenize(a[j].0@) == q);
        }
    }
    assert forall|k: Seq<Seq<char>>| #[trigger] payload_map(a).contains_key(k)
        implies payload_map(b).contains_key(k) && payload_map(a)[k] == payload_map(b)[k] by {
        let i = choose|i: int|
            0 <= i < a.len() && (#[trigger] a[i].1.value) is Some && tokenize(a[i].0@) == k;
        assert(b[i].1.value is Some && tokenize(b[i].0@) == k);
        assert(payload_map(b).contains_key(k));
        assert(a[i].1.value == Some(payload_map(a)[k]));
        assert(b[i].1.value == Some(payload_map(b)[k]));
    }
    assert forall|k: Seq<Seq<char>>| #[trigger] payload_map(b).contains_key(k)
        implies payload_map(a).contains_key(k) by {
        let i = choose|i: int|
            0 <= i < b.len() && (#[trigger] b[i].1.value) is Some && tokenize(b[i].0@) == k;
        assert(a[i].1.value is Some && tokenize(a[i].0@) == k);
    }
    assert(payload_map(a) =~= payload_map(b));
}

/// Appending a payload-free entry leaves the abstract value untouched and
/// adds one node key.
pub proof fn lemma_push_null<T>(s: Seq<(String, Node<T>)>, e: (String, Node<T>))
    requires
        e.1.value is None,
    ensures
        payload_map(s.push(e)) == payload_map(s),
        forall|q: Seq<Seq<char>>| #[trigger] ext_count(s.push(e), q) == ext_count(s, q),
        forall|q: Seq<Seq<char>>|
            #[trigger] key_present(s.push(e), q) <==> (key_present(s, q) || q == tokenize(e.0@)),
{
    let s2 = s.push(e);
    assert(s2.drop_last() =~= s);
    assert(s2.last() == e);
    assert(payload_map(s2) == payload_map(s));
    assert forall|q: Seq<Seq<char>>| #[trigger] ext_count(s2, q) == ext_count(s, q) by {
        assert(reg_at(e, q) == 0);
    }
    assert forall|q: Seq<Seq<char>>|
        #[trigger] key_present(s2, q) <==> (key_present(s, q) || q == tokenize(e.0@)) by {
        if key_present(s2, q) {
            let j = choose|j: int| 0 <= j < s2.len() && tokenize(#[trigger] s2[j].0@) == q;
            if j < s.len() {
                assert(s[j] == s2[j]);
                assert(key_present(s, q));
            } else {
                assert(s2[j] == e);
            }
        }
        if key_present(s, q) {
            let j = choose|j: int| 0 <= j < s.len() && tokenize(#[trigger] s[j].0@) == q;
            assert(s2[j] == s[j]);
            assert(key_present(s2, q));
        }
        if q == tokenize(e.0@) {
            assert(tokenize(s2[s.len() as int].0@) == q);
            assert(key_present(s2, q));
        }
    }
}

/// Giving the payload-free entry at `i` a payload registers its path:
/// the abstract value gains that path, and every prefix of it gains one
/// extension.
pub proof fn lemma_put_value<T>(s: Seq<(String, Node<T>)>, i: int, v: T)
    requires
        forall|x: int| 0 <= x < s.len() ==> canon_str((#[trigger] s[x].0)@),
        forall|x: int, y: int| 0 <= x < y < s.len() ==> s[x].0@ != s[y].0@,
        0 <= i < s.len(),
        s[i].1.value is None,
    ensures
        payload_map(
            s.update(i, (s[i].0, Node { share_count: s[i].1.share_count, value: Some(v) })),
        ) == payload_map(s).insert(tokenize(s[i].0@), v),
        forall|q: Seq<Seq<char>>|
            #[trigger] ext_count(
                s.update(i, (s[i].0, Node { share_count: s[i].1.share_count, value: Some(v) })),
                q,
            ) == ext_count(s, q) + (if q.is_prefix_of(tokenize(s[i].0@)) {
                1nat
            } else {
                0nat
            }),
        forall|q: Seq<Seq<char>>|
            #[trigger] key_present(
                s.update(i, (s[i].0, Node { share_count: s[i].1.share_count, value: Some(v) })),
                q,
            ) <==> key_present(s, q),
{
    let e2 = (s[i].0, Node { share_count: s[i].1.share_count, value: Some(v) });
    let s2 = s.update(i, e2);
    let t = tokenize(s[i].0@);
    assert(forall|x: int| 0 <= x < s2.len() ==> (#[trigger] s2[x].0)@ == s[x].0@);
    lemma_payload_map_mem(s);
    assert forall|x: int| 0 <= x < s2.len() implies canon_str((#[trigger] s2[x].0)@) by {
        assert(s2[x].0@ == s[x].0@);
        assert(canon_str(s[x].0@));
    }
    assert forall|x: int, y: int| 0 <= x < y < s2.len() implies s2[x].0@ != s2[y].0@ by {
        assert(s2[x].0@ == s[x].0@);
        assert(s2[y].0@ == s[y].0@);
    }
    lemma_payload_map_mem(s2);
    // the abstract value
    assert forall|k: Seq<Seq<char>>| #[trigger] payload_map(s2).contains_key(k)
        implies payload_map(s).insert(t, v).contains_key(k) && payload_map(s2)[k] == payload_map(
        s,
    ).insert(t, v)[k] by {
        let x = choose|x: int|
            0 <= x < s2.len() && (#[trigger] s2[x].1.value) is Some && tokenize(s2[x].0@) == k;
        assert(s2[x].1.value == Some(payload_map(s2)[k]));
        if x == i {
            assert(k == t);
            assert(payload_map(s2)[k] == v);
        } else {
            assert(s2[x] == s[x]);
            assert(s[x].1.value is Some && tokenize(s[x].0@) == k);
            assert(payload_map(s).contains_key(k));
            assert(s[x].1.value == Some(payload_map(s)[k]));
            if k == t {
                assert(s[x].0@ == join_toks(t));
                assert(s[i].0@ == join_toks(t));
                assert(false);
            }
        }
    }
    assert forall|k: Seq<Seq<char>>| #[trigger] payload_map(s).insert(t, v).contains_key(k)
        implies payload_map(s2).contains_key(k) by {
        if k == t {
            assert(s2[i].1.value is Some && tokenize(s2[i].0@) == k);
        } else {
            let x = choose|x: int|
                0 <= x < s.len() && (#[trigger] s[x].1.value) is Some && tokenize(s[x].0@) == k;
            assert(x != i);
            assert(s2[x] == s[x]);
            assert(s2[x].1.value is Some && tokenize(s2[x].0@) == k);
        }
    }
    assert(payload_map(s2) =~= payload_map(s).insert(t, v));
    // extension counts
    assert forall|q: Seq<Seq<char>>|
        #[trigger] ext_count(s2, q) == ext_count(s, q) + (if q.is_prefix_of(t) {
            1nat
        } else {
            0nat
        }) by {
        lemma_ext_count_split(s, i, q);
        lemma_ext_count_split(s2, i, q);
        assert(s2.take(i) =~= s.take(i));
        assert(s2.skip(i + 1) =~= s.skip(i + 1));
        assert(reg_at(s[i], q) == 0);
        assert(reg_at(s2[i], q) == (if q.is_prefix_of(t) {
            1nat
        } else {
            0nat
        }));
    }
    // node keys
    assert forall|q: Seq<Seq<char>>| #[trigger] key_present(s2, q) <==> key_present(s, q) by {
        if key_present(s2, q) {
            let j = choose|j: int| 0 <= j < s2.len() && tokenize(#[trigger] s2[j].0@) == q;
            assert(tokenize(s[j].0@) == q);
        }
        if key_present(s, q) {
            let j = choose|j: int| 0 <= j < s.len() && tokenize(#[trigger] s[j].0@) == q;
            assert(tokenize(s2[j].0@) == q);
        }
    }
}

/// The extension count splits around any index.
pub proof fn lemma_ext_count_split<T>(s: Seq<(String, Node<T>)>, i: int, q: Seq<Seq<char>>)
    requires
        0 <= i < s.len(),
    ensures
        ext_count(s, q) == ext_count(s.take(i), q) + reg_at(s[i], q) + ext_count(s.skip(i + 1), q),
{
    assert(s =~= s.take(i) + seq![s[i]] + s.skip(i + 1));
    lemma_ext_count_append(s.take(i) + seq![s[i]], s.skip(i + 1), q);
    lemma_ext_count_append(s.take(i), seq![s[i]], q);
    assert(ext_count(seq![s[i]], q) == reg_at(s[i], q)) by {
        assert(seq![s[i]].drop_last() =~= Seq::<(String, Node<T>)>::empty());
        assert(seq![s[i]].last() == s[i]);
        assert(ext_count(Seq::<(String, Node<T>)>::empty(), q) == 0);
    }
}

/// Membership in the hierarchy of the first `k` non-empty prefixes of `p`.
pub open spec fn in_hier(q: Seq<Seq<char>>, p: Seq<Seq<char>>, k: int) -> bool {
    exists|l: int| 1 <= l <= k && q == #[trigger] p.take(l)
}

/// Replacing the payload of the registered entry at `i` replaces the
/// registered value of its path and changes nothing else.
pub proof fn lemma_overwrite_value<T>(s: Seq<(String, Node<T>)>, i: int, v: T)
    requires
        forall|x: int| 0 <= x < s.len() ==> canon_str((#[trigger] s[x].0)@),
        forall|x: int, y: int| 0 <= x < y < s.len() ==> s[x].0@ != s[y].0@,
        0 <= i < s.len(),
        s[i].1.value is Some,
    ensures
        payload_map(
            s.update(i, (s[i].0, Node { share_count: s[i].1.share_count, value: Some(v) })),
        ) == payload_map(s).insert(tokenize(s[i].0@), v),
        forall|q: Seq<Seq<char>>|
            #[trigger] ext_count(
                s.update(i, (s[i].0, Node { share_count: s[i].1.share_count, value: Some(v) })),
                q,
            ) == ext_count(s, q),
        forall|q: Seq<Seq<char>>|
            #[trigger] key_present(
                s.update(i, (s[i].0, Node { share_count: s[i].1.share_count, value: Some(v) })),
                q,
            ) <==> key_present(s, q),
{
    let e2 = (s[i].0, Node { share_count: s[i].1.share_count, value: Some(v) });
    let s2 = s.update(i, e2);
    let t = tokenize(s[i].0@);
    assert(forall|x: int| 0 <= x < s2.len() ==> (#[trigger] s2[x].0)@ == s[x].0@);
    assert(forall|x: int|
        0 <= x < s2.len() ==> ((#[trigger] s2[x].1.value) is Some <==> s[x].1.value is Some));
    lemma_payload_map_mem(s);
    assert forall|x: int| 0 <= x < s2.len() implies canon_str((#[trigger] s2[x].0)@) by {
        assert(s2[x].0@ == s[x].0@);
        assert(canon_str(s[x].0@));
    }
    assert forall|x: int, y: int| 0 <= x < y < s2.len() implies s2[x].0@ != s2[y].0@ by {
        assert(s2[x].0@ == s[x].0@);
        assert(s2[y].0@ == s[y].0@);
    }
    lemma_payload_map_mem(s2);
    assert forall|k: Seq<Seq<char>>| #[trigger] payload_map(s2).contains_key(k)
        implies payload_map(s).insert(t, v).contains_key(k) && payload_map(s2)[k] == payload_map(
        s,
    ).insert(t, v)[k] by {
        let x = choose|x: int|
            0 <= x < s2.len() && (#[trigger] s2[x].1.value) is Some && tokenize(s2[x].0@) == k;
        assert(s2[x].1.value == Some(payload_map(s2)[k]));
        if x == i {
            assert(k == t);
            assert(payload_map(s2)[k] == v);
        } else {
            assert(s2[x] == s[x]);
            assert(s[x].1.value is Some && tokenize(s[x].0@) == k);
            assert(payload_map(s).contains_key(k));
            assert(s[x].1.value == Some(payload_map(s)[k]));
            if k == t {
                assert(s[x].0@ == join_toks(t));
                assert(s[i].0@ == join_toks(t));
                assert(false);
            }
        }
    }
    assert forall|k: Seq<Seq<char>>| #[trigger] payload_map(s).insert(t, v).contains_key(k)
        implies payload_map(s2).contains_key(k) by {
        if k == t {
            assert(s2[i].1.value is Some && tokenize(s2[i].0@) == k);
        } else {
            let x = choose|x: int|
                0 <= x < s.len() && (#[trigger] s[x].1.value) is Some && tokenize(s[x].0@) == k;
            assert(x != i);
            assert(s2[x] == s[x]);
            assert(s2[x].1.value is Some && tokenize(s2[x].0@) == k);
        }
    }
    assert(payload_map(s2) =~= payload_map(s).insert(t, v));
    assert forall|q: Seq<Seq<char>>| #[trigger] ext_count(s2, q) == ext_count(s, q) by {
        lemma_ext_count_same(s2, s, q);
    }
    assert forall|q: Seq<Seq<char>>| #[trigger] key_present(s2, q) <==> key_present(s, q) by {
        if key_present(s2, q) {
            let j = choose|j: int| 0 <= j < s2.len() && tokenize(#[trigger] s2[j].0@) == q;
            assert(tokenize(s[j].0@) == q);
        }
        if key_present(s, q) {
            let j = choose|j: int| 0 <= j < s.len() && tokenize(#[trigger] s[j].0@) == q;
            assert(tokenize(s2[j].0@) == q);
        }
    }
}

/// The invariant carries over to an entry sequence with the same keys, the
/// same counts and the same registration pattern.
pub proof fn lemma_wf_transfer<T>(a: Seq<(String, Node<T>)>, b: Seq<(String, Node<T>)>)
    requires
        wf_entries(a),
        a.len() == b.len(),
        forall|i: int| 0 <= i < a.len() ==> (#[trigger] a[i].0)@ == b[i].0@,
        forall|i: int|
            0 <= i < a.len() ==> ((#[trigger] a[i].1.value) is Some <==> b[i].1.value is Some),
        forall|i: int|
            0 <= i < a.len() ==> (#[trigger] a[i].1.share_count) == b[i].1.share_count,
    ensures
        wf_entries(b),
{
    assert forall|i: int| 0 <= i < b.len() implies canon_str((#[trigger] b[i].0)@) by {
        assert(b[i].0@ == a[i].0@);
        assert(canon_str(a[i].0@));
    }
    assert forall|i: int, j: int| 0 <= i < j < b.len() implies b[i].0@ != b[j].0@ by {
        assert(a[i].0@ == b[i].0@);
        assert(a[j].0@ == b[j].0@);
    }
    assert forall|i: int|
        0 <= i < b.len() implies (#[trigger] b[i].1.share_count) as nat == ext_count(
        b,
        tokenize(b[i].0@),
    ) by {
        lemma_ext_count_same(a, b, tokenize(b[i].0@));
        assert(a[i].0@ == b[i].0@);
        assert(a[i].1.share_count as nat == ext_count(a, tokenize(a[i].0@)));
    }
    assert forall|i: int| 0 <= i < b.len() implies #[trigger] on_registered_path(
        b,
        tokenize(b[i].0@),
    ) by {
        assert(a[i].0@ == b[i].0@);
        assert(on_registered_path(a, tokenize(a[i].0@)));
        let q = tokenize(a[i].0@);
        let j = choose|j: int|
            0 <= j < a.len() && (#[trigger] a[j].1.value) is Some && q.is_prefix_of(
                tokenize(a[j].0@),
            );
        assert(b[j].1.value is Some && q.is_prefix_of(tokenize(b[j].0@)));
    }
    assert forall|i: int, l: int|
        0 <= i < b.len() && b[i].1.value is Some && 1 <= l <= tokenize(b[i].0@).len()
        implies #[trigger] key_present(b, tokenize(b[i].0@).take(l)) by {
        assert(a[i].0@ == b[i].0@);
        assert(a[i].1.value is Some);
        assert(key_present(a, tokenize(a[i].0@).take(l)));
        let q = tokenize(a[i].0@).take(l);
        let j = choose|j: int| 0 <= j < a.len() && tokenize(#[trigger] a[j].0@) == q;
        assert(tokenize(b[j].0@) == q);
    }
}

/// The apply phase of a removal: entries whose share count fell to zero are
/// deleted, and the node at `full` — the removed path itself — loses its
/// payload where it stays.
pub open spec fn apply_drops<T>(s: Seq<(String, Node<T>)>, full: Seq<char>) -> Seq<
    (String, Node<T>),
>
    decreases s.len(),
{
    if s.len() == 0 {
        Seq::empty()
    } else {
        let rest = apply_drops(s.drop_last(), full);
        let e = s.last();
        if e.1.share_count > 0 {
            rest.push(
                (
                    e.0,
                    Node {
                        share_count: e.1.share_count,
                        value: if e.0@ == full {
                            None
                        } else {
                            e.1.value
                        },
                    },
                ),
            )
        } else {
            rest
        }
    }
}

/// How one surviving entry relates to the entry `j` it came from.
pub open spec fn drop_image<T>(
    s: Seq<(String, Node<T>)>,
    full: Seq<char>,
    j: int,
    e: (String, Node<T>),
) -> bool {
    &&& 0 <= j < s.len()
    &&& s[j].1.share_count > 0
    &&& e.0 == s[j].0
    &&& e.1.share_count == s[j].1.share_count
    &&& e.1.value == (if s[j].0@ == full {
        None::<T>
    } else {
        s[j].1.value
    })
}

/// Whether the entry `j` survives the apply phase.
pub open spec fn survives<T>(s: Seq<(String, Node<T>)>, full: Seq<char>, j: int) -> bool {
    exists|x: int|
        0 <= x < apply_drops(s, full).len() && drop_image(
            s,
            full,
            j,
            #[trigger] apply_drops(s, full)[x],
        )
}

/// Whether entry `x` of the apply phase's result descends from some entry.
pub open spec fn from_some_entry<T>(s: Seq<(String, Node<T>)>, full: Seq<char>, x: int) -> bool {
    exists|j: int| drop_image(s, full, j, apply_drops(s, full)[x])
}

/// What the apply phase leaves: exactly the entries with a positive count,
/// in order, each with its key and count, the payload cleared only at `full`.
pub proof fn lemma_apply_drops_entries<T>(s: Seq<(String, Node<T>)>, full: Seq<char>)
    requires
        forall|i: int, j: int| 0 <= i < j < s.len() ==> s[i].0@ != s[j].0@,
    ensures
        forall|x: int| 0 <= x < apply_drops(s, full).len() ==> #[trigger] from_some_entry(s, full, x),
        forall|j: int|
            0 <= j < s.len() && (#[trigger] s[j].1.share_count) > 0 ==> survives(s, full, j),
        forall|x: int, y: int|
            0 <= x < y < apply_drops(s, full).len() ==> apply_drops(s, full)[x].0@ != apply_drops(
                s,
                full,
            )[y].0@,
    decreases s.len(),
{
    let fin = apply_drops(s, full);
    if s.len() == 0 {
    } else {
        let d = s.drop_last();
        assert(forall|i: int| 0 <= i < d.len() ==> #[trigger] d[i] == s[i]);
        lemma_apply_drops_entries(d, full);
        let pf = apply_drops(d, full);
        let e = s.last();
        assert forall|x: int| 0 <= x < apply_drops(s, full).len() implies #[trigger] from_some_entry(
            s,
            full,
            x,
        ) by {
            assert(apply_drops(s, full)[x] == fin[x]);
            if x < pf.len() {
                assert(fin[x] == pf[x]);
                assert(from_some_entry(d, full, x));
                let j = choose|j: int| drop_image(d, full, j, apply_drops(d, full)[x]);
                assert(drop_image(d, full, j, apply_drops(d, full)[x]));
                assert(s[j] == d[j]);
                assert(drop_image(s, full, j, apply_drops(s, full)[x]));
            } else {
                assert(e.1.share_count > 0);
                assert(fin[x] == fin.last());
                assert(drop_image(s, full, s.len() - 1, apply_drops(s, full)[x]));
            }
        }
        assert forall|j: int| 0 <= j < s.len() && (#[trigger] s[j].1.share_count) > 0
            implies survives(s, full, j) by {
            if j < s.len() - 1 {
                assert(d[j] == s[j]);
                assert(survives(d, full, j));
                let x = choose|x: int|
                    0 <= x < pf.len() && drop_image(d, full, j, #[trigger] pf[x]);
                assert(fin[x] == pf[x]);
                assert(drop_image(s, full, j, fin[x]));
            } else {
                assert(e.1.share_count > 0);
                assert(fin.last().0 == e.0);
                assert(drop_image(s, full, j, fin[fin.len() - 1]));
            }
        }
        assert forall|x: int, y: int| 0 <= x < y < apply_drops(s, full).len() implies apply_drops(
            s,
            full,
        )[x].0@ != apply_drops(s, full)[y].0@ by {
            assert(apply_drops(s, full)[x] == fin[x] && apply_drops(s, full)[y] == fin[y]);
            if y < pf.len() {
                assert(fin[x] == pf[x] && fin[y] == pf[y]);
            } else {
                assert(fin[y].0 == e.0);
                assert(fin[x] == pf[x]);
                assert(from_some_entry(d, full, x));
                let j = choose|j: int| drop_image(d, full, j, apply_drops(d, full)[x]);
                assert(drop_image(d, full, j, apply_drops(d, full)[x]));
                assert(s[j].0@ != s[s.len() - 1].0@);
            }
        }
    }
}

/// Two distinct registered extensions make the count at least two.
pub proof fn lemma_ext_count_two<T>(
    s: Seq<(String, Node<T>)>,
    q: Seq<Seq<char>>,
    j1: int,
    j2: int,
)
    requires
        0 <= j1 < s.len(),
        0 <= j2 < s.len(),
        j1 != j2,
        reg_at(s[j1], q) == 1,
        reg_at(s[j2], q) == 1,
    ensures
        ext_count(s, q) >= 2,
{
    let a = if j1 < j2 {
        j1
    } else {
        j2
    };
    let b = if j1 < j2 {
        j2
    } else {
        j1
    };
    lemma_ext_count_split(s, b, q);
    lemma_ext_count_split(s.take(b), a, q);
    assert(s.take(b)[a] == s[a]);
}

/// After the flag phase took one share from every prefix of the removed
/// path `p`, the apply phase leaves a well-formed tree whose abstract value
/// is the old one without `p`.
pub proof fn lemma_drop_final<T>(
    s0: Seq<(String, Node<T>)>,
    s_mid: Seq<(String, Node<T>)>,
    p: Seq<Seq<char>>,
    full: Seq<char>,
    m0: Map<Seq<Seq<char>>, T>,
)
    requires
        wf_entries(s0),
        m0 == payload_map(s0),
        m0.contains_key(p),
        valid_toks(p),
        p.len() > 0,
        full == join_toks(p),
        s_mid.len() == s0.len(),
        forall|j: int|
            0 <= j < s0.len() ==> (#[trigger] s_mid[j].0)@ == s0[j].0@ && s_mid[j].1.value
                == s0[j].1.value,
        forall|i: int|
            0 <= i < s_mid.len() ==> (#[trigger] s_mid[i].1.share_count) as nat + (
            if tokenize(s_mid[i].0@).is_prefix_of(p) {
                1nat
            } else {
                0nat
            }) == ext_count(s0, tokenize(s_mid[i].0@)),
    ensures
        wf_entries(apply_drops(s_mid, full)),
        payload_map(apply_drops(s_mid, full)) == m0.remove(p),
{
    let fin = apply_drops(s_mid, full);
    crate::util::toks::lemma_canon_join(p);
    lemma_payload_map_mem(s0);
    let jp = choose|jp: int|
        0 <= jp < s0.len() && (#[trigger] s0[jp].1.value) is Some && tokenize(s0[jp].0@) == p;
    assert forall|x: int, y: int| 0 <= x < y < s_mid.len() implies s_mid[x].0@ != s_mid[y].0@ by {
        assert(s_mid[x].0@ == s0[x].0@);
        assert(s_mid[y].0@ == s0[y].0@);
    }
    lemma_apply_drops_entries(s_mid, full);
    assert forall|x: int| 0 <= x < fin.len() implies canon_str((#[trigger] fin[x].0)@) by {
        assert(from_some_entry(s_mid, full, x));
        let j = choose|j: int| drop_image(s_mid, full, j, apply_drops(s_mid, full)[x]);
        assert(fin[x].0@ == s0[j].0@);
        assert(canon_str(s0[j].0@));
    }
    lemma_payload_map_mem(fin);
    // survivors: every registered path other than p keeps a positive count
    assert forall|j: int|
        0 <= j < s_mid.len() && (#[trigger] s_mid[j].1.value) is Some && tokenize(s_mid[j].0@)
            != p implies s_mid[j].1.share_count > 0 by {
        let tj = tokenize(s_mid[j].0@);
        assert(s_mid[j].0@ == s0[j].0@);
        assert(s0[j].1.value is Some);
        assert(tj.is_prefix_of(tj)) by {
            assert(tj =~= tj.subrange(0, tj.len() as int));
        }
        assert(reg_at(s0[j], tj) == 1);
        if tj.is_prefix_of(p) {
            assert(jp != j);
            assert(reg_at(s0[jp], tj) == 1) by {
                assert(tokenize(s0[jp].0@) == p);
            }
            lemma_ext_count_two(s0, tj, j, jp);
        } else {
            lemma_ext_count_split(s0, j, tj);
        }
    }
    // the abstract value of what is left
    assert forall|k: Seq<Seq<char>>| #[trigger] payload_map(fin).contains_key(k)
        implies m0.remove(p).contains_key(k) && payload_map(fin)[k] == m0.remove(p)[k] by {
        let x = choose|x: int|
            0 <= x < fin.len() && (#[trigger] fin[x].1.value) is Some && tokenize(fin[x].0@) == k;
        assert(fin[x].1.value == Some(payload_map(fin)[k]));
        assert(from_some_entry(s_mid, full, x));
        let j = choose|j: int| drop_image(s_mid, full, j, apply_drops(s_mid, full)[x]);
        assert(fin[x].0 == s_mid[j].0);
        assert(s_mid[j].0@ != full);
        assert(fin[x].1.value == s_mid[j].1.value);
        assert(s0[j].1.value is Some && tokenize(s0[j].0@) == k);
        assert(m0.contains_key(k));
        assert(s0[j].1.value == Some(m0[k]));
        if k == p {
            assert(s0[j].0@ == join_toks(p));
            assert(false);
        }
    }
    assert forall|k: Seq<Seq<char>>| #[trigger] m0.remove(p).contains_key(k)
        implies payload_map(fin).contains_key(k) by {
        assert(m0.contains_key(k) && k != p);
        let j = choose|j: int|
            0 <= j < s0.len() && (#[trigger] s0[j].1.value) is Some && tokenize(s0[j].0@) == k;
        assert(s_mid[j].1.value == s0[j].1.value);
        assert(s_mid[j].0@ == s0[j].0@);
        assert(s_mid[j].1.share_count > 0);
        assert(survives(s_mid, full, j));
        let x = choose|x: int|
            0 <= x < apply_drops(s_mid, full).len() && drop_image(
                s_mid,
                full,
                j,
                #[trigger] apply_drops(s_mid, full)[x],
            );
        assert(fin[x].0 == s_mid[j].0);
        if s_mid[j].0@ == full {
            crate::util::toks::lemma_canon_join(k);
            assert(join_toks(k) == join_toks(p));
            crate::util::toks::lemma_join_injective(k, p);
            assert(false);
        }
        assert(fin[x].1.value == s_mid[j].1.value);
        assert(fin[x].1.value is Some && tokenize(fin[x].0@) == k);
    }
    assert(payload_map(fin) =~= m0.remove(p));
    // share counts of what is left
    assert(reg_exts(m0, p).finite() && reg_exts(m0.remove(p), p).finite()) by {
        lemma_ext_count_card(s0, p);
        lemma_ext_count_card(fin, p);
    }
    assert forall|x: int|
        0 <= x < fin.len() implies (#[trigger] fin[x].1.share_count) as nat == ext_count(
        fin,
        tokenize(fin[x].0@),
    ) by {
        assert(from_some_entry(s_mid, full, x));
        let j = choose|j: int| drop_image(s_mid, full, j, apply_drops(s_mid, full)[x]);
        let tx = tokenize(fin[x].0@);
        assert(fin[x].0@ == s_mid[j].0@);
        assert(fin[x].1.share_count == s_mid[j].1.share_count);
        lemma_ext_count_card(s0, tx);
        lemma_ext_count_card(fin, tx);
        assert(reg_exts(payload_map(fin), tx) =~= reg_exts(m0, tx).remove(p));
        assert(reg_exts(m0, tx).remove(p).len() == reg_exts(m0, tx).len() - (
        if reg_exts(m0, tx).contains(p) {
            1int
        } else {
            0int
        }));
        assert(reg_exts(m0, tx).contains(p) <==> tx.is_prefix_of(p));
    }
    // every remaining node lies on a registered path
    assert forall|x: int| 0 <= x < fin.len() implies #[trigger] on_registered_path(
        fin,
        tokenize(fin[x].0@),
    ) by {
        let tx = tokenize(fin[x].0@);
        assert(fin[x].1.share_count as nat == ext_count(fin, tx));
        assert(fin[x].1.share_count > 0) by {
            assert(from_some_entry(s_mid, full, x));
            let j = choose|j: int| drop_image(s_mid, full, j, apply_drops(s_mid, full)[x]);
        }
        lemma_ext_count_pos(fin, tx);
        let j2 = choose|j2: int|
            0 <= j2 < fin.len() && (#[trigger] fin[j2].1.value) is Some && tx.is_prefix_of(
                tokenize(fin[j2].0@),
            );
        assert(on_registered_path(fin, tx));
    }
    // every prefix of a registered path keeps a node
    assert forall|x: int, l: int|
        0 <= x < fin.len() && fin[x].1.value is Some && 1 <= l <= tokenize(fin[x].0@).len()
        implies #[trigger] key_present(fin, tokenize(fin[x].0@).take(l)) by {
        let tx = tokenize(fin[x].0@);
        let q = tx.take(l);
        assert(from_some_entry(s_mid, full, x));
        let j = choose|j: int| drop_image(s_mid, full, j, apply_drops(s_mid, full)[x]);
        assert(fin[x].0@ == s0[j].0@);
        assert(s0[j].1.value is Some) by {
            assert(s_mid[j].0@ != full);
            assert(s_mid[j].1.value == fin[x].1.value);
        }
        assert(key_present(s0, tokenize(s0[j].0@).take(l)));
        let j2 = choose|j2: int| 0 <= j2 < s0.len() && tokenize(#[trigger] s0[j2].0@) == q;
        // that node survives: the registered path through it other than p
        // still runs through it
        assert(s_mid[j2].0@ == s0[j2].0@);
        assert(tokenize(s_mid[j2].0@) == q);
        assert(s_mid[j2].1.share_count > 0) by {
            assert(q.is_prefix_of(tx)) by {
                assert(q =~= tx.subrange(0, q.len() as int));
            }
            assert(reg_at(s0[j], q) == 1) by {
                assert(tokenize(s0[j].0@) == tx);
            }
            if q.is_prefix_of(p) {
                assert(tx != p) by {
                    if tokenize(fin[x].0@) == p {
                        assert(s0[j].0@ == join_toks(p));
                        assert(s_mid[j].0@ == full);
                        assert(false);
                    }
                }
                assert(j != jp);
                assert(reg_at(s0[jp], q) == 1) by {
                    assert(tokenize(s0[jp].0@) == p);
                }
                lemma_ext_count_two(s0, q, j, jp);
            } else {
                lemma_ext_count_split(s0, j, q);
            }
        }
        assert(survives(s_mid, full, j2));
        let x2 = choose|x2: int|
            0 <= x2 < apply_drops(s_mid, full).len() && drop_image(
                s_mid,
                full,
                j2,
                #[trigger] apply_drops(s_mid, full)[x2],
            );
        assert(tokenize(fin[x2].0@) == q);
        assert(key_present(fin, q));
    }
    assert(wf_entries(fin));
}

/// The least serial at or after `n`, but below `bound`, whose shortcut path
/// is not registered in `m`; `bound` itself when every one of them is.
pub open spec fn first_free_from<T>(
    m: Map<Seq<Seq<char>>, T>,
    ts: Seq<Seq<char>>,
    n: nat,
    bound: nat,
) -> nat
    decreases bound - n,
{
    if n >= bound {
        n
    } else if !m.contains_key(shortcut_toks(ts, n)) {
        n
    } else {
        first_free_from(m, ts, n + 1, bound)
    }
}

/// The serial that `set_by_path_with_shortcut` settles on: the least one,
/// from 1 up, whose shortcut path is not yet registered.
pub open spec fn first_free_serial<T>(m: Map<Seq<Seq<char>>, T>, ts: Seq<Seq<char>>) -> nat {
    first_free_from(m, ts, 1, m.dom().len() + 2)
}

/// The shortcut paths of serials 1 through `k`.
pub open spec fn serial_keys(ts: Seq<Seq<char>>, k: nat) -> Set<Seq<Seq<char>>>
    decreases k,
{
    if k == 0 {
        Set::empty()
    } else {
        serial_keys(ts, (k - 1) as nat).insert(shortcut_toks(ts, k))
    }
}

proof fn lemma_serial_keys_card(ts: Seq<Seq<char>>, k: nat)
    requires
        valid_toks(ts),
        ts.len() > 0,
    ensures
        serial_keys(ts, k).finite(),
        serial_keys(ts, k).len() == k,
        forall|r: Seq<Seq<char>>|
            #[trigger] serial_keys(ts, k).contains(r) <==> exists|i: nat|
                1 <= i <= k && r == shortcut_toks(ts, i),
    decreases k,
{
    if k == 0 {
        assert forall|r: Seq<Seq<char>>| #[trigger] serial_keys(ts, k).contains(r) implies exists|
            i: nat,
        |
            1 <= i <= k && r == shortcut_toks(ts, i) by {
            assert(false);
        }
    } else {
        lemma_serial_keys_card(ts, (k - 1) as nat);
        if serial_keys(ts, (k - 1) as nat).contains(shortcut_toks(ts, k)) {
            let i = choose|i: nat| 1 <= i <= k - 1 && shortcut_toks(ts, k) == shortcut_toks(ts, i);
            crate::util::treepath::lemma_shortcut_injective(ts, i, k);
            assert(false);
        }
        assert(serial_keys(ts, k).len() == k);
        assert forall|r: Seq<Seq<char>>| #[trigger] serial_keys(ts, k).contains(r) implies exists|
            i: nat,
        |
            1 <= i <= k && r == shortcut_toks(ts, i) by {
            if r == shortcut_toks(ts, k) {
                assert(1 <= k <= k && r == shortcut_toks(ts, k));
            } else {
                assert(serial_keys(ts, (k - 1) as nat).contains(r));
                let i = choose|i: nat| 1 <= i <= k - 1 && r == shortcut_toks(ts, i);
                assert(1 <= i <= k && r == shortcut_toks(ts, i));
            }
        }
        assert forall|r: Seq<Seq<char>>|
            (exists|i: nat| 1 <= i <= k && r == shortcut_toks(ts, i))
                implies #[trigger] serial_keys(ts, k).contains(r) by {
            let i = choose|i: nat| 1 <= i <= k && r == shortcut_toks(ts, i);
            if i == k {
            } else {
                assert(serial_keys(ts, (k - 1) as nat).contains(r));
            }
        }
    }
}

proof fn lemma_exists_free_serial<T>(m: Map<Seq<Seq<char>>, T>, ts: Seq<Seq<char>>)
    requires
        m.dom().finite(),
        valid_toks(ts),
        ts.len() > 0,
    ensures
        exists|k: nat|
            1 <= k <= m.dom().len() + 1 && !m.contains_key(#[trigger] shortcut_toks(ts, k)),
{
    let nn = (m.dom().len() + 1) as nat;
    if forall|k: nat| 1 <= k <= nn ==> m.contains_key(#[trigger] shortcut_toks(ts, k)) {
        lemma_serial_keys_card(ts, nn);
        assert forall|r: Seq<Seq<char>>| #[trigger] serial_keys(ts, nn).contains(r)
            implies m.dom().contains(r) by {
            let i = choose|i: nat| 1 <= i <= nn && r == shortcut_toks(ts, i);
            assert(m.contains_key(shortcut_toks(ts, i)));
        }
        vstd::set_lib::lemma_len_subset(serial_keys(ts, nn), m.dom());
        assert(false);
    }
}

proof fn lemma_first_free_from_props<T>(
    m: Map<Seq<Seq<char>>, T>,
    ts: Seq<Seq<char>>,
    n: nat,
    bound: nat,
)
    requires
        exists|k: nat| n <= k < bound && !m.contains_key(#[trigger] shortcut_toks(ts, k)),
    ensures
        n <= first_free_from(m, ts, n, bound) < bound,
        !m.contains_key(shortcut_toks(ts, first_free_from(m, ts, n, bound))),
        forall|j: nat|
            n <= j < first_free_from(m, ts, n, bound) ==> m.contains_key(
                #[trigger] shortcut_toks(ts, j),
            ),
    decreases bound - n,
{
    let k0 = choose|k: nat| n <= k < bound && !m.contains_key(#[trigger] shortcut_toks(ts, k));
    assert(n < bound);
    if !m.contains_key(shortcut_toks(ts, n)) {
    } else {
        assert(k0 != n);
        assert((n + 1) as nat <= k0 < bound && !m.contains_key(shortcut_toks(ts, k0)));
        lemma_first_free_from_props(m, ts, (n + 1) as nat, bound);
    }
}

/// Where the chosen serial stands: it is free, and every smaller one from 1
/// up is taken.
pub proof fn lemma_first_free_serial<T>(m: Map<Seq<Seq<char>>, T>, ts: Seq<Seq<char>>)
    requires
        m.dom().finite(),
        valid_toks(ts),
        ts.len() > 0,
    ensures
        1 <= first_free_serial(m, ts) <= m.dom().len() + 1,
        !m.contains_key(shortcut_toks(ts, first_free_serial(m, ts))),
        forall|j: nat|
            1 <= j < first_free_serial(m, ts) ==> m.contains_key(#[trigger] shortcut_toks(ts, j)),
{
    lemma_exists_free_serial(m, ts);
    let k = choose|k: nat|
        1 <= k <= m.dom().len() + 1 && !m.contains_key(#[trigger] shortcut_toks(ts, k));
    assert(1nat <= k < (m.dom().len() + 2) as nat && !m.contains_key(shortcut_toks(ts, k)));
    lemma_first_free_from_props(m, ts, 1, (m.dom().len() + 2) as nat);
    let r = first_free_serial(m, ts);
    if r > k {
        assert(m.contains_key(shortcut_toks(ts, k)));
        assert(false);
    }
}

impl<T> PathTree<T> {
    /// The registered paths, as token sequences, each with its payload.
    pub closed spec fn view(&self) -> Map<Seq<Seq<char>>, T> {
        payload_map(self.tree@)
    }

    /// The tree's internal invariant; every operation keeps it.
    pub closed spec fn wf(&self) -> bool {
        wf_entries(self.tree@)
    }

    /// The registered paths form a finite map.
    pub proof fn lemma_wf_finite(&self)
        requires
            self.wf(),
        ensures
            self@.dom().finite(),
    {
        lemma_payload_map_mem(self.tree@);
    }

    /// Every registered path is a non-empty sequence of tokens.
    pub proof fn lemma_keys_form(&self)
        requires
            self.wf(),
        ensures
            forall|k: Seq<Seq<char>>|
                #[trigger] self@.contains_key(k) ==> k.len() > 0 && valid_toks(k),
    {
        lemma_payload_map_mem(self.tree@);
        assert forall|k: Seq<Seq<char>>| #[trigger] self@.contains_key(k) implies k.len() > 0
            && valid_toks(k) by {
            let j = choose|j: int|
                0 <= j < self.tree@.len() && (#[trigger] self.tree@[j].1.value) is Some
                    && tokenize(self.tree@[j].0@) == k;
            assert(canon_str(self.tree@[j].0@));
            crate::util::toks::lemma_tokenize_valid(self.tree@[j].0@);
        }
    }

    pub fn new() -> (r: Self)
        ensures
            r.wf(),
            r@ == Map::<Seq<Seq<char>>, T>::empty(),
    {
        let r = PathTree { tree: Vec::new() };
        proof {
            assert(r.tree@.len() == 0);
            assert(r@ =~= Map::<Seq<Seq<char>>, T>::empty());
        }
        r
    }

    /// The index of the entry keyed by exactly `key`, if one exists.
    fn find_idx(&self, key: &str) -> (r: Option<usize>)
        ensures
            match r {
                Some(i) => i < self.tree@.len() && self.tree@[i as int].0@ == key@,
                None => forall|j: int| 0 <= j < self.tree@.len() ==> self.tree@[j].0@ != key@,
            },
    {
        let n = self.tree.len();
        let mut i: usize = 0;
        while i < n
            invariant
                n == self.tree@.len(),
                i <= n,
                forall|j: int| 0 <= j < i ==> self.tree@[j].0@ != key@,
            decreases n - i,
        {
            if str_eq(self.tree[i].0.as_str(), key) {
                return Some(i);
            }
            i += 1;
        }
        None
    }

    /// Whether a node stands at the canonical form of `path`: whether some
    /// registered path runs through it.
    pub fn does_path_exist(&self, path: &str) -> (r: bool)
        requires
            self.wf(),
        ensures
            r == spec_path_exists(self@, tokenize(path@)),
    {
        let p = TreePath::prettify(path);
        let found = self.find_idx(p.as_str());
        proof {
            let q = tokenize(path@);
            crate::util::toks::lemma_tokenize_valid(path@);
            lemma_key_iff_exists(self.tree@, q);
            if q.len() == 0 {
                assert(!spec_path_exists(self@, q));
                if found is Some {
                    let i = choose|i: int|
                        0 <= i < self.tree@.len() && #[trigger] self.tree@[i].0@ == p@;
                    assert(canon_str(self.tree@[i as int].0@));
                    assert(tokenize(p@).len() == 0);
                    assert(false);
                }
            } else {
                lemma_string_key(self.tree@, q);
                match found {
                    Some(i) => {
                        assert(self.tree@[i as int].0@ == join_toks(q));
                        assert(key_present(self.tree@, q));
                    },
                    None => {
                        if key_present(self.tree@, q) {
                            let i = choose|i: int|
                                0 <= i < self.tree@.len() && #[trigger] self.tree@[i].0@
                                    == join_toks(q);
                            assert(false);
                        }
                    },
                }
            }
        }
        found.is_some()
    }

    /// Whether the node at `path` exists and carries a payload: whether the
    /// path itself is registered.
    pub fn does_node_contain_value(&self, path: &str) -> (r: bool)
        requires
            self.wf(),
        ensures
            r == self@.contains_key(tokenize(path@)),
    {
        let p = TreePath::prettify(path);
        let found = self.find_idx(p.as_str());
        proof {
            let q = tokenize(path@);
            crate::util::toks::lemma_tokenize_valid(path@);
            lemma_payload_map_mem(self.tree@);
            if q.len() == 0 {
                if self@.contains_key(q) {
                    let i = choose|i: int|
                        0 <= i < self.tree@.len() && (#[trigger] self.tree@[i].1.value) is Some
                            && tokenize(self.tree@[i].0@) == q;
                    assert(canon_str(self.tree@[i].0@));
                    assert(false);
                }
                if found is Some {
                    let i = choose|i: int|
                        0 <= i < self.tree@.len() && #[trigger] self.tree@[i].0@ == p@;
                    assert(canon_str(self.tree@[i as int].0@));
                    assert(tokenize(p@).len() == 0);
                    assert(false);
                }
            } else {
                lemma_string_key(self.tree@, q);
            }
        }
        match found {
            None => {
                proof {
                    let q = tokenize(path@);
                    if self@.contains_key(q) {
                        assert(key_present(self.tree@, q));
                        let i = choose|i: int|
                            0 <= i < self.tree@.len() && tokenize(#[trigger] self.tree@[i].0@)
                                == q;
                        assert(self.tree@[i].0@ == join_toks(q));
                        assert(false);
                    }
                }
                false
            },
            Some(i) => {
                let has = self.tree[i].1.value.is_some();
                proof {
                    let q = tokenize(path@);
                    let e = self.tree@[i as int];
                    assert(canon_str(e.0@));
                    assert(e.0@ == join_toks(q) && q.len() > 0 && valid_toks(q)) by {
                        crate::util::toks::lemma_tokenize_valid(path@);
                    }
                    assert(tokenize(e.0@) == q);
                    if has {
                        assert(self@.contains_key(q));
                    } else {
                        if self@.contains_key(q) {
                            let j = choose|j: int|
                                0 <= j < self.tree@.len() && (#[trigger] self.tree@[j].1.value)
                                    is Some && tokenize(self.tree@[j].0@) == q;
                            assert(self.tree@[j].0@ == join_toks(q));
                            assert(j != i as int);
                            assert(false);
                        }
                    }
                }
                has
            },
        }
    }

    /// Raises the share count of the entry at `i` by one.
    fn bump_count(&mut self, i: usize)
        requires
            i < old(self).tree@.len(),
            old(self).tree@[i as int].1.share_count < usize::MAX,
        ensures
            final(self).tree@ == old(self).tree@.update(
                i as int,
                (
                    old(self).tree@[i as int].0,
                    Node {
                        share_count: (old(self).tree@[i as int].1.share_count + 1) as usize,
                        value: old(self).tree@[i as int].1.value,
                    },
                ),
            ),
    {
        let e = self.tree.remove(i);
        let c = e.1.share_count;
        self.tree.insert(i, (e.0, Node { share_count: c + 1, value: e.1.value }));
        proof {
            assert(self.tree@ =~= old(self).tree@.update(
                i as int,
                (
                    old(self).tree@[i as int].0,
                    Node {
                        share_count: (old(self).tree@[i as int].1.share_count + 1) as usize,
                        value: old(self).tree@[i as int].1.value,
                    },
                ),
            ));
        }
    }

    /// Puts `v` into the entry at `i`, keeping its share count.
    fn put_value(&mut self, i: usize, v: T)
        requires
            i < old(self).tree@.len(),
        ensures
            final(self).tree@ == old(self).tree@.update(
                i as int,
                (
                    old(self).tree@[i as int].0,
                    Node {
                        share_count: old(self).tree@[i as int].1.share_count,
                        value: Some(v),
                    },
                ),
            ),
    {
        let e = self.tree.remove(i);
        self.tree.insert(i, (e.0, Node { share_count: e.1.share_count, value: Some(v) }));
        proof {
            assert(self.tree@ =~= old(self).tree@.update(
                i as int,
                (
                    old(self).tree@[i as int].0,
                    Node {
                        share_count: old(self).tree@[i as int].1.share_count,
                        value: Some(v),
                    },
                ),
            ));
        }
    }

    /// Registers `value` at `path`: a node comes to stand at every non-empty
    /// prefix of the path, and the full path's node carries the value,
    /// replacing any value registered there before. Re-registration at an
    /// already registered path leaves every share count as it stands.
    pub fn set_by_path(&mut self, value: T, path: &str)
        requires
            old(self).wf(),
            tokenize(path@).len() > 0,
            old(self)@.dom().len() < usize::MAX,
        ensures
            final(self).wf(),
            final(self)@ == old(self)@.insert(tokenize(path@), value),
    {
        let ghost p = tokenize(path@);
        let ghost s0 = self.tree@;
        let ghost m0 = self@;
        proof {
            crate::util::toks::lemma_tokenize_valid(path@);
            crate::util::toks::lemma_canon_join(p);
        }
        let the_hierarchy = TreePath::get_path_hierarchy(path);
        let hlen = the_hierarchy.len();
        proof {
            assert(seq_views(the_hierarchy@) == hier_of(p));
            assert(seq_views(the_hierarchy@).len() == the_hierarchy@.len());
            assert(hier_of(p).len() == p.len());
            assert(hlen == p.len());
            assert(p.take(p.len() as int) =~= p);
            assert(seq_views(the_hierarchy@)[hlen - 1] == the_hierarchy@[hlen - 1]@);
            assert(hier_of(p)[hlen - 1] == join_toks(p.take(hlen as int)));
            assert(the_hierarchy@[hlen - 1]@ == join_toks(p));
        }
        let full = &the_hierarchy[hlen - 1];
        if self.does_node_contain_value(full.as_str()) {
            proof {
                assert(tokenize(full@) == p);
                assert(m0.contains_key(p));
            }
            match self.find_idx(full.as_str()) {
                Some(i) => {
                    proof {
                        assert(s0[i as int].0@ == join_toks(p));
                        assert(tokenize(s0[i as int].0@) == p);
                        lemma_payload_map_mem(s0);
                        if s0[i as int].1.value is None {
                            let j = choose|j: int|
                                0 <= j < s0.len() && (#[trigger] s0[j].1.value) is Some
                                    && tokenize(s0[j].0@) == p;
                            assert(s0[j].0@ == join_toks(p));
                            assert(j != i as int);
                            assert(false);
                        }
                    }
                    let ghost s_pre = self.tree@;
                    self.put_value(i, value);
                    proof {
                        lemma_overwrite_value(s_pre, i as int, value);
                        let s2 = self.tree@;
                        assert(payload_map(s2) == m0.insert(p, value));
                        lemma_wf_transfer(s_pre, s2);
                    }
                },
                None => {
                    proof {
                        lemma_payload_map_mem(s0);
                        let j = choose|j: int|
                            0 <= j < s0.len() && (#[trigger] s0[j].1.value) is Some && tokenize(
                                s0[j].0@,
                            ) == p;
                        assert(canon_str(s0[j].0@));
                        assert(s0[j].0@ == join_toks(p));
                        assert(false);
                    }
                },
            }
        } else {
            proof {
                assert(tokenize(full@) == p);
                assert(!m0.contains_key(p));
            }
            let mut k: usize = 0;
            while k < hlen
                invariant
                    p == tokenize(path@),
                    valid_toks(p),
                    1 <= p.len(),
                    hlen == p.len(),
                    seq_views(the_hierarchy@) == hier_of(p),
                    the_hierarchy@.len() == p.len(),
                    wf_entries(s0),
                    m0 == payload_map(s0),
                    !m0.contains_key(p),
                    m0.dom().len() < usize::MAX,
                    k <= hlen,
                    payload_map(self.tree@) == m0,
                    self.tree@.len() >= s0.len(),
                    forall|j: int|
                        0 <= j < s0.len() ==> (#[trigger] self.tree@[j].0)@ == s0[j].0@
                            && self.tree@[j].1.value == s0[j].1.value,
                    forall|j: int|
                        s0.len() <= j < self.tree@.len() ==> (#[trigger] self.tree@[j].1.value)
                            is None,
                    forall|i: int|
                        0 <= i < self.tree@.len() ==> canon_str((#[trigger] self.tree@[i].0)@),
                    forall|i: int, j: int|
                        0 <= i < j < self.tree@.len() ==> self.tree@[i].0@ != self.tree@[j].0@,
                    forall|q: Seq<Seq<char>>|
                        #[trigger] ext_count(self.tree@, q) == ext_count(s0, q),
                    forall|q: Seq<Seq<char>>|
                        #[trigger] key_present(self.tree@, q) <==> (key_present(s0, q) || in_hier(
                            q,
                            p,
                            k as int,
                        )),
                    forall|i: int|
                        0 <= i < self.tree@.len() ==> (#[trigger] self.tree@[i].1.share_count)
                            as nat == ext_count(self.tree@, tokenize(self.tree@[i].0@)) + (
                        if in_hier(tokenize(self.tree@[i].0@), p, k as int) {
                            1nat
                        } else {
                            0nat
                        }),
                decreases hlen - k,
            {
                let h = &the_hierarchy[k];
                let ghost q = p.take(k as int + 1);
                proof {
                    assert(the_hierarchy@[k as int]@ == hier_of(p)[k as int]);
                    assert(hier_of(p)[k as int] == join_toks(p.take(k as int + 1)));
                    assert(forall|x: int|
                        0 <= x < q.len() ==> #[trigger] q[x] == p[x] && crate::util::toks::valid_token(
                            p[x],
                        ));
                    assert(valid_toks(q));
                    assert(q.len() == k + 1);
                    crate::util::toks::lemma_canon_join(q);
                    if in_hier(q, p, k as int) {
                        let l = choose|l: int| 1 <= l <= k && q == #[trigger] p.take(l);
                        assert(p.take(l).len() == l);
                        assert(false);
                    }
                }
                let ghost s_pre = self.tree@;
                match self.find_idx(h.as_str()) {
                    Some(i) => {
                        proof {
                            assert(s_pre[i as int].0@ == h@);
                            assert(tokenize(s_pre[i as int].0@) == q);
                            assert(ext_count(s_pre, q) == ext_count(s0, q));
                            lemma_ext_count_card(s0, q);
                            assert(reg_exts(m0, q).subset_of(m0.dom()));
                            lemma_payload_map_mem(s0);
                            vstd::set_lib::lemma_len_subset(reg_exts(m0, q), m0.dom());
                            assert(ext_count(s0, q) <= m0.dom().len());
                            assert(s_pre[i as int].1.share_count as nat == ext_count(s_pre, q));
                            assert(s_pre[i as int].1.share_count < usize::MAX);
                        }
                        self.bump_count(i);
                        proof {
                            let s2 = self.tree@;
                            assert(forall|x: int|
                                0 <= x < s2.len() ==> (#[trigger] s2[x].0)@ == s_pre[x].0@
                                    && s2[x].1.value == s_pre[x].1.value);
                            lemma_entries_same(s_pre, s2);
                            assert(payload_map(s2) == m0);
                            assert forall|q2: Seq<Seq<char>>| #[trigger] ext_count(s2, q2)
                                == ext_count(s0, q2) by {
                                lemma_ext_count_same(s_pre, s2, q2);
                                assert(ext_count(s_pre, q2) == ext_count(s0, q2));
                            }
                            assert forall|x: int| 0 <= x < s2.len() implies canon_str(
                                (#[trigger] s2[x].0)@,
                            ) by {
                                assert(s2[x].0@ == s_pre[x].0@);
                                assert(canon_str(s_pre[x].0@));
                            }
                            assert forall|x: int, y: int| 0 <= x < y < s2.len() implies s2[x].0@
                                != s2[y].0@ by {
                                assert(s2[x].0@ == s_pre[x].0@);
                                assert(s2[y].0@ == s_pre[y].0@);
                            }
                            assert forall|q2: Seq<Seq<char>>| #[trigger] key_present(s2, q2) <==> (
                            key_present(s0, q2) || in_hier(q2, p, k + 1)) by {
                                assert(key_present(s2, q2) == key_present(s_pre, q2));
                                if in_hier(q2, p, k + 1) {
                                    let l = choose|l: int| 1 <= l <= k + 1 && q2 == #[trigger] p.take(l);
                                    if l <= k {
                                        assert(in_hier(q2, p, k as int));
                                    } else {
                                        assert(q2 == q);
                                        assert(key_present(s_pre, q));
                                    }
                                }
                                if key_present(s0, q2) || in_hier(q2, p, k as int) {
                                    assert(key_present(s_pre, q2));
                                }
                                if key_present(s_pre, q2) {
                                    assert(key_present(s0, q2) || in_hier(q2, p, k as int));
                                    if in_hier(q2, p, k as int) {
                                        let l = choose|l: int| 1 <= l <= k && q2 == #[trigger] p.take(l);
                                        assert(in_hier(q2, p, k + 1));
                                    }
                                }
                            }
                            assert forall|x: int|
                                0 <= x < s2.len() implies (#[trigger] s2[x].1.share_count) as nat
                                == ext_count(s2, tokenize(s2[x].0@)) + (if in_hier(
                                tokenize(s2[x].0@),
                                p,
                                k + 1,
                            ) {
                                1nat
                            } else {
                                0nat
                            }) by {
                                let tx = tokenize(s2[x].0@);
                                assert(s2[x].0@ == s_pre[x].0@);
                                assert(ext_count(s2, tx) == ext_count(s_pre, tx));
                                if x == i as int {
                                    assert(tx == q);
                                    assert(q == p.take(k + 1));
                                    assert(in_hier(tx, p, k + 1));
                                    assert(!in_hier(tx, p, k as int));
                                    assert(s2[x].1.share_count == s_pre[x].1.share_count + 1);
                                } else {
                                    assert(s2[x].1.share_count == s_pre[x].1.share_count);
                                    if tx == q {
                                        assert(s_pre[x].0@ == join_toks(q));
                                        assert(s_pre[i as int].0@ == join_toks(q));
                                        assert(false);
                                    }
                                    if in_hier(tx, p, k + 1) {
                                        let l = choose|l: int| 1 <= l <= k + 1 && tx == #[trigger] p.take(l);
                                        assert(l <= k);
                                        assert(in_hier(tx, p, k as int));
                                    }
                                    if in_hier(tx, p, k as int) {
                                        let l = choose|l: int| 1 <= l <= k && tx == #[trigger] p.take(l);
                                        assert(in_hier(tx, p, k + 1));
                                    }
                                }
                            }
                        }
                    },
                    None => {
                        proof {
                            if key_present(s_pre, q) {
                                let j = choose|j: int|
                                    0 <= j < s_pre.len() && tokenize(#[trigger] s_pre[j].0@) == q;
                                assert(canon_str(s_pre[j].0@));
                                assert(s_pre[j].0@ == join_toks(q));
                                assert(false);
                            }
                            assert(!key_present(s0, q));
                            lemma_ext_count_pos(s0, q);
                            if ext_count(s0, q) > 0 {
                                let j = choose|j: int|
                                    0 <= j < s0.len() && (#[trigger] s0[j].1.value) is Some
                                        && q.is_prefix_of(tokenize(s0[j].0@));
                                lemma_payload_map_mem(s0);
                                assert(m0.contains_key(tokenize(s0[j].0@)));
                                assert(spec_path_exists(m0, q));
                                lemma_key_iff_exists(s0, q);
                                assert(false);
                            }
                            assert(ext_count(s0, q) == 0);
                        }
                        let e_key = h.clone();
                        self.tree.push((e_key, Node { share_count: 1, value: None }));
                        proof {
                            let s2 = self.tree@;
                            let e = s2.last();
                            assert(s2 =~= s_pre.push(e));
                            assert(e.0@ == h@ && e.1.value is None && e.1.share_count == 1);
                            assert(tokenize(e.0@) == q);
                            lemma_push_null(s_pre, e);
                            assert(payload_map(s2) == m0);
                            assert forall|q2: Seq<Seq<char>>| #[trigger] ext_count(s2, q2)
                                == ext_count(s0, q2) by {
                                assert(ext_count(s_pre.push(e), q2) == ext_count(s_pre, q2));
                                assert(ext_count(s_pre, q2) == ext_count(s0, q2));
                            }
                            assert forall|x: int| 0 <= x < s2.len() implies canon_str(
                                (#[trigger] s2[x].0)@,
                            ) by {
                                if x < s_pre.len() {
                                    assert(s2[x] == s_pre[x]);
                                    assert(canon_str(s_pre[x].0@));
                                } else {
                                    assert(s2[x] == e);
                                    assert(canon_str(join_toks(q)));
                                }
                            }
                            assert forall|x: int, y: int| 0 <= x < y < s2.len() implies s2[x].0@
                                != s2[y].0@ by {
                                if y < s_pre.len() {
                                    assert(s2[x] == s_pre[x] && s2[y] == s_pre[y]);
                                } else {
                                    assert(s2[y] == e);
                                    assert(s2[x] == s_pre[x]);
                                    assert(s_pre[x].0@ != h@);
                                }
                            }
                            assert forall|q2: Seq<Seq<char>>| #[trigger] key_present(s2, q2) <==> (
                            key_present(s0, q2) || in_hier(q2, p, k + 1)) by {
                                if key_present(s2, q2) {
                                    assert(key_present(s_pre, q2) || q2 == q);
                                    if q2 == q {
                                        assert(q == p.take(k + 1));
                                        assert(in_hier(q2, p, k + 1));
                                    } else {
                                        assert(key_present(s0, q2) || in_hier(q2, p, k as int));
                                        if in_hier(q2, p, k as int) {
                                            let l = choose|l: int|
                                                1 <= l <= k && q2 == #[trigger] p.take(l);
                                            assert(in_hier(q2, p, k + 1));
                                        }
                                    }
                                }
                                if key_present(s0, q2) {
                                    assert(key_present(s_pre, q2));
                                    assert(key_present(s2, q2));
                                }
                                if in_hier(q2, p, k + 1) {
                                    let l = choose|l: int| 1 <= l <= k + 1 && q2 == #[trigger] p.take(l);
                                    if l <= k {
                                        assert(in_hier(q2, p, k as int));
                                        assert(key_present(s_pre, q2));
                                        assert(key_present(s2, q2));
                                    } else {
                                        assert(q2 == q);
                                        assert(key_present(s2, q2));
                                    }
                                }
                            }
                            assert forall|x: int|
                                0 <= x < s2.len() implies (#[trigger] s2[x].1.share_count) as nat
                                == ext_count(s2, tokenize(s2[x].0@)) + (if in_hier(
                                tokenize(s2[x].0@),
                                p,
                                k + 1,
                            ) {
                                1nat
                            } else {
                                0nat
                            }) by {
                                let tx = tokenize(s2[x].0@);
                                assert(ext_count(s2, tx) == ext_count(s_pre, tx));
                                if x < s_pre.len() {
                                    assert(s2[x] == s_pre[x]);
                                    if tx == q {
                                        assert(key_present(s_pre, q));
                                        assert(false);
                                    }
                                    if in_hier(tx, p, k + 1) {
                                        let l = choose|l: int| 1 <= l <= k + 1 && tx == #[trigger] p.take(l);
                                        assert(l <= k);
                                        assert(in_hier(tx, p, k as int));
                                    }
                                    if in_hier(tx, p, k as int) {
                                        let l = choose|l: int| 1 <= l <= k && tx == #[trigger] p.take(l);
                                        assert(in_hier(tx, p, k + 1));
                                    }
                                } else {
                                    assert(s2[x] == e);
                                    assert(tx == q);
                                    assert(in_hier(tx, p, k + 1));
                                    assert(ext_count(s_pre, q) == ext_count(s0, q));
                                    assert(ext_count(s2, tx) == 0);
                                }
                            }
                        }
                    },
                }
                k += 1;
            }
            proof {
                assert(p.take(p.len() as int) =~= p);
                assert(in_hier(p, p, hlen as int));
                assert(key_present(self.tree@, p));
            }
            match self.find_idx(full.as_str()) {
                Some(i) => {
                    let ghost s_pre = self.tree@;
                    proof {
                        assert(s_pre[i as int].0@ == join_toks(p));
                        assert(tokenize(s_pre[i as int].0@) == p);
                        lemma_payload_map_mem(s_pre);
                        if s_pre[i as int].1.value is Some {
                            assert(payload_map(s_pre).contains_key(p));
                            assert(false);
                        }
                    }
                    self.put_value(i, value);
                    proof {
                        lemma_put_value(s_pre, i as int, value);
                        let s2 = self.tree@;
                        assert(payload_map(s2) == m0.insert(p, value));
                        assert(self@ == old(self)@.insert(tokenize(path@), value));
                        // the invariant of the finished tree
                        assert(forall|x: int|
                            0 <= x < s2.len() ==> (#[trigger] s2[x].0)@ == s_pre[x].0@
                                && s2[x].1.share_count == s_pre[x].1.share_count);
                        assert forall|x: int| 0 <= x < s2.len() implies canon_str(
                            (#[trigger] s2[x].0)@,
                        ) by {
                            assert(s2[x].0@ == s_pre[x].0@);
                            assert(canon_str(s_pre[x].0@));
                        }
                        assert forall|x: int, y: int| 0 <= x < y < s2.len() implies s2[x].0@
                            != s2[y].0@ by {
                            assert(s2[x].0@ == s_pre[x].0@);
                            assert(s2[y].0@ == s_pre[y].0@);
                        }
                        assert forall|x: int|
                            0 <= x < s2.len() implies (#[trigger] s2[x].1.share_count) as nat
                            == ext_count(s2, tokenize(s2[x].0@)) by {
                            let tx = tokenize(s2[x].0@);
                            assert(s2[x].0@ == s_pre[x].0@);
                            assert(ext_count(s2, tx) == ext_count(s_pre, tx) + (
                            if tx.is_prefix_of(p) {
                                1nat
                            } else {
                                0nat
                            }));
                            assert(canon_str(s_pre[x].0@));
                            assert(tx.len() > 0);
                            if in_hier(tx, p, hlen as int) {
                                let l = choose|l: int| 1 <= l <= hlen && tx == #[trigger] p.take(l);
                                assert(tx =~= p.subrange(0, tx.len() as int));
                                assert(tx.is_prefix_of(p));
                            }
                            if tx.is_prefix_of(p) {
                                assert(tx =~= p.take(tx.len() as int));
                                assert(1 <= tx.len() <= hlen);
                                assert(in_hier(tx, p, hlen as int));
                            }
                        }
                        assert forall|x: int| 0 <= x < s2.len() implies #[trigger] on_registered_path(
                            s2,
                            tokenize(s2[x].0@),
                        ) by {
                            let tx = tokenize(s2[x].0@);
                            if tx.is_prefix_of(p) {
                                assert(s2[i as int].1.value is Some);
                                assert(tokenize(s2[i as int].0@) == p);
                            } else {
                                assert(s2[x].0@ == s_pre[x].0@);
                                assert(key_present(s_pre, tx));
                                if in_hier(tx, p, hlen as int) {
                                    let l = choose|l: int|
                                        1 <= l <= hlen && tx == #[trigger] p.take(l);
                                    assert(tx =~= p.subrange(0, tx.len() as int));
                                    assert(tx.is_prefix_of(p));
                                    assert(false);
                                }
                                assert(key_present(s0, tx));
                                let j0 = choose|j0: int|
                                    0 <= j0 < s0.len() && tokenize(#[trigger] s0[j0].0@) == tx;
                                assert(on_registered_path(s0, tokenize(s0[j0].0@)));
                                let j1 = choose|j1: int|
                                    0 <= j1 < s0.len() && (#[trigger] s0[j1].1.value) is Some
                                        && tx.is_prefix_of(tokenize(s0[j1].0@));
                                assert(s_pre[j1].1.value == s0[j1].1.value);
                                assert(s_pre[j1].0@ == s0[j1].0@);
                                assert(j1 != i as int);
                                assert(s2[j1] == s_pre[j1]);
                                assert(s2[j1].1.value is Some && tx.is_prefix_of(
                                    tokenize(s2[j1].0@),
                                ));
                            }
                        }
                        assert forall|x: int, l: int|
                            0 <= x < s2.len() && s2[x].1.value is Some && 1 <= l <= tokenize(
                                s2[x].0@,
                            ).len() implies #[trigger] key_present(
                            s2,
                            tokenize(s2[x].0@).take(l),
                        ) by {
                            let tx = tokenize(s2[x].0@);
                            if x == i as int {
                                assert(tx == p);
                                assert(in_hier(p.take(l), p, hlen as int)) by {
                                    assert(1 <= l <= hlen && p.take(l) == p.take(l));
                                }
                                assert(key_present(s_pre, p.take(l)));
                                assert(key_present(s2, p.take(l)));
                            } else {
                                assert(s2[x] == s_pre[x]);
                                assert(s_pre[x].1.value is Some);
                                if x < s0.len() {
                                    assert(s0[x].1.value == s_pre[x].1.value);
                                    assert(s0[x].0@ == s_pre[x].0@);
                                    assert(key_present(s0, tokenize(s0[x].0@).take(l)));
                                    assert(key_present(s_pre, tx.take(l)));
                                    assert(key_present(s2, tx.take(l)));
                                } else {
                                    assert(s_pre[x].1.value is None);
                                    assert(false);
                                }
                            }
                        }
                        assert(wf_entries(s2));
                    }
                },
                None => {
                    proof {
                        let j = choose|j: int|
                            0 <= j < self.tree@.len() && tokenize(#[trigger] self.tree@[j].0@)
                                == p;
                        assert(canon_str(self.tree@[j].0@));
                        assert(self.tree@[j].0@ == join_toks(p));
                        assert(false);
                    }
                },
            }
        }
    }

    /// Lowers the share count of the entry at `i` by one.
    fn cut_count(&mut self, i: usize)
        requires
            i < old(self).tree@.len(),
            old(self).tree@[i as int].1.share_count >= 1,
        ensures
            final(self).tree@ == old(self).tree@.update(
                i as int,
                (
                    old(self).tree@[i as int].0,
                    Node {
                        share_count: (old(self).tree@[i as int].1.share_count - 1) as usize,
                        value: old(self).tree@[i as int].1.value,
                    },
                ),
            ),
    {
        let e = self.tree.remove(i);
        let c = e.1.share_count;
        self.tree.insert(i, (e.0, Node { share_count: c - 1, value: e.1.value }));
        proof {
            assert(self.tree@ =~= old(self).tree@.update(
                i as int,
                (
                    old(self).tree@[i as int].0,
                    Node {
                        share_count: (old(self).tree@[i as int].1.share_count - 1) as usize,
                        value: old(self).tree@[i as int].1.value,
                    },
                ),
            ));
        }
    }

    /// Removes the registered path `path`: first every prefix's share count
    /// falls by one, computed against the counts as they stood; then the
    /// nodes whose count reached zero are deleted, and the full path's node,
    /// where it stays, loses its payload.
    fn drop_hierarchy(&mut self, path: &str)
        requires
            old(self).wf(),
            old(self)@.contains_key(tokenize(path@)),
        ensures
            final(self).wf(),
            final(self)@ == old(self)@.remove(tokenize(path@)),
    {
        let ghost p = tokenize(path@);
        let ghost s0 = self.tree@;
        let ghost m0 = self@;
        proof {
            crate::util::toks::lemma_tokenize_valid(path@);
            lemma_payload_map_mem(s0);
            let j = choose|j: int|
                0 <= j < s0.len() && (#[trigger] s0[j].1.value) is Some && tokenize(s0[j].0@)
                    == p;
            assert(canon_str(s0[j].0@));
            assert(p.len() > 0);
            crate::util::toks::lemma_canon_join(p);
        }
        let the_hierarchy = TreePath::get_path_hierarchy(path);
        let hlen = the_hierarchy.len();
        proof {
            assert(seq_views(the_hierarchy@).len() == the_hierarchy@.len());
            assert(hier_of(p).len() == p.len());
            assert(hlen == p.len());
        }
        // flag phase: take one share from every prefix of the path
        let mut k: usize = 0;
        while k < hlen
            invariant
                p == tokenize(path@),
                valid_toks(p),
                1 <= p.len(),
                hlen == p.len(),
                seq_views(the_hierarchy@) == hier_of(p),
                the_hierarchy@.len() == p.len(),
                wf_entries(s0),
                m0 == payload_map(s0),
                m0.contains_key(p),
                k <= hlen,
                payload_map(self.tree@) == m0,
                self.tree@.len() == s0.len(),
                forall|j: int|
                    0 <= j < s0.len() ==> (#[trigger] self.tree@[j].0)@ == s0[j].0@
                        && self.tree@[j].1.value == s0[j].1.value,
                forall|i: int|
                    0 <= i < self.tree@.len() ==> (#[trigger] self.tree@[i].1.share_count) as nat
                        + (if in_hier(tokenize(self.tree@[i].0@), p, k as int) {
                        1nat
                    } else {
                        0nat
                    }) == ext_count(s0, tokenize(self.tree@[i].0@)),
            decreases hlen - k,
        {
            let h = &the_hierarchy[k];
            let ghost q = p.take(k as int + 1);
            proof {
                assert(seq_views(the_hierarchy@)[k as int] == the_hierarchy@[k as int]@);
                assert(hier_of(p)[k as int] == join_toks(p.take(k as int + 1)));
                assert(forall|x: int|
                    0 <= x < q.len() ==> #[trigger] q[x] == p[x]
                        && crate::util::toks::valid_token(p[x]));
                assert(valid_toks(q));
                assert(q.len() == k + 1);
                crate::util::toks::lemma_canon_join(q);
                if in_hier(q, p, k as int) {
                    let l = choose|l: int| 1 <= l <= k && q == #[trigger] p.take(l);
                    assert(p.take(l).len() == l);
                    assert(false);
                }
                // a node stands at every prefix of the registered path
                lemma_payload_map_mem(s0);
                let j = choose|j: int|
                    0 <= j < s0.len() && (#[trigger] s0[j].1.value) is Some && tokenize(s0[j].0@)
                        == p;
                assert(0 <= j < s0.len() && s0[j].1.value is Some && tokenize(s0[j].0@) == p);
                assert(key_present(s0, tokenize(s0[j].0@).take(k as int + 1)));
                assert(tokenize(s0[j].0@).take(k as int + 1) =~= q);
                assert(key_present(s0, q));
            }
            let ghost s_pre = self.tree@;
            match self.find_idx(h.as_str()) {
                Some(i) => {
                    proof {
                        assert(s_pre[i as int].0@ == h@);
                        assert(tokenize(s_pre[i as int].0@) == q);
                        // the removed path itself still holds a share here
                        let j = choose|j: int|
                            0 <= j < s0.len() && (#[trigger] s0[j].1.value) is Some && tokenize(
                                s0[j].0@,
                            ) == p;
                        assert(q.is_prefix_of(p)) by {
                            assert(q =~= p.subrange(0, q.len() as int));
                        }
                        assert(reg_at(s0[j], q) == 1);
                        lemma_ext_count_split(s0, j, q);
                        assert(ext_count(s0, q) >= 1);
                        assert(s_pre[i as int].1.share_count >= 1);
                    }
                    self.cut_count(i);
                    proof {
                        let s2 = self.tree@;
                        assert(forall|x: int|
                            0 <= x < s2.len() ==> (#[trigger] s2[x].0)@ == s_pre[x].0@
                                && s2[x].1.value == s_pre[x].1.value);
                        assert(forall|x: int|
                            0 <= x < s2.len() ==> canon_str((#[trigger] s_pre[x].0)@));
                        assert forall|x: int| 0 <= x < s2.len() implies canon_str(
                            (#[trigger] s2[x].0)@,
                        ) by {
                            assert(s2[x].0@ == s_pre[x].0@);
                        }
                        assert forall|x: int, y: int|
                            0 <= x < y < s_pre.len() implies s_pre[x].0@ != s_pre[y].0@ by {
                            assert(s_pre[x].0@ == s0[x].0@);
                            assert(s_pre[y].0@ == s0[y].0@);
                        }
                        lemma_entries_same(s_pre, s2);
                        assert(payload_map(s2) == m0);
                        assert forall|x: int|
                            0 <= x < s2.len() implies (#[trigger] s2[x].1.share_count) as nat + (
                        if in_hier(tokenize(s2[x].0@), p, k + 1) {
                            1nat
                        } else {
                            0nat
                        }) == ext_count(s0, tokenize(s2[x].0@)) by {
                            let tx = tokenize(s2[x].0@);
                            assert(s2[x].0@ == s_pre[x].0@);
                            if x == i as int {
                                assert(tx == q);
                                assert(in_hier(tx, p, k + 1));
                                assert(!in_hier(tx, p, k as int));
                                assert(s2[x].1.share_count == s_pre[x].1.share_count - 1);
                            } else {
                                assert(s2[x].1.share_count == s_pre[x].1.share_count);
                                if tx == q {
                                    assert(s_pre[x].0@ == join_toks(q));
                                    assert(s_pre[i as int].0@ == join_toks(q));
                                    assert(s_pre[x].0@ == s0[x].0@);
                                    assert(s_pre[i as int].0@ == s0[i as int].0@);
                                    assert(false);
                                }
                                if in_hier(tx, p, k + 1) {
                                    let l = choose|l: int|
                                        1 <= l <= k + 1 && tx == #[trigger] p.take(l);
                                    assert(l <= k);
                                    assert(in_hier(tx, p, k as int));
                                }
                                if in_hier(tx, p, k as int) {
                                    let l = choose|l: int| 1 <= l <= k && tx == #[trigger] p.take(l);
                                    assert(in_hier(tx, p, k + 1));
                                }
                            }
                        }
                    }
                },
                None => {
                    proof {
                        let j2 = choose|j2: int|
                            0 <= j2 < s0.len() && tokenize(#[trigger] s0[j2].0@) == q;
                        assert(canon_str(s0[j2].0@));
                        assert(s0[j2].0@ == join_toks(q));
                        assert(s_pre[j2].0@ == s0[j2].0@);
                        assert(false);
                    }
                },
            }
            k += 1;
        }
        // apply phase: delete the nodes left without a share, clear the
        // payload of the full path's node where it stays
        let full = TreePath::prettify(path);
        let ghost s_mid = self.tree@;
        proof {
            assert(full@ == join_toks(p));
        }
        let mut kept: Vec<(String, Node<T>)> = Vec::new();
        proof {
            assert(apply_drops(s_mid, full@) =~= apply_drops(self.tree@, full@) + kept@);
        }
        while self.tree.len() != 0
            invariant
                apply_drops(s_mid, full@) =~= apply_drops(self.tree@, full@) + kept@,
            decreases self.tree@.len(),
        {
            let e = match self.tree.pop() {
                Some(e) => e,
                None => {
                    proof {
                        assert(false);
                    }
                    return ;
                },
            };
            let ghost s_at = self.tree@;
            proof {
                assert(s_at =~= (s_at.push(e)).drop_last());
                assert((s_at.push(e)).last() == e);
            }
            if e.1.share_count > 0 {
                let is_full = str_eq(e.0.as_str(), full.as_str());
                let nv = if is_full {
                    None
                } else {
                    e.1.value
                };
                let ghost e2 = (e.0, Node { share_count: e.1.share_count, value: nv });
                kept.insert(
                    0,
                    (e.0, Node { share_count: e.1.share_count, value: nv }),
                );
                proof {
                    assert(apply_drops(s_at.push(e), full@) =~= apply_drops(s_at, full@).push(
                        e2,
                    ));
                    assert(apply_drops(s_at, full@).push(e2) + kept@.skip(1) =~= apply_drops(
                        s_at,
                        full@,
                    ) + kept@);
                }
            } else {
                proof {
                    assert(apply_drops(s_at.push(e), full@) =~= apply_drops(s_at, full@));
                }
            }
        }
        proof {
            assert(apply_drops(self.tree@, full@) =~= Seq::<(String, Node<T>)>::empty());
            assert(kept@ =~= apply_drops(s_mid, full@));
        }
        self.tree = kept;
        proof {
            assert(self.tree@ == apply_drops(s_mid, full@));
            assert forall|i: int|
                0 <= i < s_mid.len() implies (#[trigger] s_mid[i].1.share_count) as nat + (
            if tokenize(s_mid[i].0@).is_prefix_of(p) {
                1nat
            } else {
                0nat
            }) == ext_count(s0, tokenize(s_mid[i].0@)) by {
                let tx = tokenize(s_mid[i].0@);
                assert(s_mid[i].0@ == s0[i].0@);
                assert(canon_str(s0[i].0@));
                assert(tx.len() > 0);
                if in_hier(tx, p, hlen as int) {
                    let l = choose|l: int| 1 <= l <= hlen && tx == #[trigger] p.take(l);
                    assert(tx =~= p.subrange(0, tx.len() as int));
                    assert(tx.is_prefix_of(p));
                }
                if tx.is_prefix_of(p) {
                    assert(tx =~= p.take(tx.len() as int));
                    assert(1 <= tx.len() <= hlen);
                    assert(in_hier(tx, p, hlen as int));
                }
            }
            lemma_drop_final(s0, s_mid, p, full@, m0);
        }
    }

    /// Unregisters `path`. Fails with `DropNodeDoesNotExist` when no node
    /// stands at the path, with `DropNodeIsNull` when the node is a bare
    /// prefix without a payload; otherwise the path's registration is gone,
    /// and every other registered path stays untouched.
    pub fn drop_by_path(&mut self, path: &str) -> (r: Result<PathTreeOk, PathTreeErr>)
        requires
            old(self).wf(),
        ensures
            final(self).wf(),
            match r {
                Ok(PathTreeOk::DropOk) => old(self)@.contains_key(tokenize(path@))
                    && final(self)@ == old(self)@.remove(tokenize(path@)),
                Err(PathTreeErr::DropNodeDoesNotExist) => !spec_path_exists(
                    old(self)@,
                    tokenize(path@),
                ) && final(self)@ == old(self)@,
                Err(PathTreeErr::DropNodeIsNull) => spec_path_exists(old(self)@, tokenize(path@))
                    && !old(self)@.contains_key(tokenize(path@)) && final(self)@ == old(self)@,
            },
    {
        if !self.does_path_exist(path) {
            proof {
                if self@.contains_key(tokenize(path@)) {
                    lemma_payload_map_mem(self.tree@);
                    let j = choose|j: int|
                        0 <= j < self.tree@.len() && (#[trigger] self.tree@[j].1.value) is Some
                            && tokenize(self.tree@[j].0@) == tokenize(path@);
                    assert(canon_str(self.tree@[j].0@));
                    assert(tokenize(path@).is_prefix_of(tokenize(self.tree@[j].0@)));
                    assert(spec_path_exists(self@, tokenize(path@)));
                    assert(false);
                }
            }
            return Err(PathTreeErr::DropNodeDoesNotExist);
        }
        if !self.does_node_contain_value(path) {
            return Err(PathTreeErr::DropNodeIsNull);
        }
        self.drop_hierarchy(path);
        Ok(PathTreeOk::DropOk)
    }

    /// The node at the canonical form of `path`: its share count is the
    /// number of registered paths through it, its payload the registered
    /// value at `path` itself, if any.
    pub fn get_by_path(&self, path: &str) -> (r: Option<&Node<T>>)
        requires
            self.wf(),
        ensures
            match r {
                Some(node) => {
                    &&& spec_path_exists(self@, tokenize(path@))
                    &&& node.share_count as nat == spec_share_count(self@, tokenize(path@))
                    &&& node.value == (if self@.contains_key(tokenize(path@)) {
                        Some(self@[tokenize(path@)])
                    } else {
                        None::<T>
                    })
                },
                None => !spec_path_exists(self@, tokenize(path@)),
            },
    {
        let p = TreePath::prettify(path);
        let found = self.find_idx(p.as_str());
        proof {
            let q = tokenize(path@);
            crate::util::toks::lemma_tokenize_valid(path@);
            lemma_key_iff_exists(self.tree@, q);
            lemma_payload_map_mem(self.tree@);
            if q.len() == 0 {
                if found is Some {
                    let i = choose|i: int|
                        0 <= i < self.tree@.len() && #[trigger] self.tree@[i].0@ == p@;
                    assert(canon_str(self.tree@[i as int].0@));
                    assert(tokenize(p@).len() == 0);
                    assert(false);
                }
            } else {
                lemma_string_key(self.tree@, q);
            }
        }
        match found {
            None => {
                proof {
                    let q = tokenize(path@);
                    if key_present(self.tree@, q) {
                        let i = choose|i: int|
                            0 <= i < self.tree@.len() && tokenize(#[trigger] self.tree@[i].0@)
                                == q;
                        assert(self.tree@[i].0@ == join_toks(q));
                        assert(false);
                    }
                }
                None
            },
            Some(i) => {
                let node = &self.tree[i].1;
                proof {
                    let q = tokenize(path@);
                    let e = self.tree@[i as int];
                    assert(canon_str(e.0@));
                    assert(tokenize(e.0@) == q);
                    assert(key_present(self.tree@, q));
                    lemma_ext_count_card(self.tree@, q);
                    assert(node.share_count as nat == ext_count(self.tree@, q));
                    match e.1.value {
                        Some(_) => {
                            assert(self@.contains_key(q));
                            assert(e.1.value == Some(self@[q]));
                        },
                        None => {
                            if self@.contains_key(q) {
                                let j = choose|j: int|
                                    0 <= j < self.tree@.len() && (#[trigger] self.tree@[j].1.value)
                                        is Some && tokenize(self.tree@[j].0@) == q;
                                assert(self.tree@[j].0@ == join_toks(q));
                                assert(j != i as int);
                                assert(false);
                            }
                        },
                    }
                }
                Some(node)
            },
        }
    }
}

/// Whether some string of `out` reads `k`.
pub open spec fn key_listed(out: Seq<String>, k: Seq<char>) -> bool {
    exists|x: int| 0 <= x < out.len() && (#[trigger] out[x])@ == k
}

/// Whether entry `i` of `s` is registered and keyed by the string `str`.
pub open spec fn is_reg_key<T>(s: Seq<(String, Node<T>)>, i: int, str: Seq<char>) -> bool {
    0 <= i < s.len() && s[i].1.value is Some && s[i].0@ == str
}

/// Whether string `x` of `out` is the key of a registered entry before `i`.
pub open spec fn listed_reg_key<T>(
    s: Seq<(String, Node<T>)>,
    out: Seq<String>,
    i: int,
    x: int,
) -> bool {
    exists|j: int| j < i && is_reg_key(s, j, out[x]@)
}

/// Whether pair `x` of `out` is the key and payload of a registered entry
/// before `i`.
pub open spec fn listed_reg_entry<T>(
    s: Seq<(String, Node<T>)>,
    out: Seq<(String, T)>,
    i: int,
    x: int,
) -> bool {
    exists|j: int| j < i && is_reg_key(s, j, out[x].0@) && s[j].1.value == Some(out[x].1)
}

impl<T> PathTree<T> {
    /// The canonical strings of all registered paths, each exactly once.
    #[verifier::rlimit(60)]
    pub fn registered_paths(&self) -> (r: Vec<String>)
        requires
            self.wf(),
        ensures
            forall|x: int|
                0 <= x < r@.len() ==> self@.contains_key(tokenize((#[trigger] r@[x])@))
                    && canon_str(r@[x]@),
            forall|k: Seq<Seq<char>>|
                #[trigger] self@.contains_key(k) ==> key_listed(r@, join_toks(k)),
            forall|x: int, y: int| 0 <= x < y < r@.len() ==> r@[x]@ != r@[y]@,
    {
        let ghost s = self.tree@;
        let mut out: Vec<String> = Vec::new();
        let n = self.tree.len();
        let mut i: usize = 0;
        while i < n
            invariant
                s == self.tree@,
                self.wf(),
                n == s.len(),
                i <= n,
                forall|x: int|
                    0 <= x < out@.len() ==> #[trigger] listed_reg_key(s, out@, i as int, x),
                forall|j: int|
                    0 <= j < i && (#[trigger] s[j].1.value) is Some ==> key_listed(
                        out@,
                        s[j].0@,
                    ),
                forall|x: int, y: int| 0 <= x < y < out@.len() ==> out@[x]@ != out@[y]@,
            decreases n - i,
        {
            let ghost pre = out@;
            if self.tree[i].1.value.is_some() {
                out.push(self.tree[i].0.clone());
                proof {
                    assert(out@[out@.len() - 1]@ == s[i as int].0@);
                    assert(is_reg_key(s, i as int, out@[out@.len() - 1]@));
                    assert forall|x: int| 0 <= x < out@.len() implies #[trigger] listed_reg_key(
                        s,
                        out@,
                        i + 1,
                        x,
                    ) by {
                        if x < pre.len() {
                            assert(out@[x] == pre[x]);
                            assert(listed_reg_key(s, pre, i as int, x));
                            let j = choose|j: int| j < i && is_reg_key(s, j, pre[x]@);
                            assert(j < i + 1 && is_reg_key(s, j, out@[x]@));
                        } else {
                            assert(is_reg_key(s, i as int, out@[x]@));
                        }
                    }
                    assert forall|j: int| 0 <= j < i + 1 && (#[trigger] s[j].1.value) is Some
                        implies key_listed(out@, s[j].0@) by {
                        if j < i {
                            assert(key_listed(pre, s[j].0@));
                            let x = choose|x: int| 0 <= x < pre.len() && (#[trigger] pre[x])@
                                == s[j].0@;
                            assert(out@[x]@ == s[j].0@);
                        } else {
                            assert(out@[out@.len() - 1]@ == s[j].0@);
                        }
                    }
                    assert forall|x: int, y: int| 0 <= x < y < out@.len() implies out@[x]@
                        != out@[y]@ by {
                        if y < pre.len() {
                            assert(out@[x] == pre[x] && out@[y] == pre[y]);
                        } else {
                            assert(out@[y]@ == s[i as int].0@);
                            assert(out@[x] == pre[x]);
                            assert(listed_reg_key(s, pre, i as int, x));
                            let j = choose|j: int| j < i && is_reg_key(s, j, pre[x]@);
                            assert(s[j].0@ != s[i as int].0@);
                        }
                    }
                }
            } else {
                proof {
                    assert forall|j: int| 0 <= j < i + 1 && (#[trigger] s[j].1.value) is Some
                        implies key_listed(out@, s[j].0@) by {
                        if j < i {
                            assert(key_listed(out@, s[j].0@));
                        } else {
                            assert(false);
                        }
                    }
                    assert forall|x: int| 0 <= x < out@.len() implies #[trigger] listed_reg_key(
                        s,
                        out@,
                        i + 1,
                        x,
                    ) by {
                        assert(listed_reg_key(s, out@, i as int, x));
                        let j = choose|j: int| j < i && is_reg_key(s, j, out@[x]@);
                        assert(j < i + 1 && is_reg_key(s, j, out@[x]@));
                    }
                }
            }
            i += 1;
        }
        proof {
            lemma_payload_map_mem(s);
            assert forall|x: int| 0 <= x < out@.len() implies self@.contains_key(
                tokenize((#[trigger] out@[x])@),
            ) && canon_str(out@[x]@) by {
                assert(listed_reg_key(s, out@, n as int, x));
                let j = choose|j: int| j < n && is_reg_key(s, j, out@[x]@);
                assert(canon_str(s[j].0@));
                assert(self@.contains_key(tokenize(s[j].0@)));
            }
            assert forall|k: Seq<Seq<char>>| #[trigger] self@.contains_key(k)
                implies key_listed(out@, join_toks(k)) by {
                let j = choose|j: int|
                    0 <= j < s.len() && (#[trigger] s[j].1.value) is Some && tokenize(s[j].0@)
                        == k;
                assert(canon_str(s[j].0@));
                assert(s[j].0@ == join_toks(k));
                assert(key_listed(out@, s[j].0@));
            }
        }
        out
    }

    /// The canonical strings of every node, registered or bare prefix, each
    /// exactly once.
    pub fn all_paths(&self) -> (r: Vec<String>)
        requires
            self.wf(),
        ensures
            forall|x: int|
                0 <= x < r@.len() ==> spec_path_exists(self@, tokenize((#[trigger] r@[x])@))
                    && canon_str(r@[x]@),
            forall|q: Seq<Seq<char>>|
                valid_toks(q) && #[trigger] spec_path_exists(self@, q) ==> key_listed(
                    r@,
                    join_toks(q),
                ),
            forall|x: int, y: int| 0 <= x < y < r@.len() ==> r@[x]@ != r@[y]@,
    {
        let ghost s = self.tree@;
        let mut out: Vec<String> = Vec::new();
        let n = self.tree.len();
        let mut i: usize = 0;
        while i < n
            invariant
                s == self.tree@,
                self.wf(),
                n == s.len(),
                i <= n,
                out@.len() == i,
                forall|x: int| 0 <= x < i ==> (#[trigger] out@[x])@ == s[x].0@,
            decreases n - i,
        {
            out.push(self.tree[i].0.clone());
            i += 1;
        }
        proof {
            assert forall|x: int| 0 <= x < out@.len() implies spec_path_exists(
                self@,
                tokenize((#[trigger] out@[x])@),
            ) && canon_str(out@[x]@) by {
                assert(out@[x]@ == s[x].0@);
                assert(canon_str(s[x].0@));
                lemma_key_iff_exists(s, tokenize(s[x].0@));
                assert(key_present(s, tokenize(s[x].0@)));
            }
            assert forall|q: Seq<Seq<char>>|
                valid_toks(q) && #[trigger] spec_path_exists(self@, q) implies key_listed(
                out@,
                join_toks(q),
            ) by {
                lemma_key_iff_exists(s, q);
                lemma_string_key(s, q);
                let j = choose|j: int| 0 <= j < s.len() && #[trigger] s[j].0@ == join_toks(q);
                assert(out@[j]@ == join_toks(q));
            }
            assert forall|x: int, y: int| 0 <= x < y < out@.len() implies out@[x]@
                != out@[y]@ by {
                assert(out@[x]@ == s[x].0@);
                assert(out@[y]@ == s[y].0@);
            }
        }
        out
    }
}

impl PathTree<String> {
    /// The registered paths with their payload strings, for hand-off to a
    /// store: canonical path string and value, each path exactly once.
    #[verifier::rlimit(60)]
    pub fn registered_entries(&self) -> (r: Vec<(String, String)>)
        requires
            self.wf(),
        ensures
            forall|x: int|
                0 <= x < r@.len() ==> self@.contains_key(tokenize((#[trigger] r@[x]).0@))
                    && canon_str(r@[x].0@) && r@[x].1@ == self@[tokenize(r@[x].0@)]@,
            forall|k: Seq<Seq<char>>|
                #[trigger] self@.contains_key(k) ==> exists|x: int|
                    0 <= x < r@.len() && (#[trigger] r@[x]).0@ == join_toks(k),
            forall|x: int, y: int| 0 <= x < y < r@.len() ==> r@[x].0@ != r@[y].0@,
    {
        let ghost s = self.tree@;
        let mut out: Vec<(String, String)> = Vec::new();
        let n = self.tree.len();
        let mut i: usize = 0;
        while i < n
            invariant
                s == self.tree@,
                self.wf(),
                n == s.len(),
                i <= n,
                forall|x: int|
                    0 <= x < out@.len() ==> #[trigger] listed_reg_entry(s, out@, i as int, x),
                forall|j: int|
                    0 <= j < i && (#[trigger] s[j].1.value) is Some ==> exists|x: int|
                        0 <= x < out@.len() && (#[trigger] out@[x]).0@ == s[j].0@,
                forall|x: int, y: int| 0 <= x < y < out@.len() ==> out@[x].0@ != out@[y].0@,
            decreases n - i,
        {
            let ghost pre = out@;
            match &self.tree[i].1.value {
                Some(v) => {
                    let key = self.tree[i].0.clone();
                    let val = v.clone();
                    out.push((key, val));
                    proof {
                        assert(out@[out@.len() - 1].0@ == s[i as int].0@);
                        assert(s[i as int].1.value == Some(out@[out@.len() - 1].1));
                        assert forall|x: int|
                            0 <= x < out@.len() implies #[trigger] listed_reg_entry(
                            s,
                            out@,
                            i + 1,
                            x,
                        ) by {
                            if x < pre.len() {
                                assert(out@[x] == pre[x]);
                                assert(listed_reg_entry(s, pre, i as int, x));
                                let j = choose|j: int|
                                    j < i && is_reg_key(s, j, pre[x].0@) && s[j].1.value == Some(
                                        pre[x].1,
                                    );
                                assert(j < i + 1 && is_reg_key(s, j, out@[x].0@) && s[j].1.value
                                    == Some(out@[x].1));
                            } else {
                                assert(is_reg_key(s, i as int, out@[x].0@));
                                assert(s[i as int].1.value == Some(out@[x].1));
                            }
                        }
                        assert forall|j: int| 0 <= j < i + 1 && (#[trigger] s[j].1.value) is Some
                            implies exists|x: int|
                            0 <= x < out@.len() && (#[trigger] out@[x]).0@ == s[j].0@ by {
                            if j < i {
                                let x = choose|x: int|
                                    0 <= x < pre.len() && (#[trigger] pre[x]).0@ == s[j].0@;
                                assert(out@[x].0@ == s[j].0@);
                            } else {
                                assert(out@[out@.len() - 1].0@ == s[j].0@);
                            }
                        }
                        assert forall|x: int, y: int| 0 <= x < y < out@.len() implies out@[x].0@
                            != out@[y].0@ by {
                            if y < pre.len() {
                                assert(out@[x] == pre[x] && out@[y] == pre[y]);
                            } else {
                                assert(out@[y].0@ == s[i as int].0@);
                                assert(out@[x] == pre[x]);
                                assert(listed_reg_entry(s, pre, i as int, x));
                                let j = choose|j: int|
                                    j < i && is_reg_key(s, j, pre[x].0@) && s[j].1.value == Some(
                                        pre[x].1,
                                    );
                                assert(s[j].0@ != s[i as int].0@);
                            }
                        }
                    }
                },
                None => {
                    proof {
                        assert forall|j: int| 0 <= j < i + 1 && (#[trigger] s[j].1.value) is Some
                            implies exists|x: int|
                            0 <= x < out@.len() && (#[trigger] out@[x]).0@ == s[j].0@ by {
                            if j < i {
                            } else {
                                assert(false);
                            }
                        }
                        assert forall|x: int|
                            0 <= x < out@.len() implies #[trigger] listed_reg_entry(
                            s,
                            out@,
                            i + 1,
                            x,
                        ) by {
                            assert(listed_reg_entry(s, out@, i as int, x));
                            let j = choose|j: int|
                                j < i && is_reg_key(s, j, out@[x].0@) && s[j].1.value == Some(
                                    out@[x].1,
                                );
                            assert(j < i + 1 && is_reg_key(s, j, out@[x].0@) && s[j].1.value
                                == Some(out@[x].1));
                        }
                    }
                },
            }
            i += 1;
        }
        proof {
            lemma_payload_map_mem(s);
            assert forall|x: int| 0 <= x < out@.len() implies self@.contains_key(
                tokenize((#[trigger] out@[x]).0@),
            ) && canon_str(out@[x].0@) && out@[x].1@ == self@[tokenize(out@[x].0@)]@ by {
                assert(listed_reg_entry(s, out@, n as int, x));
                let j = choose|j: int|
                    j < n && is_reg_key(s, j, out@[x].0@) && s[j].1.value == Some(out@[x].1);
                assert(canon_str(s[j].0@));
                assert(self@.contains_key(tokenize(s[j].0@)));
                assert(s[j].1.value == Some(self@[tokenize(s[j].0@)]));
            }
            assert forall|k: Seq<Seq<char>>| #[trigger] self@.contains_key(k) implies exists|
                x: int,
            |
                0 <= x < out@.len() && (#[trigger] out@[x]).0@ == join_toks(k) by {
                let j = choose|j: int|
                    0 <= j < s.len() && (#[trigger] s[j].1.value) is Some && tokenize(s[j].0@)
                        == k;
                assert(canon_str(s[j].0@));
                assert(s[j].0@ == join_toks(k));
                let x = choose|x: int|
                    0 <= x < out@.len() && (#[trigger] out@[x]).0@ == s[j].0@;
                assert(out@[x].0@ == join_toks(k));
            }
        }
        out
    }
}

impl<T: Copy> PathTree<T> {
    /// Registers `value` at `path`, and then once more at the path's
    /// bracketed acronym shortcut: serials 1, 2, … are tried until a
    /// shortcut path without a registered value is found.
    pub fn set_by_path_with_shortcut(&mut self, value: T, path: &str)
        requires
            old(self).wf(),
            tokenize(path@).len() > 0,
            old(self)@.dom().len() + 1 < usize::MAX,
        ensures
            final(self).wf(),
            final(self)@ == old(self)@.insert(tokenize(path@), value).insert(
                shortcut_toks(
                    tokenize(path@),
                    first_free_serial(old(self)@.insert(tokenize(path@), value), tokenize(path@)),
                ),
                value,
            ),
    {
        let ghost m0 = self@;
        let ghost ts = tokenize(path@);
        proof {
            crate::util::toks::lemma_tokenize_valid(path@);
            lemma_payload_map_mem(self.tree@);
        }
        self.set_by_path(value, path);
        let ghost mid = self@;
        proof {
            self.lemma_wf_finite();
            assert(mid == m0.insert(ts, value));
            assert(mid.dom() =~= m0.dom().insert(ts));
            assert(mid.dom().len() <= m0.dom().len() + 1);
            lemma_first_free_serial(mid, ts);
        }
        let ghost target = first_free_serial(mid, ts);
        let mut serial: usize = 1;
        let mut sc = TreePath::create_shortcut(path, serial);
        proof {
            crate::util::treepath::lemma_shortcut_toks_valid(ts, serial as nat);
            crate::util::toks::lemma_canon_join(shortcut_toks(ts, serial as nat));
            assert(tokenize(sc@) == shortcut_toks(ts, serial as nat));
        }
        while self.does_node_contain_value(sc.as_str())
            invariant
                self.wf(),
                self@ == mid,
                ts == tokenize(path@),
                valid_toks(ts),
                ts.len() > 0,
                target == first_free_serial(mid, ts),
                1 <= serial,
                serial as nat <= target,
                target <= mid.dom().len() + 1,
                mid.dom().len() < usize::MAX,
                mid.dom().finite(),
                sc@ == join_toks(shortcut_toks(ts, serial as nat)),
                tokenize(sc@) == shortcut_toks(ts, serial as nat),
                !mid.contains_key(shortcut_toks(ts, target)),
                forall|j: nat|
                    1 <= j < target ==> mid.contains_key(#[trigger] shortcut_toks(ts, j)),
            decreases target - serial,
        {
            proof {
                assert(mid.contains_key(shortcut_toks(ts, serial as nat)));
                assert(serial as nat != target);
                assert((serial as nat) < target);
            }
            serial += 1;
            sc = TreePath::create_shortcut(path, serial);
            proof {
                crate::util::treepath::lemma_shortcut_toks_valid(ts, serial as nat);
                crate::util::toks::lemma_canon_join(shortcut_toks(ts, serial as nat));
            }
        }
        proof {
            assert(!mid.contains_key(shortcut_toks(ts, serial as nat)));
            if (serial as nat) < target {
                assert(mid.contains_key(shortcut_toks(ts, serial as nat)));
                assert(false);
            }
            assert(serial as nat == target);
            assert(tokenize(sc@).len() > 0) by {
                crate::util::treepath::lemma_shortcut_toks_valid(ts, serial as nat);
            }
        }
        self.set_by_path(value, sc.as_str());
        proof {
            assert(self@ == mid.insert(shortcut_toks(ts, target), value));
        }
    }
}

/// After `set_by_path(v, path)`, the path holds a value — exactly `v` — and
/// a node stands at it and at every non-empty prefix of it.
pub proof fn lemma_set_registers<T>(m: Map<Seq<Seq<char>>, T>, v: T, p: Seq<Seq<char>>)
    ensures
        m.insert(p, v).contains_key(p),
        m.insert(p, v)[p] == v,
        forall|q: Seq<Seq<char>>|
            q.len() > 0 && #[trigger] q.is_prefix_of(p) ==> spec_path_exists(m.insert(p, v), q),
{
    assert(m.insert(p, v).dom().contains(p));
    assert forall|q: Seq<Seq<char>>|
        q.len() > 0 && #[trigger] q.is_prefix_of(p) implies spec_path_exists(
        m.insert(p, v),
        q,
    ) by {
        assert(m.insert(p, v).dom().contains(p) && q.is_prefix_of(p));
    }
}

/// Removing one registered path never disturbs another: every other
/// registered path keeps its value, and every non-empty prefix of it still
/// has a node.
pub proof fn lemma_removal_keeps_others<T>(
    m: Map<Seq<Seq<char>>, T>,
    p: Seq<Seq<char>>,
    r2: Seq<Seq<char>>,
    q: Seq<Seq<char>>,
)
    requires
        m.contains_key(r2),
        r2 != p,
        q.len() > 0,
        q.is_prefix_of(r2),
    ensures
        m.remove(p).contains_key(r2),
        m.remove(p)[r2] == m[r2],
        spec_path_exists(m.remove(p), q),
{
    assert(m.remove(p).dom().contains(r2) && q.is_prefix_of(r2));
}

/// Registering twice at one path leaves every share count exactly where a
/// single registration would, while the payload becomes the later value.
pub proof fn lemma_set_idempotent<T>(
    m: Map<Seq<Seq<char>>, T>,
    v1: T,
    v2: T,
    p: Seq<Seq<char>>,
    q: Seq<Seq<char>>,
)
    ensures
        spec_share_count(m.insert(p, v1).insert(p, v2), q) == spec_share_count(m.insert(p, v2), q),
        m.insert(p, v1).insert(p, v2)[p] == v2,
{
    assert(m.insert(p, v1).insert(p, v2).dom() =~= m.insert(p, v2).dom());
    assert(reg_exts(m.insert(p, v1).insert(p, v2), q) =~= reg_exts(m.insert(p, v2), q));
}

/// Removing a registered path that shares no non-empty prefix with any
/// other registered path leaves no node of its hierarchy behind: neither a
/// value nor a bare prefix remains.
pub proof fn lemma_isolated_removal<T>(
    m: Map<Seq<Seq<char>>, T>,
    p: Seq<Seq<char>>,
    q: Seq<Seq<char>>,
)
    requires
        m.contains_key(p),
        forall|r: Seq<Seq<char>>, q2: Seq<Seq<char>>|
            #![trigger m.dom().contains(r), q2.is_prefix_of(p)]
            m.dom().contains(r) && r != p && q2.len() > 0 && q2.is_prefix_of(p)
                ==> !q2.is_prefix_of(r),
        q.is_prefix_of(p),
    ensures
        !spec_path_exists(m.remove(p), q),
        !m.remove(p).contains_key(p),
{
    if spec_path_exists(m.remove(p), q) {
        let r = choose|r: Seq<Seq<char>>|
            #[trigger] m.remove(p).dom().contains(r) && q.is_prefix_of(r);
        assert(m.dom().contains(r) && r != p);
        assert(q.len() > 0 && q.is_prefix_of(p));
        assert(!q.is_prefix_of(r));
        assert(false);
    }
}

} // verus!
