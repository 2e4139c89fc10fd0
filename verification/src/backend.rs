//! The shared in-memory store: a verified sequential store of key → frame
//! and key → (field → frame) mappings, shared across connections behind a
//! verified reader/writer lock.
use vstd::prelude::*;
use vstd::rwlock::RwLock;
use vstd::rwlock::RwLockPredicate;
use vstd::string::StrSliceExecFns;

use std::sync::Arc;

use crate::resp::clone_frame;
use crate::resp::entries_lookup;
use crate::resp::entries_model;
use crate::resp::entries_sorted;
use crate::resp::frame_model;
use crate::resp::lemma_insert_found;
use crate::resp::lemma_insert_other;
use crate::resp::lemma_insert_sorted;
use crate::resp::FrameModel;
use crate::resp::RespFrame;
use crate::resp::RespMap;
use crate::resp::SimpleString;

verus! {

/// The value stored under field `f` of the hash at key `k`.
pub open spec fn hash_lookup(
    hes: Seq<(Seq<u8>, FrameModel)>,
    k: Seq<u8>,
    f: Seq<u8>,
) -> Option<FrameModel> {
    match entries_lookup(hes, k) {
        Some(FrameModel::Dict(es)) => entries_lookup(es, f),
        _ => None,
    }
}

/// The entries of the hash at key `k`, empty when the key is absent.
pub open spec fn hash_entries(hes: Seq<(Seq<u8>, FrameModel)>, k: Seq<u8>) -> Seq<
    (Seq<u8>, FrameModel),
> {
    match entries_lookup(hes, k) {
        Some(FrameModel::Dict(es)) => es,
        _ => Seq::empty(),
    }
}

/// The two mappings of the store. The hash mapping keeps each inner
/// mapping as a map frame, so one sorted-entry representation serves both
/// levels.
pub struct BackendInner {
    pub map: RespMap,
    pub hmap: RespMap,
}

impl BackendInner {
    /// Both levels sorted ascending by key, and every hash value a map.
    pub open spec fn wf(self) -> bool {
        &&& entries_sorted(self.map@)
        &&& entries_sorted(self.hmap@)
        &&& forall|i: int|
            0 <= i < self.hmap@.len() ==> (#[trigger] self.hmap@[i]).1 is Dict
        &&& forall|i: int|
            0 <= i < self.hmap@.len() ==> entries_sorted((#[trigger] self.hmap@[i]).1->Dict_0)
    }

    pub fn new() -> (r: BackendInner)
        ensures
            r.wf(),
            r.map@ == Seq::<(Seq<u8>, FrameModel)>::empty(),
            r.hmap@ == Seq::<(Seq<u8>, FrameModel)>::empty(),
    {
        BackendInner { map: RespMap::new(), hmap: RespMap::new() }
    }

    /// A snapshot of the value under `key`, if present.
    pub fn get(&self, key: &[u8]) -> (r: Option<RespFrame>)
        ensures
            match r {
                Some(f) => entries_lookup(self.map@, key@) == Some(frame_model(f)),
                None => entries_lookup(self.map@, key@) is None,
            },
    {
        match self.map.get(key) {
            Some(f) => Some(clone_frame(f)),
            None => None,
        }
    }

    /// Installs `value` under `key`, replacing any prior value.
    pub fn set(&mut self, key: SimpleString, value: RespFrame)
        requires
            old(self).wf(),
        ensures
            final(self).wf(),
            final(self).map@ == crate::resp::map_insert(
                old(self).map@,
                key@,
                frame_model(value),
            ),
            final(self).hmap@ == old(self).hmap@,
    {
        proof {
            lemma_insert_sorted(self.map@, key@, frame_model(value));
        }
        self.map.insert(key, value);
    }

    /// A snapshot of the value under `field` of the hash at `key`.
    pub fn hget(&self, key: &[u8], field: &[u8]) -> (r: Option<RespFrame>)
        ensures
            match r {
                Some(f) => hash_lookup(self.hmap@, key@, field@) == Some(frame_model(f)),
                None => hash_lookup(self.hmap@, key@, field@) is None,
            },
    {
        match self.hmap.get(key) {
            Some(RespFrame::Dict(m)) => match m.get(field) {
                Some(f) => Some(clone_frame(f)),
                None => None,
            },
            Some(_) => None,
            None => None,
        }
    }

    /// Installs `value` under `field` of the hash at `key`, creating the
    /// hash on first use.
    pub fn hset(&mut self, key: SimpleString, field: SimpleString, value: RespFrame)
        requires
            old(self).wf(),
        ensures
            final(self).wf(),
            final(self).map@ == old(self).map@,
            final(self).hmap@ == crate::resp::map_insert(
                old(self).hmap@,
                key@,
                FrameModel::Dict(
                    crate::resp::map_insert(
                        hash_entries(old(self).hmap@, key@),
                        field@,
                        frame_model(value),
                    ),
                ),
            ),
    {
        let ghost hes = self.hmap@;
        let ghost kb = key.0@;
        let mut inner: RespMap = match self.hmap.get(key.0.as_slice()) {
            Some(RespFrame::Dict(m)) => {
                let c = clone_frame_map(m);
                c
            },
            Some(_) => RespMap::new(),
            None => RespMap::new(),
        };
        proof {
            assert(inner@ == hash_entries(hes, kb));
            assert(entries_sorted(inner@)) by {
                match entries_lookup(hes, kb) {
                    Some(fm) => {
                        if fm is Dict {
                            lemma_lookup_in_entries(hes, kb);
                        }
                    },
                    None => {},
                }
            }
            lemma_insert_sorted(inner@, field.0@, frame_model(value));
            lemma_insert_sorted(hes, kb, FrameModel::Dict(crate::resp::map_insert(inner@, field.0@, frame_model(value))));
        }
        inner.insert(field, value);
        let ghost newdict = FrameModel::Dict(inner@);
        self.hmap.insert(key, RespFrame::Dict(inner));
        proof {
            let hm = self.hmap@;
            assert forall|i: int| 0 <= i < hm.len() implies (#[trigger] hm[i]).1 is Dict
                && entries_sorted(hm[i].1->Dict_0) by {
                lemma_insert_positions(hes, kb, newdict, i);
            }
        }
    }

    /// A snapshot of all field/value pairs of the hash at `key`, sorted
    /// ascending by field.
    pub fn hgetall(&self, key: &[u8]) -> (r: Vec<(SimpleString, RespFrame)>)
        requires
            self.wf(),
        ensures
            entries_model(r@) == hash_entries(self.hmap@, key@),
            entries_sorted(entries_model(r@)),
    {
        match self.hmap.get(key) {
            Some(RespFrame::Dict(m)) => {
                proof {
                    lemma_lookup_in_entries(self.hmap@, key@);
                }
                let c = clone_frame_map(m);
                c.0
            },
            Some(_) => {
                proof {
                    lemma_lookup_in_entries(self.hmap@, key@);
                }
                Vec::new()
            },
            None => {
                proof {
                    assert(entries_model(Seq::<(SimpleString, RespFrame)>::empty())
                        =~= Seq::<(Seq<u8>, FrameModel)>::empty());
                }
                Vec::new()
            },
        }
    }
}

/// A deep copy of a map value, with the same entries.
pub fn clone_frame_map(m: &RespMap) -> (r: RespMap)
    ensures
        r@ == m@,
{
    RespMap(clone_pairs_via(m))
}

/// Clones the underlying entry vector of a map.
fn clone_pairs_via(m: &RespMap) -> (r: Vec<(SimpleString, RespFrame)>)
    ensures
        entries_model(r@) == m@,
{
    let mut out: Vec<(SimpleString, RespFrame)> = Vec::new();
    let n = m.0.len();
    let mut i: usize = 0;
    proof {
        crate::resp::lemma_entries_model(m.0@);
        assert(entries_model(out@) =~= entries_model(m.0@).take(0));
    }
    while i < n
        invariant
            n == m.0@.len(),
            0 <= i <= n,
            entries_model(m.0@).len() == n,
            forall|j: int|
                0 <= j < n ==> entries_model(m.0@)[j] == ((#[trigger] m.0@[j]).0@, frame_model(
                    m.0@[j].1,
                )),
            entries_model(out@) == entries_model(m.0@).take(i as int),
        decreases n - i,
    {
        let pair = &m.0[i];
        let k = pair.0.clone();
        let v = pair.1.clone();
        let ghost pre = out@;
        out.push((k, v));
        proof {
            crate::resp::lemma_entries_model_push(pre, (k, v));
            assert(entries_model(m.0@).take(i + 1) =~= entries_model(m.0@).take(i as int).push(
                entries_model(m.0@)[i as int],
            ));
        }
        i = i + 1;
    }
    proof {
        assert(entries_model(m.0@).take(n as int) =~= entries_model(m.0@));
    }
    out
}

/// A value found by lookup is one of the entries.
pub proof fn lemma_lookup_in_entries(es: Seq<(Seq<u8>, FrameModel)>, k: Seq<u8>)
    ensures
        entries_lookup(es, k) matches Some(v) ==> exists|i: int|
            0 <= i < es.len() && (#[trigger] es[i]).0 == k && es[i].1 == v,
    decreases es.len(),
{
    if es.len() > 0 && es[0].0 != k {
        lemma_lookup_in_entries(es.drop_first(), k);
        match entries_lookup(es, k) {
            Some(v) => {
                let i = choose|i: int|
                    0 <= i < es.drop_first().len() && (#[trigger] es.drop_first()[i]).0 == k
                        && es.drop_first()[i].1 == v;
                assert(es[i + 1] == es.drop_first()[i]);
            },
            None => {},
        }
    }
}

/// After an insertion every entry is either the inserted pair or one of
/// the old entries.
pub proof fn lemma_insert_positions(
    es: Seq<(Seq<u8>, FrameModel)>,
    k: Seq<u8>,
    v: FrameModel,
    i: int,
)
    requires
        0 <= i < crate::resp::map_insert(es, k, v).len(),
    ensures
        crate::resp::map_insert(es, k, v)[i] == (k, v) || exists|j: int|
            0 <= j < es.len() && (#[trigger] es[j]) == crate::resp::map_insert(es, k, v)[i],
    decreases es.len(),
{
    let r = crate::resp::map_insert(es, k, v);
    if es.len() == 0 {
    } else if crate::resp::lex_lt(k, es[0].0) {
        if i >= 1 {
            assert(r[i] == es[i - 1]);
        }
    } else if k == es[0].0 {
        if i >= 1 {
            assert(r[i] == es.drop_first()[i - 1]);
            assert(es[i] == es.drop_first()[i - 1]);
        }
    } else {
        if i == 0 {
            assert(r[0] == es[0]);
        } else {
            assert(r[i] == crate::resp::map_insert(es.drop_first(), k, v)[i - 1]);
            lemma_insert_positions(es.drop_first(), k, v, i - 1);
            if crate::resp::map_insert(es.drop_first(), k, v)[i - 1] != (k, v) {
                let j = choose|j: int|
                    0 <= j < es.drop_first().len() && (#[trigger] es.drop_first()[j])
                        == crate::resp::map_insert(es.drop_first(), k, v)[i - 1];
                assert(es[j + 1] == es.drop_first()[j]);
            }
        }
    }
}

/// Under the store invariant every hash snapshot is sorted ascending by
/// field.
pub proof fn lemma_hash_entries_sorted(inner: BackendInner, k: Seq<u8>)
    requires
        inner.wf(),
    ensures
        entries_sorted(hash_entries(inner.hmap@, k)),
{
    match entries_lookup(inner.hmap@, k) {
        Some(fm) => {
            if fm is Dict {
                lemma_lookup_in_entries(inner.hmap@, k);
            }
        },
        None => {},
    }
}

/// Law: setting a key then reading it yields the value just set. For any
/// store contents, any key and any value, the lookup after the insertion
/// `set` performs returns exactly that value; any other key reads as
/// before.
pub proof fn lemma_set_then_get(
    kv: Seq<(Seq<u8>, FrameModel)>,
    k: Seq<u8>,
    v: FrameModel,
    other: Seq<u8>,
)
    ensures
        entries_lookup(crate::resp::map_insert(kv, k, v), k) == Some(v),
        other != k ==> entries_lookup(crate::resp::map_insert(kv, k, v), other) == entries_lookup(
            kv,
            other,
        ),
{
    lemma_insert_found(kv, k, v);
    if other != k {
        lemma_insert_other(kv, k, v, other);
    }
}

/// Law: setting a hash field then reading it yields the value just set.
/// For any hash contents, after the update `hset` performs on key `k` and
/// field `f`, `hget(k, f)` finds exactly that value, and every other
/// key/field pair reads as before.
pub proof fn lemma_hset_then_hget(
    hes: Seq<(Seq<u8>, FrameModel)>,
    k: Seq<u8>,
    f: Seq<u8>,
    v: FrameModel,
    k2: Seq<u8>,
    f2: Seq<u8>,
)
    ensures
        ({
            let after = crate::resp::map_insert(
                hes,
                k,
                FrameModel::Dict(crate::resp::map_insert(hash_entries(hes, k), f, v)),
            );
            &&& hash_lookup(after, k, f) == Some(v)
            &&& (k2 != k ==> hash_lookup(after, k2, f2) == hash_lookup(hes, k2, f2))
            &&& (f2 != f ==> hash_lookup(after, k, f2) == hash_lookup(hes, k, f2))
        }),
{
    let inner = crate::resp::map_insert(hash_entries(hes, k), f, v);
    lemma_insert_found(hes, k, FrameModel::Dict(inner));
    lemma_insert_found(hash_entries(hes, k), f, v);
    if k2 != k {
        lemma_insert_other(hes, k, FrameModel::Dict(inner), k2);
    }
    if f2 != f {
        lemma_insert_other(hash_entries(hes, k), f, v, f2);
    }
}

/// Law: the hash snapshot is exact and ordered. After the update `hset`
/// performs, the entries of the hash at `k` are exactly the old entries
/// with `f` now mapped to `v` — the last write to a field wins — and if
/// they were sorted ascending by field they stay so.
pub proof fn lemma_hgetall_exact(
    hes: Seq<(Seq<u8>, FrameModel)>,
    k: Seq<u8>,
    f: Seq<u8>,
    v: FrameModel,
)
    ensures
        ({
            let inner = crate::resp::map_insert(hash_entries(hes, k), f, v);
            let after = crate::resp::map_insert(hes, k, FrameModel::Dict(inner));
            &&& hash_entries(after, k) == inner
            &&& entries_lookup(inner, f) == Some(v)
            &&& forall|f2: Seq<u8>|
                f2 != f ==> #[trigger] entries_lookup(inner, f2) == entries_lookup(
                    hash_entries(hes, k),
                    f2,
                )
            &&& entries_sorted(hash_entries(hes, k)) ==> entries_sorted(inner)
        }),
{
    let inner = crate::resp::map_insert(hash_entries(hes, k), f, v);
    lemma_insert_found(hes, k, FrameModel::Dict(inner));
    lemma_insert_found(hash_entries(hes, k), f, v);
    assert forall|f2: Seq<u8>| f2 != f implies #[trigger] entries_lookup(inner, f2)
        == entries_lookup(hash_entries(hes, k), f2) by {
        lemma_insert_other(hash_entries(hes, k), f, v, f2);
    }
    if entries_sorted(hash_entries(hes, k)) {
        lemma_insert_sorted(hash_entries(hes, k), f, v);
    }
}

/// The invariant each connection task relies on: the shared store is
/// well-formed.
pub struct BackendPred;

impl RwLockPredicate<BackendInner> for BackendPred {
    open spec fn inv(self, v: BackendInner) -> bool {
        v.wf()
    }
}

/// The process-wide backend: the store behind a reader/writer lock,
/// shared by reference among all connection tasks.
#[derive(Clone)]
pub struct Backend(pub Arc<RwLock<BackendInner, BackendPred>>);

impl Default for Backend {
    fn default() -> (r: Backend) {
        Backend::new()
    }
}

impl Backend {
    pub fn new() -> (r: Backend) {
        Backend(Arc::new(RwLock::new(BackendInner::new(), Ghost(BackendPred))))
    }

    /// A snapshot of the current value for `key`, if present.
    pub fn get(&self, key: &str) -> (r: Option<RespFrame>) {
        let handle = self.0.acquire_read();
        let r = handle.borrow().get(key.as_bytes());
        handle.release_read();
        r
    }

    /// Installs `value` under `key`, replacing any prior value.
    pub fn set(&self, key: String, value: RespFrame) {
        let (mut inner, wh) = self.0.acquire_write();
        inner.set(SimpleString(key.as_str().as_bytes_vec()), value);
        wh.release_write(inner);
    }

    /// A snapshot of the value under `field` of the hash at `key`.
    pub fn hget(&self, key: &str, field: &str) -> (r: Option<RespFrame>) {
        let handle = self.0.acquire_read();
        let r = handle.borrow().hget(key.as_bytes(), field.as_bytes());
        handle.release_read();
        r
    }

    /// Installs `value` under `field` of the hash at `key`.
    pub fn hset(&self, key: String, field: String, value: RespFrame) {
        let (mut inner, wh) = self.0.acquire_write();
        inner.hset(
            SimpleString(key.as_str().as_bytes_vec()),
            SimpleString(field.as_str().as_bytes_vec()),
            value,
        );
        wh.release_write(inner);
    }

    /// A snapshot of the hash at `key`, sorted ascending by field.
    pub fn hgetall(&self, key: &str) -> (r: Vec<(SimpleString, RespFrame)>)
        ensures
            entries_sorted(entries_model(r@)),
    {
        let handle = self.0.acquire_read();
        let r = handle.borrow().hgetall(key.as_bytes());
        handle.release_read();
        r
    }
}

} // verus!
