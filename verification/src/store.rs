//! The message store: an append-only map from message id to payload, kept in
//! insertion order, written to disk as one JSON document and read back whole.
//! The caller does the file I/O; this module produces and consumes the
//! document text, and reloading what was written gives back the same store.

use vstd::prelude::*;

verus! {

use crate::json::{
    Json,
    JVal,
    enc,
    sp_doc,
    jfields_view,
    jfields_wf,
    jobj_get,
    jobj_put,
    jobj_idx_from,
    obj_get,
    obj_put,
    encode_obj,
    from_text,
    json_clone,
    lemma_doc_round_trip,
    lemma_fields_view_wf,
    lemma_jfields_view,
};

/// No two members share a key.
pub open spec fn unique_keys(fs: Seq<(Seq<char>, JVal)>) -> bool {
    forall|a: int, b: int| 0 <= a < b < fs.len() ==> fs[a].0 != fs[b].0
}

/// The map a member list stands for: later members win.
pub open spec fn map_of(fs: Seq<(Seq<char>, JVal)>) -> Map<Seq<char>, JVal>
    decreases fs.len(),
{
    if fs.len() == 0 {
        Map::empty()
    } else {
        map_of(fs.drop_last()).insert(fs.last().0, fs.last().1)
    }
}

proof fn lemma_map_of_entry(fs: Seq<(Seq<char>, JVal)>, k: int)
    requires
        unique_keys(fs),
        0 <= k < fs.len(),
    ensures
        map_of(fs).contains_key(fs[k].0),
        map_of(fs)[fs[k].0] == fs[k].1,
    decreases fs.len(),
{
    if k < fs.len() - 1 {
        assert(unique_keys(fs.drop_last()));
        lemma_map_of_entry(fs.drop_last(), k);
        assert(fs[fs.len() - 1].0 != fs[k].0);
    }
}

proof fn lemma_map_of_absent(fs: Seq<(Seq<char>, JVal)>, key: Seq<char>)
    requires
        forall|k: int| 0 <= k < fs.len() ==> fs[k].0 != key,
    ensures
        !map_of(fs).contains_key(key),
    decreases fs.len(),
{
    if fs.len() > 0 {
        assert(forall|k: int| 0 <= k < fs.drop_last().len() ==> fs.drop_last()[k].0 != key);
        lemma_map_of_absent(fs.drop_last(), key);
    }
}

proof fn lemma_map_of_update(fs: Seq<(Seq<char>, JVal)>, k: int, e: (Seq<char>, JVal))
    requires
        unique_keys(fs),
        0 <= k < fs.len(),
        e.0 == fs[k].0,
    ensures
        map_of(fs.update(k, e)) =~= map_of(fs).insert(e.0, e.1),
    decreases fs.len(),
{
    let t = fs.update(k, e);
    if k == fs.len() - 1 {
        assert(t.drop_last() =~= fs.drop_last());
        assert(t.last() == e);
    } else {
        assert(unique_keys(fs.drop_last()));
        lemma_map_of_update(fs.drop_last(), k, e);
        assert(t.drop_last() =~= fs.drop_last().update(k, e));
        assert(t.last() == fs.last());
        assert(fs.last().0 != e.0);
    }
}

proof fn lemma_map_of_push(fs: Seq<(Seq<char>, JVal)>, e: (Seq<char>, JVal))
    ensures
        map_of(fs.push(e)) =~= map_of(fs).insert(e.0, e.1),
{
    assert(fs.push(e).drop_last() =~= fs);
    assert(fs.push(e).last() == e);
}

/// Binding a key is, at the map level, inserting it; the member list keeps
/// unique keys.
proof fn lemma_map_of_put(fs: Seq<(Seq<char>, JVal)>, key: Seq<char>, val: JVal)
    requires
        unique_keys(fs),
    ensures
        map_of(jobj_put(fs, key, val)) =~= map_of(fs).insert(key, val),
        unique_keys(jobj_put(fs, key, val)),
{
    let idx = jobj_idx_from(fs, 0, key);
    lemma_jobj_idx_pub(fs, 0, key);
    if idx < fs.len() {
        lemma_map_of_update(fs, idx, (key, val));
        assert(unique_keys(fs.update(idx, (key, val))));
    } else {
        lemma_map_of_push(fs, (key, val));
        let t = fs.push((key, val));
        assert forall|a: int, b: int| 0 <= a < b < t.len() implies t[a].0 != t[b].0 by {
            if b == t.len() - 1 {
                assert(t[a] == fs[a]);
            }
        }
    }
}

/// Every index before the first hit misses, and a hit is at its key.
proof fn lemma_jobj_idx_pub(fs: Seq<(Seq<char>, JVal)>, k: int, key: Seq<char>)
    requires
        0 <= k <= fs.len(),
    ensures
        k <= jobj_idx_from(fs, k, key) <= fs.len(),
        jobj_idx_from(fs, k, key) < fs.len() ==> fs[jobj_idx_from(fs, k, key)].0 == key,
        forall|t: int| k <= t < jobj_idx_from(fs, k, key) ==> fs[t].0 != key,
    decreases fs.len() - k,
{
    if k < fs.len() && !(fs[k].0 == key) {
        lemma_jobj_idx_pub(fs, k + 1, key);
    }
}

/// Under unique keys, the first hit is the map's value.
proof fn lemma_jobj_get_is_map(fs: Seq<(Seq<char>, JVal)>, key: Seq<char>)
    requires
        unique_keys(fs),
    ensures
        jobj_get(fs, key) == if map_of(fs).contains_key(key) {
            Some(map_of(fs)[key])
        } else {
            None::<JVal>
        },
{
    let idx = jobj_idx_from(fs, 0, key);
    lemma_jobj_idx_pub(fs, 0, key);
    lemma_jobj_get_at(fs, 0, key);
    if idx < fs.len() {
        lemma_map_of_entry(fs, idx);
    } else {
        lemma_map_of_absent(fs, key);
    }
}

proof fn lemma_jobj_get_at(fs: Seq<(Seq<char>, JVal)>, k: int, key: Seq<char>)
    requires
        0 <= k <= fs.len(),
    ensures
        jobj_idx_from(fs, k, key) < fs.len() ==> crate::json::jobj_get_from(fs, k, key) == Some(
            fs[jobj_idx_from(fs, k, key)].1,
        ),
        jobj_idx_from(fs, k, key) == fs.len() ==> crate::json::jobj_get_from(fs, k, key) is None,
    decreases fs.len() - k,
{
    if k < fs.len() && !(fs[k].0 == key) {
        lemma_jobj_get_at(fs, k + 1, key);
    }
}

/// The in-memory message store.
pub struct MessageStore {
    pub entries: Vec<(String, Json)>,
}

impl MessageStore {
    /// The ordered document view: message ids and payloads, oldest first.
    pub open spec fn doc_view(&self) -> Seq<(Seq<char>, JVal)> {
        jfields_view(self.entries@)
    }

    /// The map view: what each stored id maps to.
    pub open spec fn map_view(&self) -> Map<Seq<char>, JVal> {
        map_of(self.doc_view())
    }

    /// Message ids are never stored twice.
    pub open spec fn wf(&self) -> bool {
        unique_keys(self.doc_view())
    }

    pub fn new() -> (r: MessageStore)
        ensures
            r.wf(),
            r.doc_view() == Seq::<(Seq<char>, JVal)>::empty(),
            r.map_view() == Map::<Seq<char>, JVal>::empty(),
    {
        let r = MessageStore { entries: Vec::new() };
        proof {
            lemma_jfields_view(r.entries@);
            assert(r.doc_view() =~= Seq::<(Seq<char>, JVal)>::empty());
        }
        r
    }

    /// Stores `payload` under `id`. A payload already stored under the same
    /// id — which fresh ids never hit — is replaced.
    pub fn insert(&mut self, id: String, payload: Json)
        requires
            old(self).wf(),
        ensures
            final(self).wf(),
            final(self).map_view() == old(self).map_view().insert(id@, crate::json::jview(payload)),
            final(self).doc_view() == jobj_put(
                old(self).doc_view(),
                id@,
                crate::json::jview(payload),
            ),
    {
        proof {
            lemma_map_of_put(old(self).doc_view(), id@, crate::json::jview(payload));
        }
        obj_put(&mut self.entries, id, payload);
    }

    /// The payload stored under `id`, if any.
    pub fn get(&self, id: &str) -> (r: Option<&Json>)
        requires
            self.wf(),
        ensures
            match r {
                Some(j) => self.map_view().contains_key(id@) && self.map_view()[id@]
                    == crate::json::jview(*j),
                None => !self.map_view().contains_key(id@),
            },
    {
        proof {
            lemma_jobj_get_is_map(self.doc_view(), id@);
        }
        obj_get(&self.entries, id)
    }

    /// How many messages are stored.
    pub fn len(&self) -> (r: usize)
        ensures
            r == self.doc_view().len(),
    {
        proof {
            lemma_jfields_view(self.entries@);
        }
        self.entries.len()
    }

    /// Forgets every message; the caller deletes the backing file.
    pub fn clear(&mut self)
        ensures
            final(self).wf(),
            final(self).doc_view() == Seq::<(Seq<char>, JVal)>::empty(),
            final(self).map_view() == Map::<Seq<char>, JVal>::empty(),
    {
        self.entries.clear();
        proof {
            lemma_jfields_view(self.entries@);
            assert(self.doc_view() =~= Seq::<(Seq<char>, JVal)>::empty());
        }
    }

    /// The document to write to disk: one JSON object, ids in insertion
    /// order.
    pub fn to_document(&self) -> (out: Vec<char>)
        ensures
            out@ == enc(JVal::Obj(self.doc_view())),
    {
        let mut out: Vec<char> = Vec::new();
        encode_obj(&self.entries, &mut out);
        out
    }

    /// A store read back from a document. Fails on anything that is not a
    /// JSON object; a repeated id keeps the later payload, as reloading a
    /// map does. On a document this module wrote, the result is exactly the
    /// store it was written from: see `lemma_store_round_trip`.
    pub fn from_document(doc: &[char]) -> (r: Option<MessageStore>)
        ensures
            match r {
                Some(st) => {
                    &&& st.wf()
                    &&& sp_doc(doc@) matches Some(dv)
                    &&& dv is Obj
                    &&& st.map_view() == map_of(dv->Obj_0)
                    &&& (unique_keys(dv->Obj_0) ==> st.doc_view() == dv->Obj_0)
                },
                None => !(sp_doc(doc@) matches Some(dv) && dv is Obj),
            },
    {
        match from_text(doc) {
            Some(j) => match j {
                Json::Obj(fields) => {
                    let ghost fs = jfields_view(fields@);
                    proof {
                        lemma_jfields_view(fields@);
                    }
                    let mut st = MessageStore::new();
                    let n = fields.len();
                    let mut k: usize = 0;
                    while k < n
                        invariant
                            n == fields@.len(),
                            fs == jfields_view(fields@),
                            fs.len() == n,
                            forall|m: int|
                                0 <= m < n ==> fs[m] == (
                                    fields@[m].0@,
                                    crate::json::jview(fields@[m].1),
                                ),
                            k <= n,
                            st.wf(),
                            st.map_view() == map_of(fs.take(k as int)),
                            unique_keys(fs) ==> st.doc_view() == fs.take(k as int),
                        decreases n - k,
                    {
                        let id = fields[k].0.clone();
                        let payload = json_clone(&fields[k].1);
                        let ghost st0 = st;
                        st.insert(id, payload);
                        proof {
                            assert(fs.take(k + 1).drop_last() =~= fs.take(k as int));
                            assert(fs.take(k + 1).last() == fs[k as int]);
                            assert(map_of(fs.take(k + 1)) == map_of(fs.take(k as int)).insert(
                                fs[k as int].0,
                                fs[k as int].1,
                            ));
                            if unique_keys(fs) {
                                lemma_jobj_idx_pub(st0.doc_view(), 0, fs[k as int].0);
                                assert(forall|t: int|
                                    0 <= t < k ==> st0.doc_view()[t].0 != fs[k as int].0);
                                assert(st.doc_view() =~= fs.take(k + 1));
                            }
                        }
                        k = k + 1;
                    }
                    proof {
                        assert(fs.take(n as int) =~= fs);
                    }
                    Some(st)
                },
                _ => None,
            },
            None => None,
        }
    }
}

/// Persist-then-reload round trip: the document written for a store parses
/// back to exactly that store's contents. With `to_document` and
/// `from_document`, reloading what was stored yields the same map.
pub proof fn lemma_store_round_trip(st: MessageStore)
    requires
        st.wf(),
    ensures
        sp_doc(enc(JVal::Obj(st.doc_view()))) == Some(JVal::Obj(st.doc_view())),
{
    lemma_fields_view_wf(st.entries@);
    lemma_doc_round_trip(JVal::Obj(st.doc_view()));
}

} // verus!
