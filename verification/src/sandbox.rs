//! Sandbox lifecycle records: the metadata of each provisioned sandbox
//! container, the list of all of them with its port invariant, and the JSON
//! document the list is persisted as. Building, running and starting the
//! containers themselves is the caller's work; this module owns the records
//! and the decisions about them.

use vstd::prelude::*;

verus! {

use crate::json::{
    Json,
    JVal,
    enc,
    sp_doc,
    jview,
    jseq_view,
    jfields_view,
    jobj_get,
    obj_get,
    str_eq,
    to_text,
    from_text,
    lemma_jfields_view,
    lemma_jseq_view,
};
use vstd::string::StringExecFns;

/// The metadata of one provisioned sandbox.
#[derive(Debug)]
pub struct Container {
    pub id: String,
    pub vnc_port: u16,
    pub bridge_port: u16,
    pub number: i32,
    pub agent_type: String,
    pub agent_name: String,
    pub message_ids: Vec<String>,
    pub agent_id: String,
    pub system_prompt: String,
}

/// The message-id lists, as sequences of characters.
pub open spec fn ids_view(ids: Seq<String>) -> Seq<Seq<char>>
    decreases ids,
{
    if ids.len() == 0 {
        Seq::empty()
    } else {
        ids_view(ids.drop_last()).push(ids.last()@)
    }
}

pub proof fn lemma_ids_view(ids: Seq<String>)
    ensures
        ids_view(ids).len() == ids.len(),
        forall|k: int| 0 <= k < ids.len() ==> ids_view(ids)[k] == ids[k]@,
    decreases ids.len(),
{
    if ids.len() > 0 {
        lemma_ids_view(ids.drop_last());
    }
}

/// The mathematical view of a sandbox record.
pub struct ContainerV {
    pub id: Seq<char>,
    pub vnc_port: u16,
    pub bridge_port: u16,
    pub number: i32,
    pub agent_type: Seq<char>,
    pub agent_name: Seq<char>,
    pub message_ids: Seq<Seq<char>>,
    pub agent_id: Seq<char>,
    pub system_prompt: Seq<char>,
}

impl View for Container {
    type V = ContainerV;

    open spec fn view(&self) -> ContainerV {
        ContainerV {
            id: self.id@,
            vnc_port: self.vnc_port,
            bridge_port: self.bridge_port,
            number: self.number,
            agent_type: self.agent_type@,
            agent_name: self.agent_name@,
            message_ids: ids_view(self.message_ids@),
            agent_id: self.agent_id@,
            system_prompt: self.system_prompt@,
        }
    }
}

/// The views of a list of records.
pub open spec fn containers_view(s: Seq<Container>) -> Seq<ContainerV>
    decreases s,
{
    if s.len() == 0 {
        Seq::empty()
    } else {
        containers_view(s.drop_last()).push(s.last()@)
    }
}

pub proof fn lemma_containers_view(s: Seq<Container>)
    ensures
        containers_view(s).len() == s.len(),
        forall|k: int| 0 <= k < s.len() ==> containers_view(s)[k] == s[k]@,
    decreases s.len(),
{
    if s.len() > 0 {
        lemma_containers_view(s.drop_last());
    }
}

/// The index of the first record view for this agent id, or the length.
pub open spec fn first_agent_idx_v(s: Seq<ContainerV>, id: Seq<char>, k: int) -> int
    decreases s.len() - k,
{
    if k < 0 || k >= s.len() {
        s.len() as int
    } else if s[k].agent_id == id {
        k
    } else {
        first_agent_idx_v(s, id, k + 1)
    }
}

pub proof fn lemma_first_agent_idx_v(s: Seq<ContainerV>, id: Seq<char>, k: int)
    requires
        0 <= k <= s.len(),
    ensures
        k <= first_agent_idx_v(s, id, k) <= s.len(),
        first_agent_idx_v(s, id, k) < s.len() ==> s[first_agent_idx_v(s, id, k)].agent_id == id,
        forall|t: int| k <= t < first_agent_idx_v(s, id, k) ==> s[t].agent_id != id,
    decreases s.len() - k,
{
    if k < s.len() && !(s[k].agent_id == id) {
        lemma_first_agent_idx_v(s, id, k + 1);
    }
}

/// The list with `mid` appended to the record view at `idx`.
pub open spec fn push_mid_v(s: Seq<ContainerV>, idx: int, mid: Seq<char>) -> Seq<ContainerV> {
    s.update(
        idx,
        ContainerV { message_ids: s[idx].message_ids.push(mid), ..s[idx] },
    )
}

impl Container {
    /// Two records describe the same sandbox state.
    pub open spec fn same_as(&self, o: &Container) -> bool {
        &&& self.id@ == o.id@
        &&& self.vnc_port == o.vnc_port
        &&& self.bridge_port == o.bridge_port
        &&& self.number == o.number
        &&& self.agent_type@ == o.agent_type@
        &&& self.agent_name@ == o.agent_name@
        &&& ids_view(self.message_ids@) == ids_view(o.message_ids@)
        &&& self.agent_id@ == o.agent_id@
        &&& self.system_prompt@ == o.system_prompt@
    }
}

/// An exact copy of a record.
pub fn clone_container(c: &Container) -> (r: Container)
    ensures
        r.same_as(c),
{
    let mut ids: Vec<String> = Vec::new();
    let n = c.message_ids.len();
    let mut k: usize = 0;
    while k < n
        invariant
            n == c.message_ids@.len(),
            k <= n,
            ids@.len() == k,
            forall|t: int| 0 <= t < k ==> ids@[t]@ == c.message_ids@[t]@,
        decreases n - k,
    {
        ids.push(c.message_ids[k].clone());
        k = k + 1;
    }
    proof {
        lemma_ids_view(ids@);
        lemma_ids_view(c.message_ids@);
        assert(ids_view(ids@) =~= ids_view(c.message_ids@));
    }
    Container {
        id: c.id.clone(),
        vnc_port: c.vnc_port,
        bridge_port: c.bridge_port,
        number: c.number,
        agent_type: c.agent_type.clone(),
        agent_name: c.agent_name.clone(),
        message_ids: ids,
        agent_id: c.agent_id.clone(),
        system_prompt: c.system_prompt.clone(),
    }
}

/// The logical container name a sandbox gets from its agent id.
pub fn container_name_for(agent_id: &str) -> (r: String)
    ensures
        r@ == "agent-"@ + agent_id@,
{
    let base: String = "agent-".to_owned();
    base.concat(agent_id)
}

/// The list of all known sandboxes.
pub struct SandboxList {
    pub items: Vec<Container>,
}

impl SandboxList {
    /// No two sandboxes share a remote-desktop port, and none share a
    /// bridge port.
    pub open spec fn wf(&self) -> bool {
        forall|a: int, b: int|
            0 <= a < b < self.items@.len() ==> self.items@[a].vnc_port != self.items@[b].vnc_port
                && self.items@[a].bridge_port != self.items@[b].bridge_port
    }

    pub fn new() -> (r: SandboxList)
        ensures
            r.wf(),
            r.items@.len() == 0,
    {
        SandboxList { items: Vec::new() }
    }

    /// The position of the first record for `agent_id`, or the length.
    pub fn find_agent(&self, agent_id: &str) -> (r: usize)
        ensures
            r <= self.items@.len(),
            r < self.items@.len() ==> self.items@[r as int].agent_id@ == agent_id@,
            forall|k: int| 0 <= k < r ==> self.items@[k].agent_id@ != agent_id@,
    {
        let n = self.items.len();
        let mut k: usize = 0;
        while k < n
            invariant
                n == self.items@.len(),
                k <= n,
                forall|t: int| 0 <= t < k ==> self.items@[t].agent_id@ != agent_id@,
            decreases n - k,
        {
            if str_eq(self.items[k].agent_id.as_str(), agent_id) {
                return k;
            }
            k = k + 1;
        }
        n
    }

    /// The first record for `agent_id`, if any.
    pub fn get_agent_container(&self, agent_id: &str) -> (r: Option<&Container>)
        ensures
            match r {
                Some(c) => exists|k: int|
                    0 <= k < self.items@.len() && self.items@[k] == *c && self.items@[
                        k
                    ].agent_id@ == agent_id@ && forall|t: int|
                        0 <= t < k ==> self.items@[t].agent_id@ != agent_id@,
                None => forall|k: int|
                    0 <= k < self.items@.len() ==> self.items@[k].agent_id@ != agent_id@,
            },
    {
        let k = self.find_agent(agent_id);
        if k < self.items.len() {
            Some(&self.items[k])
        } else {
            None
        }
    }

    /// Whether some record already uses this remote-desktop or bridge port.
    pub fn port_taken(&self, port: u16) -> (r: bool)
        ensures
            r == exists|k: int|
                0 <= k < self.items@.len() && (self.items@[k].vnc_port == port || self.items@[
                    k
                ].bridge_port == port),
    {
        let n = self.items.len();
        let mut k: usize = 0;
        while k < n
            invariant
                n == self.items@.len(),
                k <= n,
                forall|t: int|
                    0 <= t < k ==> self.items@[t].vnc_port != port && self.items@[t].bridge_port
                        != port,
            decreases n - k,
        {
            if self.items[k].vnc_port == port || self.items[k].bridge_port == port {
                return true;
            }
            k = k + 1;
        }
        false
    }

    /// Records a newly provisioned sandbox. The record is refused — and
    /// nothing changes — exactly when one of its ports is already held by
    /// a known sandbox.
    pub fn add(&mut self, c: Container) -> (r: Result<(), String>)
        requires
            old(self).wf(),
        ensures
            final(self).wf(),
            match r {
                Ok(()) => {
                    &&& !(exists|k: int|
                        0 <= k < old(self).items@.len() && (old(self).items@[k].vnc_port
                            == c.vnc_port || old(self).items@[k].vnc_port == c.bridge_port || old(
                            self,
                        ).items@[k].bridge_port == c.vnc_port || old(self).items@[k].bridge_port
                            == c.bridge_port))
                    &&& final(self).items@ == old(self).items@.push(c)
                },
                Err(e) => {
                    &&& final(self).items@ == old(self).items@
                    &&& (exists|k: int|
                        0 <= k < old(self).items@.len() && (old(self).items@[k].vnc_port
                            == c.vnc_port || old(self).items@[k].vnc_port == c.bridge_port || old(
                            self,
                        ).items@[k].bridge_port == c.vnc_port || old(self).items@[k].bridge_port
                            == c.bridge_port))
                    &&& e@ == "port already assigned to a sandbox"@
                },
            },
    {
        if self.port_taken(c.vnc_port) || self.port_taken(c.bridge_port) {
            return Err("port already assigned to a sandbox".to_owned());
        }
        self.items.push(c);
        proof {
            assert forall|a: int, b: int|
                0 <= a < b < self.items@.len() implies self.items@[a].vnc_port != self.items@[
                b
            ].vnc_port && self.items@[a].bridge_port != self.items@[b].bridge_port by {
                if b == self.items@.len() - 1 {
                    assert(self.items@[a] == old(self).items@[a]);
                }
            }
        }
        Ok(())
    }

    /// Replaces the stored system prompt of `agent_id`'s first record; says
    /// when there is no record for it.
    pub fn update_system_prompt(&mut self, agent_id: &str, system_prompt: String) -> (r: Result<
        (),
        String,
    >)
        requires
            old(self).wf(),
        ensures
            final(self).wf(),
            match r {
                Ok(()) => exists|k: int|
                    {
                        &&& 0 <= k < old(self).items@.len()
                        &&& old(self).items@[k].agent_id@ == agent_id@
                        &&& (forall|t: int|
                            0 <= t < k ==> old(self).items@[t].agent_id@ != agent_id@)
                        &&& final(self).items@ =~= old(self).items@.update(
                            k,
                            final(self).items@[k],
                        )
                        &&& final(self).items@[k].system_prompt@ == system_prompt@
                        &&& final(self).items@[k].agent_id@ == old(self).items@[k].agent_id@
                        &&& final(self).items@[k].vnc_port == old(self).items@[k].vnc_port
                        &&& final(self).items@[k].bridge_port == old(self).items@[k].bridge_port
                        &&& final(self).items@[k].id@ == old(self).items@[k].id@
                        &&& ids_view(final(self).items@[k].message_ids@) == ids_view(
                            old(self).items@[k].message_ids@,
                        )
                    },
                Err(e) => {
                    &&& final(self).items@ == old(self).items@
                    &&& (forall|k: int|
                        0 <= k < old(self).items@.len() ==> old(self).items@[k].agent_id@
                            != agent_id@)
                    &&& e@ == "Container not found"@
                },
            },
    {
        let k = self.find_agent(agent_id);
        if k < self.items.len() {
            let old_rec = self.items.remove(k);
            let rec = Container { system_prompt, ..old_rec };
            self.items.insert(k, rec);
            proof {
                assert(self.items@ =~= old(self).items@.update(k as int, self.items@[k as int]));
                lemma_ids_view(self.items@[k as int].message_ids@);
            }
            Ok(())
        } else {
            Err("Container not found".to_owned())
        }
    }

    /// Appends a message id to `agent_id`'s first record; reports whether
    /// there was one.
    pub fn push_message_id(&mut self, agent_id: &str, message_id: String) -> (found: bool)
        requires
            old(self).wf(),
        ensures
            final(self).wf(),
            found == (first_agent_idx_v(containers_view(old(self).items@), agent_id@, 0)
                < old(self).items@.len()),
            found ==> containers_view(final(self).items@) == push_mid_v(
                containers_view(old(self).items@),
                first_agent_idx_v(containers_view(old(self).items@), agent_id@, 0),
                message_id@,
            ),
            !found ==> final(self).items@ == old(self).items@,
    {
        proof {
            lemma_containers_view(old(self).items@);
            lemma_first_agent_idx_v(containers_view(old(self).items@), agent_id@, 0);
        }
        let ghost vpre = containers_view(old(self).items@);
        let k = self.find_agent(agent_id);
        proof {
            // the scan and the spec agree on which record is first
            let fi = first_agent_idx_v(vpre, agent_id@, 0);
            if k < self.items.len() {
                assert(vpre[k as int].agent_id == agent_id@);
                assert(fi == k as int) by {
                    if fi < k as int {
                        assert(old(self).items@[fi].agent_id@ != agent_id@);
                    }
                    if fi > k as int {
                        assert(vpre[k as int].agent_id != agent_id@);
                    }
                }
            } else {
                assert(fi == vpre.len()) by {
                    if fi < vpre.len() {
                        assert(old(self).items@[fi].agent_id@ != agent_id@);
                    }
                }
            }
        }
        if k < self.items.len() {
            let ghost ids0 = self.items@[k as int].message_ids@;
            let mut rec = self.items.remove(k);
            rec.message_ids.push(message_id);
            self.items.insert(k, rec);
            proof {
                assert(self.items@ =~= old(self).items@.update(k as int, self.items@[k as int]));
                assert(self.items@[k as int].message_ids@.drop_last() =~= ids0);
                lemma_ids_view(self.items@[k as int].message_ids@);
                lemma_ids_view(ids0);
                assert(ids_view(self.items@[k as int].message_ids@) =~= ids_view(ids0).push(
                    message_id@,
                ));
                lemma_containers_view(self.items@);
                assert(containers_view(self.items@) =~= push_mid_v(
                    vpre,
                    k as int,
                    message_id@,
                ));
            }
            true
        } else {
            false
        }
    }

    /// Clears every record's message-id list; the stored messages
    /// themselves are the store's to clear.
    pub fn clear_message_ids(&mut self)
        requires
            old(self).wf(),
        ensures
            final(self).wf(),
            final(self).items@.len() == old(self).items@.len(),
            forall|k: int|
                0 <= k < old(self).items@.len() ==> {
                    &&& ids_view(#[trigger] final(self).items@[k].message_ids@)
                        == Seq::<Seq<char>>::empty()
                    &&& final(self).items@[k].agent_id@ == old(self).items@[k].agent_id@
                    &&& final(self).items@[k].vnc_port == old(self).items@[k].vnc_port
                    &&& final(self).items@[k].bridge_port == old(self).items@[k].bridge_port
                    &&& final(self).items@[k].system_prompt@ == old(
                        self,
                    ).items@[k].system_prompt@
                    &&& final(self).items@[k].id@ == old(self).items@[k].id@
                },
    {
        let n = self.items.len();
        let mut k: usize = 0;
        while k < n
            invariant
                n == old(self).items@.len(),
                n == self.items@.len(),
                k <= n,
                forall|t: int| k <= t < n ==> self.items@[t] == old(self).items@[t],
                forall|t: int|
                    0 <= t < k ==> {
                        &&& ids_view(#[trigger] self.items@[t].message_ids@) == Seq::<
                            Seq<char>,
                        >::empty()
                        &&& self.items@[t].agent_id@ == old(self).items@[t].agent_id@
                        &&& self.items@[t].vnc_port == old(self).items@[t].vnc_port
                        &&& self.items@[t].bridge_port == old(self).items@[t].bridge_port
                        &&& self.items@[t].system_prompt@ == old(self).items@[t].system_prompt@
                        &&& self.items@[t].id@ == old(self).items@[t].id@
                    },
                forall|a: int, b: int|
                    0 <= a < b < n ==> self.items@[a].vnc_port != self.items@[b].vnc_port
                        && self.items@[a].bridge_port != self.items@[b].bridge_port,
            decreases n - k,
        {
            let ghost prev = self.items@;
            let mut rec = self.items.remove(k);
            rec.message_ids = Vec::new();
            self.items.insert(k, rec);
            proof {
                assert(self.items@ =~= prev.update(k as int, self.items@[k as int]));
                lemma_ids_view(self.items@[k as int].message_ids@);
                assert(ids_view(self.items@[k as int].message_ids@) =~= Seq::<
                    Seq<char>,
                >::empty());
            }
            k = k + 1;
        }
    }

    /// Forgets every record.
    pub fn clear(&mut self)
        ensures
            final(self).wf(),
            final(self).items@.len() == 0,
    {
        self.items.clear();
    }
}

// ---------------------------------------------------------------------------
// The persisted form: one JSON object per record, one array for the list.
// ---------------------------------------------------------------------------

/// Strings as JSON string values.
pub open spec fn strs_jvals(ids: Seq<Seq<char>>) -> Seq<JVal>
    decreases ids.len(),
{
    if ids.len() == 0 {
        Seq::empty()
    } else {
        strs_jvals(ids.drop_last()).push(JVal::Str(ids.last()))
    }
}

pub proof fn lemma_strs_jvals(ids: Seq<Seq<char>>)
    ensures
        strs_jvals(ids).len() == ids.len(),
        forall|k: int| 0 <= k < ids.len() ==> strs_jvals(ids)[k] == JVal::Str(ids[k]),
    decreases ids.len(),
{
    if ids.len() > 0 {
        lemma_strs_jvals(ids.drop_last());
    }
}

/// The JSON object a record's view is persisted as.
pub open spec fn container_jval_v(c: ContainerV) -> JVal {
    JVal::Obj(
        seq![
            ("id"@, JVal::Str(c.id)),
            ("vnc_port"@, JVal::Num(c.vnc_port as int)),
            ("bridge_port"@, JVal::Num(c.bridge_port as int)),
            ("number"@, JVal::Num(c.number as int)),
            ("agent_type"@, JVal::Str(c.agent_type)),
            ("agent_name"@, JVal::Str(c.agent_name)),
            ("message_ids"@, JVal::Arr(strs_jvals(c.message_ids))),
            ("agent_id"@, JVal::Str(c.agent_id)),
            ("system_prompt"@, JVal::Str(c.system_prompt)),
        ],
    )
}

/// The JSON object a record is persisted as.
pub open spec fn container_jval(c: Container) -> JVal {
    container_jval_v(c@)
}

/// What a JSON value must hold under each member name to describe the
/// record `c`.
pub open spec fn container_matches(v: JVal, c: Container) -> bool {
    &&& v is Obj
    &&& jobj_get(v->Obj_0, "id"@) == Some(JVal::Str(c.id@))
    &&& jobj_get(v->Obj_0, "vnc_port"@) == Some(JVal::Num(c.vnc_port as int))
    &&& jobj_get(v->Obj_0, "bridge_port"@) == Some(JVal::Num(c.bridge_port as int))
    &&& jobj_get(v->Obj_0, "number"@) == Some(JVal::Num(c.number as int))
    &&& jobj_get(v->Obj_0, "agent_type"@) == Some(JVal::Str(c.agent_type@))
    &&& jobj_get(v->Obj_0, "agent_name"@) == Some(JVal::Str(c.agent_name@))
    &&& jobj_get(v->Obj_0, "message_ids"@) == Some(
        JVal::Arr(strs_jvals(ids_view(c.message_ids@))),
    )
    &&& jobj_get(v->Obj_0, "agent_id"@) == Some(JVal::Str(c.agent_id@))
    &&& jobj_get(v->Obj_0, "system_prompt"@) == Some(JVal::Str(c.system_prompt@))
}

/// Whether a JSON value has the shape of a persisted record: every member
/// present, of the right type, and the numbers within their fields' ranges.
pub open spec fn container_parsable(v: JVal) -> bool {
    &&& v is Obj
    &&& jobj_get(v->Obj_0, "id"@) matches Some(JVal::Str(_))
    &&& (jobj_get(v->Obj_0, "vnc_port"@) matches Some(JVal::Num(n)) && 0 <= n <= u16::MAX)
    &&& (jobj_get(v->Obj_0, "bridge_port"@) matches Some(JVal::Num(n)) && 0 <= n <= u16::MAX)
    &&& (jobj_get(v->Obj_0, "number"@) matches Some(JVal::Num(n)) && i32::MIN <= n <= i32::MAX)
    &&& jobj_get(v->Obj_0, "agent_type"@) matches Some(JVal::Str(_))
    &&& jobj_get(v->Obj_0, "agent_name"@) matches Some(JVal::Str(_))
    &&& (jobj_get(v->Obj_0, "message_ids"@) matches Some(JVal::Arr(es)) && forall|k: int|
        0 <= k < es.len() ==> #[trigger] es[k] is Str)
    &&& jobj_get(v->Obj_0, "agent_id"@) matches Some(JVal::Str(_))
    &&& jobj_get(v->Obj_0, "system_prompt"@) matches Some(JVal::Str(_))
}

/// The record as the JSON object it is persisted as.
pub fn container_to_json(c: &Container) -> (r: Json)
    ensures
        jview(r) == container_jval(*c),
{
    let mut ids: Vec<Json> = Vec::new();
    let n = c.message_ids.len();
    let mut k: usize = 0;
    while k < n
        invariant
            n == c.message_ids@.len(),
            k <= n,
            ids@.len() == k,
            forall|t: int| 0 <= t < k ==> jview(ids@[t]) == JVal::Str(c.message_ids@[t]@),
        decreases n - k,
    {
        ids.push(Json::Str(c.message_ids[k].clone()));
        k = k + 1;
    }
    proof {
        lemma_jseq_view(ids@);
        lemma_ids_view(c.message_ids@);
        lemma_strs_jvals(ids_view(c.message_ids@));
        assert(jseq_view(ids@) =~= strs_jvals(ids_view(c.message_ids@)));
    }
    let mut fields: Vec<(String, Json)> = Vec::new();
    fields.push(("id".to_owned(), Json::Str(c.id.clone())));
    fields.push(("vnc_port".to_owned(), Json::Num(c.vnc_port as i64)));
    fields.push(("bridge_port".to_owned(), Json::Num(c.bridge_port as i64)));
    fields.push(("number".to_owned(), Json::Num(c.number as i64)));
    fields.push(("agent_type".to_owned(), Json::Str(c.agent_type.clone())));
    fields.push(("agent_name".to_owned(), Json::Str(c.agent_name.clone())));
    fields.push(("message_ids".to_owned(), Json::Arr(ids)));
    fields.push(("agent_id".to_owned(), Json::Str(c.agent_id.clone())));
    fields.push(("system_prompt".to_owned(), Json::Str(c.system_prompt.clone())));
    let r = Json::Obj(fields);
    proof {
        lemma_jfields_view(r->Obj_0@);
        assert(jview(r) is Obj);
        assert(jfields_view(r->Obj_0@) =~= container_jval(*c)->Obj_0);
    }
    r
}

/// The record a JSON object describes, if it has every member in the right
/// shape; the exact shape required is `container_parsable`.
pub fn container_of_json(j: &Json) -> (r: Option<Container>)
    ensures
        match r {
            Some(c) => container_parsable(jview(*j)) && container_matches(jview(*j), c),
            None => !container_parsable(jview(*j)),
        },
{
    let fields = match j {
        Json::Obj(fields) => fields,
        _ => {
            return None;
        },
    };
    proof {
        assert(jview(*j)->Obj_0 == jfields_view(fields@));
    }
    let id = match obj_get(fields, "id") {
        Some(Json::Str(v)) => v.clone(),
        _ => {
            return None;
        },
    };
    let vnc_port: u16 = match obj_get(fields, "vnc_port") {
        Some(Json::Num(n)) => {
            if 0 <= *n && *n <= u16::MAX as i64 {
                *n as u16
            } else {
                return None;
            }
        },
        _ => {
            return None;
        },
    };
    let bridge_port: u16 = match obj_get(fields, "bridge_port") {
        Some(Json::Num(n)) => {
            if 0 <= *n && *n <= u16::MAX as i64 {
                *n as u16
            } else {
                return None;
            }
        },
        _ => {
            return None;
        },
    };
    let number: i32 = match obj_get(fields, "number") {
        Some(Json::Num(n)) => {
            if i32::MIN as i64 <= *n && *n <= i32::MAX as i64 {
                *n as i32
            } else {
                return None;
            }
        },
        _ => {
            return None;
        },
    };
    let agent_type = match obj_get(fields, "agent_type") {
        Some(Json::Str(v)) => v.clone(),
        _ => {
            return None;
        },
    };
    let agent_name = match obj_get(fields, "agent_name") {
        Some(Json::Str(v)) => v.clone(),
        _ => {
            return None;
        },
    };
    let message_ids: Vec<String> = match obj_get(fields, "message_ids") {
        Some(Json::Arr(es)) => {
            let ghost ges = jseq_view(es@);
            proof {
                lemma_jseq_view(es@);
            }
            let mut ids: Vec<String> = Vec::new();
            let n = es.len();
            let mut k: usize = 0;
            while k < n
                invariant
                    jobj_get(jview(*j)->Obj_0, "message_ids"@) == Some(JVal::Arr(ges)),
                    n == es@.len(),
                    ges == jseq_view(es@),
                    ges.len() == n,
                    forall|m: int| 0 <= m < n ==> ges[m] == jview(es@[m]),
                    k <= n,
                    ids@.len() == k,
                    forall|t: int| 0 <= t < k ==> #[trigger] ges[t] is Str,
                    forall|t: int| 0 <= t < k ==> ges[t] == JVal::Str(ids@[t]@),
                decreases n - k,
            {
                match &es[k] {
                    Json::Str(v) => {
                        ids.push(v.clone());
                    },
                    _ => {
                        proof {
                            assert(jview(es@[k as int]) == ges[k as int]);
                            assert(!(ges[k as int] is Str));
                            assert(!container_parsable(jview(*j)));
                        }
                        return None;
                    },
                }
                k = k + 1;
            }
            proof {
                lemma_ids_view(ids@);
                lemma_strs_jvals(ids_view(ids@));
                assert(strs_jvals(ids_view(ids@)) =~= ges);
            }
            ids
        },
        _ => {
            return None;
        },
    };
    let agent_id = match obj_get(fields, "agent_id") {
        Some(Json::Str(v)) => v.clone(),
        _ => {
            return None;
        },
    };
    let system_prompt = match obj_get(fields, "system_prompt") {
        Some(Json::Str(v)) => v.clone(),
        _ => {
            return None;
        },
    };
    Some(
        Container {
            id,
            vnc_port,
            bridge_port,
            number,
            agent_type,
            agent_name,
            message_ids,
            agent_id,
            system_prompt,
        },
    )
}

/// The views' records as JSON values, in order.
pub open spec fn containers_jvals_v(s: Seq<ContainerV>) -> Seq<JVal>
    decreases s.len(),
{
    if s.len() == 0 {
        Seq::empty()
    } else {
        containers_jvals_v(s.drop_last()).push(container_jval_v(s.last()))
    }
}

pub proof fn lemma_containers_jvals_v(s: Seq<ContainerV>)
    ensures
        containers_jvals_v(s).len() == s.len(),
        forall|k: int| 0 <= k < s.len() ==> containers_jvals_v(s)[k] == container_jval_v(s[k]),
    decreases s.len(),
{
    if s.len() > 0 {
        lemma_containers_jvals_v(s.drop_last());
    }
}

/// The records as JSON values, in order.
pub open spec fn containers_jvals(s: Seq<Container>) -> Seq<JVal>
    decreases s.len(),
{
    if s.len() == 0 {
        Seq::empty()
    } else {
        containers_jvals(s.drop_last()).push(container_jval(s.last()))
    }
}

/// The two document spellings agree: records or their views, same text.
pub proof fn lemma_containers_jvals_agree(s: Seq<Container>)
    ensures
        containers_jvals(s) == containers_jvals_v(containers_view(s)),
    decreases s.len(),
{
    if s.len() > 0 {
        lemma_containers_jvals_agree(s.drop_last());
        lemma_containers_view(s);
        assert(containers_view(s).drop_last() =~= containers_view(s.drop_last()));
        assert(containers_jvals(s) =~= containers_jvals_v(containers_view(s)));
    }
}

pub proof fn lemma_containers_jvals(s: Seq<Container>)
    ensures
        containers_jvals(s).len() == s.len(),
        forall|k: int| 0 <= k < s.len() ==> containers_jvals(s)[k] == container_jval(s[k]),
    decreases s.len(),
{
    if s.len() > 0 {
        lemma_containers_jvals(s.drop_last());
    }
}

/// The document the sandbox list is persisted as: one JSON array of
/// records, in order.
pub fn containers_to_document(list: &SandboxList) -> (out: Vec<char>)
    ensures
        out@ == enc(JVal::Arr(containers_jvals(list.items@))),
{
    let mut arr: Vec<Json> = Vec::new();
    let n = list.items.len();
    let mut k: usize = 0;
    while k < n
        invariant
            n == list.items@.len(),
            k <= n,
            arr@.len() == k,
            forall|t: int| 0 <= t < k ==> jview(arr@[t]) == container_jval(list.items@[t]),
        decreases n - k,
    {
        arr.push(container_to_json(&list.items[k]));
        k = k + 1;
    }
    proof {
        lemma_jseq_view(arr@);
        lemma_containers_jvals(list.items@);
        assert(jseq_view(arr@) =~= containers_jvals(list.items@));
    }
    to_text(&Json::Arr(arr))
}

/// The records read back from a persisted document. Fails exactly when the
/// document is not a JSON array of values in the persisted record shape.
pub fn containers_from_document(doc: &[char]) -> (r: Option<Vec<Container>>)
    ensures
        match r {
            Some(cs) => {
                &&& sp_doc(doc@) matches Some(dv)
                &&& dv is Arr
                &&& cs@.len() == dv->Arr_0.len()
                &&& forall|k: int|
                    0 <= k < cs@.len() ==> container_parsable(#[trigger] dv->Arr_0[k])
                        && container_matches(dv->Arr_0[k], cs@[k])
            },
            None => sp_doc(doc@) is None || !(sp_doc(doc@).unwrap() is Arr) || (exists|t: int|
                0 <= t < sp_doc(doc@).unwrap()->Arr_0.len() && !container_parsable(
                    #[trigger] sp_doc(doc@).unwrap()->Arr_0[t],
                )),
        },
{
    match from_text(doc) {
        Some(j) => match j {
            Json::Arr(es) => {
                let ghost ges = jseq_view(es@);
                proof {
                    lemma_jseq_view(es@);
                }
                let mut cs: Vec<Container> = Vec::new();
                let n = es.len();
                let mut k: usize = 0;
                while k < n
                    invariant
                        sp_doc(doc@) == Some(JVal::Arr(ges)),
                        n == es@.len(),
                        ges == jseq_view(es@),
                        ges.len() == n,
                        forall|m: int| 0 <= m < n ==> ges[m] == jview(es@[m]),
                        k <= n,
                        cs@.len() == k,
                        forall|t: int|
                            0 <= t < k ==> container_parsable(#[trigger] ges[t])
                                && container_matches(ges[t], cs@[t]),
                    decreases n - k,
                {
                    match container_of_json(&es[k]) {
                        Some(c) => {
                            cs.push(c);
                        },
                        None => {
                            proof {
                                assert(!container_parsable(
                                    sp_doc(doc@).unwrap()->Arr_0[k as int],
                                ));
                            }
                            return None;
                        },
                    }
                    k = k + 1;
                }
                Some(cs)
            },
            _ => None,
        },
        None => None,
    }
}

/// A sandbox list built from loaded records, refused exactly when two of
/// them claim the same port.
pub fn sandbox_list_from_records(cs: Vec<Container>) -> (r: Result<SandboxList, String>)
    ensures
        match r {
            Ok(sl) => {
                &&& sl.wf()
                &&& sl.items@ == cs@
            },
            Err(e) => exists|a: int, b: int|
                0 <= a < b < cs@.len() && (cs@[a].vnc_port == cs@[b].vnc_port || cs@[a].bridge_port
                    == cs@[b].bridge_port),
        },
{
    let n = cs.len();
    let mut a: usize = 0;
    while a < n
        invariant
            n == cs@.len(),
            a <= n,
            forall|x: int, y: int|
                0 <= x < y < n && x < a ==> cs@[x].vnc_port != cs@[y].vnc_port && cs@[
                    x
                ].bridge_port != cs@[y].bridge_port,
        decreases n - a,
    {
        let mut b: usize = a + 1;
        while b < n
            invariant
                n == cs@.len(),
                a < n,
                a < b <= n,
                forall|y: int| a < y < b ==> cs@[a as int].vnc_port != cs@[y].vnc_port && cs@[
                    a as int
                ].bridge_port != cs@[y].bridge_port,
            decreases n - b,
        {
            if cs[a].vnc_port == cs[b].vnc_port || cs[a].bridge_port == cs[b].bridge_port {
                return Err("port already assigned to a sandbox".to_owned());
            }
            b = b + 1;
        }
        a = a + 1;
    }
    Ok(SandboxList { items: cs })
}

/// Reloading a persisted record gives back that record: the object a
/// record encodes to has the persisted shape, and each member holds the
/// record's own field, so `container_of_json` after `container_to_json`
/// reproduces every field.
pub proof fn lemma_container_doc_round_trip(c: Container)
    ensures
        container_parsable(container_jval(c)),
        container_matches(container_jval(c), c),
{
    reveal_strlit("id");
    reveal_strlit("vnc_port");
    reveal_strlit("bridge_port");
    reveal_strlit("number");
    reveal_strlit("agent_type");
    reveal_strlit("agent_name");
    reveal_strlit("message_ids");
    reveal_strlit("agent_id");
    reveal_strlit("system_prompt");
    let fs = container_jval(c)->Obj_0;
    lemma_strs_jvals(ids_view(c.message_ids@));
    assert("id"@.len() == 2);
    assert("vnc_port"@.len() == 8);
    assert("bridge_port"@.len() == 11);
    assert("number"@.len() == 6);
    assert("agent_type"@.len() == 10);
    assert("agent_name"@.len() == 10);
    assert("message_ids"@.len() == 11);
    assert("agent_id"@.len() == 8);
    assert("system_prompt"@.len() == 13);
    assert("vnc_port"@[0] != "agent_id"@[0]);
    assert("agent_type"@[6] != "agent_name"@[6]);
    assert("bridge_port"@[0] != "message_ids"@[0]);
    assert("id"@ != "vnc_port"@);
    assert("id"@ != "bridge_port"@);
    assert("vnc_port"@ != "bridge_port"@);
    assert("id"@ != "number"@);
    assert("vnc_port"@ != "number"@);
    assert("bridge_port"@ != "number"@);
    assert("id"@ != "agent_type"@);
    assert("vnc_port"@ != "agent_type"@);
    assert("bridge_port"@ != "agent_type"@);
    assert("number"@ != "agent_type"@);
    assert("id"@ != "agent_name"@);
    assert("vnc_port"@ != "agent_name"@);
    assert("bridge_port"@ != "agent_name"@);
    assert("number"@ != "agent_name"@);
    assert("agent_type"@ != "agent_name"@);
    assert("id"@ != "message_ids"@);
    assert("vnc_port"@ != "message_ids"@);
    assert("bridge_port"@ != "message_ids"@);
    assert("number"@ != "message_ids"@);
    assert("agent_type"@ != "message_ids"@);
    assert("agent_name"@ != "message_ids"@);
    assert("id"@ != "agent_id"@);
    assert("vnc_port"@ != "agent_id"@);
    assert("bridge_port"@ != "agent_id"@);
    assert("number"@ != "agent_id"@);
    assert("agent_type"@ != "agent_id"@);
    assert("agent_name"@ != "agent_id"@);
    assert("message_ids"@ != "agent_id"@);
    assert("id"@ != "system_prompt"@);
    assert("vnc_port"@ != "system_prompt"@);
    assert("bridge_port"@ != "system_prompt"@);
    assert("number"@ != "system_prompt"@);
    assert("agent_type"@ != "system_prompt"@);
    assert("agent_name"@ != "system_prompt"@);
    assert("message_ids"@ != "system_prompt"@);
    assert("agent_id"@ != "system_prompt"@);
    assert(jobj_get(fs, "id"@) == Some(JVal::Str(c.id@))) by {
        reveal_with_fuel(crate::json::jobj_get_from, 10);
    }
    assert(jobj_get(fs, "vnc_port"@) == Some(JVal::Num(c.vnc_port as int))) by {
        reveal_with_fuel(crate::json::jobj_get_from, 10);
    }
    assert(jobj_get(fs, "bridge_port"@) == Some(JVal::Num(c.bridge_port as int))) by {
        reveal_with_fuel(crate::json::jobj_get_from, 10);
    }
    assert(jobj_get(fs, "number"@) == Some(JVal::Num(c.number as int))) by {
        reveal_with_fuel(crate::json::jobj_get_from, 10);
    }
    assert(jobj_get(fs, "agent_type"@) == Some(JVal::Str(c.agent_type@))) by {
        reveal_with_fuel(crate::json::jobj_get_from, 10);
    }
    assert(jobj_get(fs, "agent_name"@) == Some(JVal::Str(c.agent_name@))) by {
        reveal_with_fuel(crate::json::jobj_get_from, 10);
    }
    assert(jobj_get(fs, "message_ids"@) == Some(
        JVal::Arr(strs_jvals(ids_view(c.message_ids@))),
    )) by {
        reveal_with_fuel(crate::json::jobj_get_from, 10);
    }
    assert(jobj_get(fs, "agent_id"@) == Some(JVal::Str(c.agent_id@))) by {
        reveal_with_fuel(crate::json::jobj_get_from, 10);
    }
    assert(jobj_get(fs, "system_prompt"@) == Some(JVal::Str(c.system_prompt@))) by {
        reveal_with_fuel(crate::json::jobj_get_from, 10);
    }
}

// ---------------------------------------------------------------------------
// The one decision of the runtime setup flow.
// ---------------------------------------------------------------------------

/// Whether the runtime machine must be started, judged from the runtime's
/// own inspection report: the report is an array whose first entry names a
/// `State`, and that state is not `running`. A report of any other shape
/// asks for no start.
pub open spec fn machine_needs_start_spec(report: JVal) -> bool {
    &&& report is Arr
    &&& report->Arr_0.len() >= 1
    &&& report->Arr_0[0] is Obj
    &&& jobj_get(report->Arr_0[0]->Obj_0, "State"@) matches Some(JVal::Str(st))
    &&& jobj_get(report->Arr_0[0]->Obj_0, "State"@).unwrap()->Str_0 != "running"@
}

/// Reads the runtime's machine-inspection report and says whether the
/// machine must still be started.
pub fn machine_needs_start(report: &Json) -> (r: bool)
    ensures
        r == machine_needs_start_spec(jview(*report)),
{
    match report {
        Json::Arr(es) => {
            if es.len() >= 1 {
                proof {
                    lemma_jseq_view(es@);
                }
                match &es[0] {
                    Json::Obj(fields) => match obj_get(fields, "State") {
                        Some(Json::Str(st)) => !str_eq(st.as_str(), "running"),
                        _ => false,
                    },
                    _ => false,
                }
            } else {
                proof {
                    lemma_jseq_view(es@);
                }
                false
            }
        },
        _ => false,
    }
}

} // verus!
