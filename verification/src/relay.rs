//! The relay protocol: one hub object holds the connection registry, the
//! message store and the sandbox list, and each inbound frame becomes a
//! state change plus a list of actions — frames to send and documents to
//! persist — that the caller performs. Nothing here touches a socket or a
//! file.

use vstd::prelude::*;

verus! {

use crate::chunk::{chunk_text, is_chunking};
use crate::json::{
    Json,
    JVal,
    enc,
    jview,
    jseq_view,
    jfields_view,
    jobj_get,
    jobj_put,
    jobj_remove,
    obj_get,
    obj_put,
    obj_remove,
    json_clone,
    jstr,
    to_text,
    from_text,
    sp_doc,
    chars_to_string,
    str_eq,
    lemma_jseq_view,
};
use crate::registry::{ConnectionRegistry, PromptState, prompt_state_of, prompt_state_of_spec};
use crate::sandbox::{
    Container,
    ContainerV,
    SandboxList,
    containers_view,
    containers_jvals_v,
    containers_to_document,
    first_agent_idx_v,
    lemma_first_agent_idx_v,
    push_mid_v,
    lemma_containers_view,
    lemma_containers_jvals_agree,
};
use crate::store::MessageStore;

/// How many bytes of payload one transport chunk may carry.
pub const CHUNK_WINDOW: usize = 1024;

/// How many stored messages a prompt is enriched with.
pub const RECENT_MESSAGE_COUNT: usize = 5;

/// One thing the caller must do after a frame is handled.
pub enum Action {
    /// Send this frame to the console connection with this handle.
    SendToClient(u64, Vec<char>),
    /// Send this frame to the agent connection with this handle.
    SendToAgent(u64, Vec<char>),
    /// Rewrite the messages document with this text.
    PersistMessages(Vec<char>),
    /// Rewrite the sandbox-list document with this text.
    PersistSandboxes(Vec<char>),
}

/// The mathematical view of an action.
pub enum ActionV {
    SendToClient(u64, Seq<char>),
    SendToAgent(u64, Seq<char>),
    PersistMessages(Seq<char>),
    PersistSandboxes(Seq<char>),
}

impl View for Action {
    type V = ActionV;

    open spec fn view(&self) -> ActionV {
        match self {
            Action::SendToClient(h, t) => ActionV::SendToClient(*h, t@),
            Action::SendToAgent(h, t) => ActionV::SendToAgent(*h, t@),
            Action::PersistMessages(t) => ActionV::PersistMessages(t@),
            Action::PersistSandboxes(t) => ActionV::PersistSandboxes(t@),
        }
    }
}

/// The views of a list of actions.
pub open spec fn actions_view(s: Seq<Action>) -> Seq<ActionV>
    decreases s,
{
    if s.len() == 0 {
        Seq::empty()
    } else {
        actions_view(s.drop_last()).push(s.last()@)
    }
}

pub proof fn lemma_actions_view(s: Seq<Action>)
    ensures
        actions_view(s).len() == s.len(),
        forall|k: int| 0 <= k < s.len() ==> actions_view(s)[k] == s[k]@,
    decreases s.len(),
{
    if s.len() > 0 {
        lemma_actions_view(s.drop_last());
    }
}

/// The hub: all relay state in one place.
pub struct Hub {
    pub registry: ConnectionRegistry,
    pub store: MessageStore,
    pub sandboxes: SandboxList,
}

/// The mathematical view of the hub.
pub struct HubView {
    pub client: Option<u64>,
    pub agents: Map<Seq<char>, (u64, PromptState)>,
    pub conns: Map<u64, Seq<char>>,
    pub store_doc: Seq<(Seq<char>, JVal)>,
    pub sandboxes: Seq<ContainerV>,
}

impl View for Hub {
    type V = HubView;

    open spec fn view(&self) -> HubView {
        HubView {
            client: self.registry.client,
            agents: self.registry.agents_view(),
            conns: self.registry.conn_view(),
            store_doc: self.store.doc_view(),
            sandboxes: containers_view(self.sandboxes.items@),
        }
    }
}

impl Hub {
    pub open spec fn wf(&self) -> bool {
        self.registry.wf() && self.store.wf() && self.sandboxes.wf()
    }

    pub fn new() -> (r: Hub)
        ensures
            r.wf(),
            r@.client is None,
            r@.agents == Map::<Seq<char>, (u64, PromptState)>::empty(),
            r@.conns == Map::<u64, Seq<char>>::empty(),
            r@.store_doc == Seq::<(Seq<char>, JVal)>::empty(),
            r@.sandboxes == Seq::<ContainerV>::empty(),
    {
        let r = Hub {
            registry: ConnectionRegistry::new(),
            store: MessageStore::new(),
            sandboxes: SandboxList::new(),
        };
        proof {
            lemma_containers_view(r.sandboxes.items@);
            assert(containers_view(r.sandboxes.items@) =~= Seq::<ContainerV>::empty());
        }
        r
    }
}

/// A text member of a JSON object, if the value is an object and the
/// member is a string.
pub open spec fn field_str(msg: JVal, key: Seq<char>) -> Option<Seq<char>> {
    if msg is Obj && jobj_get(msg->Obj_0, key) matches Some(JVal::Str(s)) {
        Some(jobj_get(msg->Obj_0, key).unwrap()->Str_0)
    } else {
        None
    }
}

/// Reads a text member of an object message.
fn get_field_str<'a>(msg: &'a Json, key: &str) -> (r: Option<&'a String>)
    ensures
        match r {
            Some(s) => field_str(jview(*msg), key@) == Some(s@),
            None => field_str(jview(*msg), key@) is None,
        },
{
    match msg {
        Json::Obj(fields) => match obj_get(fields, key) {
            Some(Json::Str(s)) => Some(s),
            _ => None,
        },
        _ => None,
    }
}

// ---------------------------------------------------------------------------
// Fresh message ids.
// ---------------------------------------------------------------------------

/// Relies on `uuid::Uuid::new_v4`: a freshly drawn random identifier,
/// written in the crate's hyphenated text form, which is always 36
/// characters. Nothing is assumed about which identifier comes back.
#[verifier::external_body]
fn fresh_uuid() -> (r: String)
    ensures
        r@.len() == 36,
{
    uuid::Uuid::new_v4().to_string()
}

// ---------------------------------------------------------------------------
// Recent history (the prompt enrichment).
// ---------------------------------------------------------------------------

/// A payload that counts as an agent message for history purposes.
pub open spec fn has_agent_message(v: JVal) -> bool {
    v is Obj && jobj_get(v->Obj_0, "agent-message"@) is Some
}

/// The stored payloads under `ids`, in order, restricted to agent
/// messages.
pub open spec fn filtered_msgs(ids: Seq<Seq<char>>, m: Map<Seq<char>, JVal>) -> Seq<JVal>
    decreases ids.len(),
{
    if ids.len() == 0 {
        Seq::empty()
    } else {
        filtered_msgs(ids.drop_last(), m) + (if m.contains_key(ids.last()) && has_agent_message(
            m[ids.last()],
        ) {
            seq![m[ids.last()]]
        } else {
            Seq::empty()
        })
    }
}

/// The last `n` of those, still in chronological order.
pub open spec fn recent_msgs(ids: Seq<Seq<char>>, m: Map<Seq<char>, JVal>, n: int) -> Seq<JVal> {
    let f = filtered_msgs(ids, m);
    if f.len() > n {
        f.skip(f.len() - n)
    } else {
        f
    }
}

/// The index of the first record for this agent id, or the length.
pub open spec fn first_agent_idx(items: Seq<Container>, id: Seq<char>, k: int) -> int
    decreases items.len() - k,
{
    if k < 0 || k >= items.len() {
        items.len() as int
    } else if items[k].agent_id@ == id {
        k
    } else {
        first_agent_idx(items, id, k + 1)
    }
}

proof fn lemma_first_agent_idx(items: Seq<Container>, id: Seq<char>, k: int)
    requires
        0 <= k <= items.len(),
    ensures
        k <= first_agent_idx(items, id, k) <= items.len(),
        first_agent_idx(items, id, k) < items.len() ==> items[first_agent_idx(
            items,
            id,
            k,
        )].agent_id@ == id,
        forall|t: int| k <= t < first_agent_idx(items, id, k) ==> items[t].agent_id@ != id,
    decreases items.len() - k,
{
    if k < items.len() && !(items[k].agent_id@ == id) {
        lemma_first_agent_idx(items, id, k + 1);
    }
}

/// The message ids the first record for this agent holds; empty when there
/// is no record.
pub open spec fn agent_message_ids(items: Seq<Container>, id: Seq<char>) -> Seq<Seq<char>> {
    let idx = first_agent_idx(items, id, 0);
    if idx < items.len() {
        items[idx]@.message_ids
    } else {
        Seq::empty()
    }
}

/// At most `n` stored messages of this agent: those whose payload carries
/// an `agent-message` member, keeping the order of the sandbox's
/// message-id list, and of those the most recent `n`, oldest first.
pub fn get_recent_agent_messages(
    list: &SandboxList,
    store: &MessageStore,
    agent_id: &str,
    n: usize,
) -> (r: Vec<Json>)
    requires
        store.wf(),
    ensures
        jseq_view(r@) == recent_msgs(
            agent_message_ids(list.items@, agent_id@),
            store.map_view(),
            n as int,
        ),
        r@.len() <= n,
{
    proof {
        lemma_first_agent_idx(list.items@, agent_id@, 0);
    }
    let idx = list.find_agent(agent_id);
    let ghost gids = agent_message_ids(list.items@, agent_id@);
    let ghost m = store.map_view();
    let mut matched: Vec<Json> = Vec::new();
    if idx < list.items.len() {
        let ids = &list.items[idx].message_ids;
        proof {
            assert(first_agent_idx(list.items@, agent_id@, 0) == idx as int);
            crate::sandbox::lemma_ids_view(ids@);
            assert(gids =~= crate::sandbox::ids_view(ids@));
        }
        let cnt = ids.len();
        let mut k: usize = 0;
        while k < cnt
            invariant
                store.wf(),
                m == store.map_view(),
                cnt == ids@.len(),
                gids == crate::sandbox::ids_view(ids@),
                gids.len() == cnt,
                forall|t: int| 0 <= t < cnt ==> gids[t] == ids@[t]@,
                k <= cnt,
                jseq_view(matched@) == filtered_msgs(gids.take(k as int), m),
            decreases cnt - k,
        {
            let ghost matched0 = matched@;
            match store.get(ids[k].as_str()) {
                Some(payload) => {
                    let is_agent_msg = match payload {
                        Json::Obj(fields) => match obj_get(fields, "agent-message") {
                            Some(_) => true,
                            None => false,
                        },
                        _ => false,
                    };
                    if is_agent_msg {
                        let c = json_clone(payload);
                        matched.push(c);
                        proof {
                            crate::json::lemma_jseq_view_push(matched0, matched@.last());
                        }
                    }
                },
                None => {},
            }
            proof {
                assert(gids.take(k + 1).drop_last() =~= gids.take(k as int));
                assert(gids.take(k + 1).last() == gids[k as int]);
                assert(jseq_view(matched@) =~= filtered_msgs(gids.take(k + 1), m));
            }
            k = k + 1;
        }
        proof {
            assert(gids.take(cnt as int) =~= gids);
        }
    } else {
        proof {
            assert(gids =~= Seq::<Seq<char>>::empty());
            lemma_jseq_view(matched@);
            assert(jseq_view(matched@) =~= filtered_msgs(gids, m));
        }
    }
    let len = matched.len();
    proof {
        lemma_jseq_view(matched@);
    }
    if len > n {
        let ghost before = matched@;
        let out = matched.split_off(len - n);
        proof {
            lemma_jseq_view(out@);
            assert(jseq_view(out@) =~= jseq_view(before).skip(len - n));
        }
        out
    } else {
        matched
    }
}

/// A stored payload as handed back to the console: an object gets its own
/// id written in, anything else is returned bare.
pub open spec fn replayed_msg(v: JVal, mid: Seq<char>) -> JVal {
    if v is Obj {
        JVal::Obj(jobj_put(v->Obj_0, "message_id"@, JVal::Str(mid)))
    } else {
        v
    }
}

/// The whole stored history of one agent: each id on its sandbox record
/// that the store knows, in order, with the id written into the payload.
pub open spec fn replayed_msgs(ids: Seq<Seq<char>>, m: Map<Seq<char>, JVal>) -> Seq<JVal>
    decreases ids.len(),
{
    if ids.len() == 0 {
        Seq::empty()
    } else {
        replayed_msgs(ids.drop_last(), m) + (if m.contains_key(ids.last()) {
            seq![replayed_msg(m[ids.last()], ids.last())]
        } else {
            Seq::empty()
        })
    }
}

/// Every stored message of this agent, oldest first, each tagged with its
/// own message id.
pub fn get_agent_messages(list: &SandboxList, store: &MessageStore, agent_id: &str) -> (r: Vec<
    Json,
>)
    requires
        store.wf(),
    ensures
        jseq_view(r@) == replayed_msgs(
            agent_message_ids(list.items@, agent_id@),
            store.map_view(),
        ),
{
    proof {
        lemma_first_agent_idx(list.items@, agent_id@, 0);
    }
    let idx = list.find_agent(agent_id);
    let ghost gids = agent_message_ids(list.items@, agent_id@);
    let ghost m = store.map_view();
    let mut out: Vec<Json> = Vec::new();
    if idx < list.items.len() {
        let ids = &list.items[idx].message_ids;
        proof {
            assert(first_agent_idx(list.items@, agent_id@, 0) == idx as int);
            crate::sandbox::lemma_ids_view(ids@);
            assert(gids =~= crate::sandbox::ids_view(ids@));
        }
        let cnt = ids.len();
        let mut k: usize = 0;
        while k < cnt
            invariant
                store.wf(),
                m == store.map_view(),
                cnt == ids@.len(),
                gids == crate::sandbox::ids_view(ids@),
                gids.len() == cnt,
                forall|t: int| 0 <= t < cnt ==> gids[t] == ids@[t]@,
                k <= cnt,
                jseq_view(out@) == replayed_msgs(gids.take(k as int), m),
            decreases cnt - k,
        {
            let ghost out0 = out@;
            match store.get(ids[k].as_str()) {
                Some(payload) => {
                    let tagged = match json_clone(payload) {
                        Json::Obj(mut fields) => {
                            obj_put(&mut fields, "message_id".to_owned(), Json::Str(ids[k].clone()));
                            Json::Obj(fields)
                        },
                        other => other,
                    };
                    out.push(tagged);
                    proof {
                        crate::json::lemma_jseq_view_push(out0, out@.last());
                    }
                },
                None => {},
            }
            proof {
                assert(gids.take(k + 1).drop_last() =~= gids.take(k as int));
                assert(gids.take(k + 1).last() == gids[k as int]);
                assert(jseq_view(out@) =~= replayed_msgs(gids.take(k + 1), m));
            }
            k = k + 1;
        }
        proof {
            assert(gids.take(cnt as int) =~= gids);
        }
    } else {
        proof {
            assert(gids =~= Seq::<Seq<char>>::empty());
            lemma_jseq_view(out@);
            assert(jseq_view(out@) =~= replayed_msgs(gids, m));
        }
    }
    out
}

// ---------------------------------------------------------------------------
// Disconnects.
// ---------------------------------------------------------------------------

/// The status update the console gets when an agent's connection goes
/// away.
pub open spec fn status_na_jval(aid: Seq<char>) -> JVal {
    JVal::Obj(seq![("agent_id"@, JVal::Str(aid)), ("prompt_running"@, JVal::Str("na"@))])
}

/// What handling a disconnect does: exactly the change and the actions
/// `handle_disconnect` promises.
pub open spec fn disconnect_effect(pre: HubView, post: HubView, conn: u64, acts: Seq<ActionV>) -> bool {
    &&& post.client == pre.client
    &&& post.conns == pre.conns
    &&& post.store_doc == pre.store_doc
    &&& post.sandboxes == pre.sandboxes
    &&& if pre.conns.contains_key(conn) && pre.agents.contains_key(pre.conns[conn]) {
        let aid = pre.conns[conn];
        &&& post.agents == pre.agents.insert(aid, (pre.agents[aid].0, PromptState::Na))
        &&& acts == (match pre.client {
            Some(c) => seq![ActionV::SendToClient(c, enc(status_na_jval(aid)))],
            None => Seq::<ActionV>::empty(),
        })
    } else {
        &&& post.agents == pre.agents
        &&& acts == Seq::<ActionV>::empty()
    }
}

impl Hub {
    /// Notes that connection `conn` closed. If it had registered an agent
    /// still in the registry, that entry keeps its stale handle but its
    /// prompt state becomes `Na`, and the console — if one is registered —
    /// is told so. Nothing else changes, and nothing is persisted.
    pub fn handle_disconnect(&mut self, conn: u64) -> (acts: Vec<Action>)
        requires
            old(self).wf(),
        ensures
            final(self).wf(),
            disconnect_effect(old(self)@, final(self)@, conn, actions_view(acts@)),
    {
        let mut acts: Vec<Action> = Vec::new();
        proof {
            lemma_actions_view(acts@);
            assert(actions_view(acts@) =~= Seq::<ActionV>::empty());
        }
        match self.registry.mark_disconnected(conn) {
            Some(aid) => {
                match self.registry.get_client() {
                    Some(c) => {
                        let ghost gaid = aid@;
                        let mut fields: Vec<(String, Json)> = Vec::new();
                        fields.push(("agent_id".to_owned(), Json::Str(aid)));
                        fields.push(("prompt_running".to_owned(), jstr("na")));
                        let msg = Json::Obj(fields);
                        proof {
                            crate::json::lemma_jfields_view(msg->Obj_0@);
                            assert(jfields_view(msg->Obj_0@) =~= status_na_jval(gaid)->Obj_0);
                            assert(jview(msg) == status_na_jval(gaid));
                        }
                        let text = to_text(&msg);
                        acts.push(Action::SendToClient(c, text));
                        proof {
                            lemma_actions_view(acts@);
                            assert(actions_view(acts@) =~= seq![
                                ActionV::SendToClient(c, enc(status_na_jval(gaid))),
                            ]);
                        }
                    },
                    None => {},
                }
            },
            None => {},
        }
        acts
    }
}

// ---------------------------------------------------------------------------
// Registration frames.
// ---------------------------------------------------------------------------

/// The prompt state an agent's registration starts in: the one its frame
/// names, or `Stopped` when the member is absent or names no state.
pub open spec fn init_state(msg: JVal) -> PromptState {
    match field_str(msg, "prompt_running"@) {
        Some(ps) => match prompt_state_of_spec(ps) {
            Some(st) => st,
            None => PromptState::Stopped,
        },
        None => PromptState::Stopped,
    }
}

/// What handling a registration frame does.
pub open spec fn init_effect(pre: HubView, post: HubView, msg: JVal, conn: u64, acts: Seq<ActionV>) -> bool {
    &&& post.store_doc == pre.store_doc
    &&& post.sandboxes == pre.sandboxes
    &&& if field_str(msg, "connection-type"@) == Some("client"@) {
        &&& post.client == Some(conn)
        &&& post.agents == pre.agents
        &&& post.conns == pre.conns
        &&& acts == Seq::<ActionV>::empty()
    } else if field_str(msg, "connection-type"@) == Some("agent"@) && field_str(
        msg,
        "container_id"@,
    ) is Some {
        let aid = field_str(msg, "container_id"@).unwrap();
        &&& post.client == pre.client
        &&& post.agents == pre.agents.insert(aid, (conn, init_state(msg)))
        &&& post.conns == pre.conns.insert(conn, aid)
        &&& acts == (match pre.client {
            Some(c) => seq![ActionV::SendToClient(c, enc(msg))],
            None => Seq::<ActionV>::empty(),
        })
    } else {
        &&& post == pre
        &&& acts == Seq::<ActionV>::empty()
    }
}

impl Hub {
    /// Handles a registration frame. A console registration replaces the
    /// previous console connection and answers nothing. An agent
    /// registration — a frame that names the agent's id — replaces that
    /// agent's entry, remembers which agent this connection is, and is
    /// forwarded verbatim to the console if one is registered. Anything
    /// else changes nothing. Nothing is persisted.
    pub fn handle_init(&mut self, conn: u64, msg: &Json) -> (acts: Vec<Action>)
        requires
            old(self).wf(),
        ensures
            final(self).wf(),
            init_effect(old(self)@, final(self)@, jview(*msg), conn, actions_view(acts@)),
    {
        let mut acts: Vec<Action> = Vec::new();
        proof {
            lemma_actions_view(acts@);
            assert(actions_view(acts@) =~= Seq::<ActionV>::empty());
        }
        let ct = match get_field_str(msg, "connection-type") {
            Some(ct) => ct,
            None => {
                return acts;
            },
        };
        if str_eq(ct.as_str(), "client") {
            self.registry.register_client(conn);
            return acts;
        }
        if !str_eq(ct.as_str(), "agent") {
            return acts;
        }
        let aid = match get_field_str(msg, "container_id") {
            Some(aid) => aid.clone(),
            None => {
                return acts;
            },
        };
        let st = match get_field_str(msg, "prompt_running") {
            Some(ps) => match prompt_state_of(ps.as_str()) {
                Some(st) => st,
                None => PromptState::Stopped,
            },
            None => PromptState::Stopped,
        };
        let client = self.registry.get_client();
        self.registry.register_agent(aid, conn, st);
        match client {
            Some(c) => {
                let text = to_text(msg);
                acts.push(Action::SendToClient(c, text));
                proof {
                    lemma_actions_view(acts@);
                    assert(actions_view(acts@) =~= seq![
                        ActionV::SendToClient(c, enc(jview(*msg))),
                    ]);
                }
            },
            None => {},
        }
        acts
    }
}

// ---------------------------------------------------------------------------
// Storing and forwarding one message.
// ---------------------------------------------------------------------------

impl Hub {
    /// Stores `payload` under `message_id`, forwards it to the console if
    /// one is registered, appends the id to the agent's sandbox record if
    /// there is one, and asks for both documents to be rewritten — the
    /// sandbox document only when a record changed. The registry is not
    /// touched.
    pub fn process_message(&mut self, message_id: String, payload: Json, agent_id: &str) -> (acts:
        Vec<Action>)
        requires
            old(self).wf(),
        ensures
            final(self).wf(),
            final(self).registry == old(self).registry,
            ({
                let pre = old(self)@;
                let post = final(self)@;
                let fidx = first_agent_idx_v(pre.sandboxes, agent_id@, 0);
                &&& post.store_doc == jobj_put(pre.store_doc, message_id@, jview(payload))
                &&& post.sandboxes == (if fidx < pre.sandboxes.len() {
                    push_mid_v(pre.sandboxes, fidx, message_id@)
                } else {
                    pre.sandboxes
                })
                &&& actions_view(acts@) == (match pre.client {
                    Some(c) => seq![ActionV::SendToClient(c, enc(jview(payload)))],
                    None => Seq::<ActionV>::empty(),
                }) + seq![ActionV::PersistMessages(enc(JVal::Obj(post.store_doc)))] + (if fidx
                    < pre.sandboxes.len() {
                    seq![
                        ActionV::PersistSandboxes(enc(JVal::Arr(containers_jvals_v(post.sandboxes)))),
                    ]
                } else {
                    Seq::<ActionV>::empty()
                })
            }),
    {
        let ghost pre_sb = containers_view(old(self).sandboxes.items@);
        proof {
            lemma_containers_view(old(self).sandboxes.items@);
        }
        let mut acts: Vec<Action> = Vec::new();
        match self.registry.get_client() {
            Some(c) => {
                let text = to_text(&payload);
                acts.push(Action::SendToClient(c, text));
            },
            None => {},
        }
        self.store.insert(message_id.clone(), payload);
        let doc = self.store.to_document();
        acts.push(Action::PersistMessages(doc));
        let found = self.sandboxes.push_message_id(agent_id, message_id);
        if found {
            let doc2 = containers_to_document(&self.sandboxes);
            proof {
                lemma_containers_jvals_agree(self.sandboxes.items@);
            }
            acts.push(Action::PersistSandboxes(doc2));
        }
        proof {
            lemma_actions_view(acts@);
            let pre = old(self)@;
            let post = final(self)@;
            let fidx = first_agent_idx_v(pre.sandboxes, agent_id@, 0);
            assert(pre.sandboxes.len() == old(self).sandboxes.items@.len());
            if found {
                assert(fidx < pre.sandboxes.len());
            } else {
                assert(!(fidx < pre.sandboxes.len()));
            }
            assert(acts@.len() == (if pre.client is Some { 1int } else { 0int }) + 1 + (if fidx
                < pre.sandboxes.len() {
                1int
            } else {
                0int
            }));
            assert(actions_view(acts@) =~= (match pre.client {
                Some(c) => seq![ActionV::SendToClient(c, enc(jview(payload)))],
                None => Seq::<ActionV>::empty(),
            }) + seq![ActionV::PersistMessages(enc(JVal::Obj(post.store_doc)))] + (if fidx
                < pre.sandboxes.len() {
                seq![
                    ActionV::PersistSandboxes(enc(JVal::Arr(containers_jvals_v(post.sandboxes)))),
                ]
            } else {
                Seq::<ActionV>::empty()
            }));
        }
        acts
    }
}

// ---------------------------------------------------------------------------
// Frames from an agent.
// ---------------------------------------------------------------------------

/// An agent payload tagged with its sender and a fresh message id; a
/// payload that is not an object is passed through bare.
pub open spec fn tagged_payload(msg: JVal, aid: Seq<char>, mid: Seq<char>) -> JVal {
    if msg is Obj {
        JVal::Obj(
            jobj_put(jobj_put(msg->Obj_0, "agent_id"@, JVal::Str(aid)), "message_id"@, JVal::Str(mid)),
        )
    } else {
        msg
    }
}

/// The prompt state a frame reports, when it is one of the four known
/// names.
pub open spec fn reported_state(msg: JVal) -> Option<PromptState> {
    match field_str(msg, "prompt_running"@) {
        Some(ps) => prompt_state_of_spec(ps),
        None => None,
    }
}

/// What handling an agent's payload frame does.
pub open spec fn agent_message_effect(
    pre: HubView,
    post: HubView,
    msg: JVal,
    conn: u64,
    mid: Seq<char>,
    acts: Seq<ActionV>,
) -> bool {
    &&& post.client == pre.client
    &&& post.conns == pre.conns
    &&& if pre.conns.contains_key(conn) {
        let aid = pre.conns[conn];
        let tagged = tagged_payload(msg, aid, mid);
        let fidx = first_agent_idx_v(pre.sandboxes, aid, 0);
        &&& post.agents == (match reported_state(msg) {
            Some(st) => if pre.agents.contains_key(aid) {
                pre.agents.insert(aid, (pre.agents[aid].0, st))
            } else {
                pre.agents
            },
            None => pre.agents,
        })
        &&& post.store_doc == jobj_put(pre.store_doc, mid, tagged)
        &&& post.sandboxes == (if fidx < pre.sandboxes.len() {
            push_mid_v(pre.sandboxes, fidx, mid)
        } else {
            pre.sandboxes
        })
        &&& acts == (match pre.client {
            Some(c) => seq![ActionV::SendToClient(c, enc(tagged))],
            None => Seq::<ActionV>::empty(),
        }) + seq![ActionV::PersistMessages(enc(JVal::Obj(post.store_doc)))] + (if fidx
            < pre.sandboxes.len() {
            seq![ActionV::PersistSandboxes(enc(JVal::Arr(containers_jvals_v(post.sandboxes))))]
        } else {
            Seq::<ActionV>::empty()
        })
    } else {
        &&& post == pre
        &&& acts == Seq::<ActionV>::empty()
    }
}

impl Hub {
    /// Handles a payload frame from an agent connection. If the connection
    /// never registered an agent, the frame is dropped. Otherwise the
    /// payload is tagged with the agent's id and the given fresh message
    /// id; a reported prompt state updates the agent's registry entry; and
    /// the tagged payload is stored, forwarded to the console, and
    /// persisted, as `process_message` says.
    pub fn handle_agent_message(&mut self, conn: u64, msg: Json, message_id: String) -> (acts: Vec<
        Action,
    >)
        requires
            old(self).wf(),
        ensures
            final(self).wf(),
            agent_message_effect(
                old(self)@,
                final(self)@,
                jview(msg),
                conn,
                message_id@,
                actions_view(acts@),
            ),
    {
        let aid = match self.registry.agent_for_conn(conn) {
            Some(aid) => aid,
            None => {
                let acts: Vec<Action> = Vec::new();
                proof {
                    lemma_actions_view(acts@);
                    assert(actions_view(acts@) =~= Seq::<ActionV>::empty());
                }
                return acts;
            },
        };
        let st_opt = match get_field_str(&msg, "prompt_running") {
            Some(ps) => prompt_state_of(ps.as_str()),
            None => None,
        };
        let tagged: Json = match msg {
            Json::Obj(mut fields) => {
                obj_put(&mut fields, "agent_id".to_owned(), jstr(aid.as_str()));
                obj_put(&mut fields, "message_id".to_owned(), Json::Str(message_id.clone()));
                Json::Obj(fields)
            },
            other => other,
        };
        match st_opt {
            Some(st) => {
                let _ = self.registry.set_prompt_running(aid.as_str(), st);
            },
            None => {},
        }
        self.process_message(message_id, tagged, aid.as_str())
    }
}

// ---------------------------------------------------------------------------
// Frames from the console: prompts and stops.
// ---------------------------------------------------------------------------

/// One transport chunk of a long frame, as sent to the agent.
pub open spec fn chunk_env_jval(mid: Seq<char>, idx: int, total: int, data: Seq<char>) -> JVal {
    JVal::Obj(
        seq![
            ("message_id"@, JVal::Str(mid)),
            ("chunk"@, JVal::Num(idx)),
            ("total_chunks"@, JVal::Num(total)),
            ("data"@, JVal::Str(data)),
        ],
    )
}

/// The sends that deliver `chunks[k..]` to handle `h`, in index order.
pub open spec fn chunk_actions(h: u64, mid: Seq<char>, chunks: Seq<Seq<char>>, k: int) -> Seq<
    ActionV,
>
    decreases chunks.len() - k,
{
    if k < 0 || k >= chunks.len() {
        Seq::empty()
    } else {
        seq![
            ActionV::SendToAgent(h, enc(chunk_env_jval(mid, k, chunks.len() as int, chunks[k]))),
        ] + chunk_actions(h, mid, chunks, k + 1)
    }
}

/// The message ids of the first record view for this agent; empty without
/// one.
pub open spec fn agent_message_ids_v(sb: Seq<ContainerV>, id: Seq<char>) -> Seq<Seq<char>> {
    let idx = first_agent_idx_v(sb, id, 0);
    if idx < sb.len() {
        sb[idx].message_ids
    } else {
        Seq::empty()
    }
}

/// The stored system prompt of the first record view for this agent.
pub open spec fn agent_system_prompt_v(sb: Seq<ContainerV>, id: Seq<char>) -> Option<Seq<char>> {
    let idx = first_agent_idx_v(sb, id, 0);
    if idx < sb.len() {
        Some(sb[idx].system_prompt)
    } else {
        None
    }
}

proof fn lemma_agent_idx_agree(items: Seq<Container>, id: Seq<char>, k: int)
    requires
        0 <= k,
    ensures
        first_agent_idx(items, id, k) == first_agent_idx_v(containers_view(items), id, k),
    decreases items.len() - k,
{
    lemma_containers_view(items);
    if k < items.len() && !(items[k].agent_id@ == id) {
        lemma_agent_idx_agree(items, id, k + 1);
    }
}

/// The payload forwarded to the agent: the console's frame, enriched — for
/// a prompt — with the recent history and the sandbox's stored system
/// prompt, and tagged with a fresh message id.
pub open spec fn augmented_fields(
    msg_fields: Seq<(Seq<char>, JVal)>,
    is_prompt: bool,
    recent: Seq<JVal>,
    sys: Option<Seq<char>>,
    mid: Seq<char>,
) -> Seq<(Seq<char>, JVal)> {
    let f1 = if is_prompt {
        jobj_put(msg_fields, "recent-messages"@, JVal::Arr(recent))
    } else {
        msg_fields
    };
    let f2 = if is_prompt && sys is Some {
        jobj_put(f1, "additional_system_prompt"@, JVal::Str(sys.unwrap()))
    } else {
        f1
    };
    jobj_put(f2, "message_id"@, JVal::Str(mid))
}

/// The payload persisted and forwarded to the console: the frame without
/// any attachments, tagged with its own fresh message id.
pub open spec fn stored_fields(msg_fields: Seq<(Seq<char>, JVal)>, mid: Seq<char>) -> Seq<
    (Seq<char>, JVal),
> {
    jobj_put(jobj_remove(msg_fields, "files"@), "message_id"@, JVal::Str(mid))
}

/// The member list of an object message, copied.
fn clone_obj_fields(msg: &Json) -> (r: Option<Vec<(String, Json)>>)
    ensures
        match r {
            Some(f) => jview(*msg) is Obj && jfields_view(f@) == jview(*msg)->Obj_0,
            None => !(jview(*msg) is Obj),
        },
{
    match json_clone(msg) {
        Json::Obj(f) => Some(f),
        _ => None,
    }
}

/// What handling a console frame does.
pub open spec fn client_message_effect(
    pre: HubView,
    post: HubView,
    msg: JVal,
    is_prompt: bool,
    agent_mid: Seq<char>,
    store_mid: Seq<char>,
    acts: Seq<ActionV>,
) -> bool {
    &&& post.client == pre.client
    &&& post.conns == pre.conns
    &&& if field_str(msg, "agent_id"@) is Some {
        let aid = field_str(msg, "agent_id"@).unwrap();
        let msg_fields = msg->Obj_0;
        let stored = JVal::Obj(stored_fields(msg_fields, store_mid));
        let fidx = first_agent_idx_v(pre.sandboxes, aid, 0);
        let storage_acts = (match pre.client {
            Some(c) => seq![ActionV::SendToClient(c, enc(stored))],
            None => Seq::<ActionV>::empty(),
        }) + seq![ActionV::PersistMessages(enc(JVal::Obj(post.store_doc)))] + (if fidx
            < pre.sandboxes.len() {
            seq![ActionV::PersistSandboxes(enc(JVal::Arr(containers_jvals_v(post.sandboxes))))]
        } else {
            Seq::<ActionV>::empty()
        });
        &&& post.store_doc == jobj_put(pre.store_doc, store_mid, stored)
        &&& post.sandboxes == (if fidx < pre.sandboxes.len() {
            push_mid_v(pre.sandboxes, fidx, store_mid)
        } else {
            pre.sandboxes
        })
        &&& if pre.agents.contains_key(aid) {
            let h = pre.agents[aid].0;
            let recent = recent_msgs(
                agent_message_ids_v(pre.sandboxes, aid),
                crate::store::map_of(pre.store_doc),
                RECENT_MESSAGE_COUNT as int,
            );
            let sys = agent_system_prompt_v(pre.sandboxes, aid);
            let aug = JVal::Obj(augmented_fields(msg_fields, is_prompt, recent, sys, agent_mid));
            &&& post.agents == pre.agents.insert(aid, (pre.agents[aid].0, PromptState::Running))
            &&& exists|chunks: Seq<Seq<char>>|
                {
                    &&& #[trigger] is_chunking(chunks, enc(aug), CHUNK_WINDOW as int)
                    &&& (chunks.len() <= i64::MAX ==> acts == chunk_actions(
                        h,
                        agent_mid,
                        chunks,
                        0,
                    ) + storage_acts)
                    &&& (chunks.len() > i64::MAX ==> acts == storage_acts)
                }
        } else {
            &&& post.agents == pre.agents
            &&& acts == storage_acts
        }
    } else {
        &&& post == pre
        &&& acts == Seq::<ActionV>::empty()
    }
}

impl Hub {
    /// Handles a console frame aimed at one agent: a prompt (with history
    /// injection) or a stop (without). The frame must name its agent; one
    /// that does not is dropped. If the agent has a registered connection,
    /// its prompt state is set to `Running` and the augmented payload is
    /// sent to it in byte-bounded chunks, in index order. Whether or not
    /// it has one, the frame — stripped of attachments and tagged with its
    /// own fresh id — is stored, forwarded to the console, and persisted,
    /// as `process_message` says.
    pub fn handle_client_message(
        &mut self,
        msg: &Json,
        is_prompt: bool,
        agent_msg_id: String,
        store_msg_id: String,
    ) -> (acts: Vec<Action>)
        requires
            old(self).wf(),
        ensures
            final(self).wf(),
            client_message_effect(
                old(self)@,
                final(self)@,
                jview(*msg),
                is_prompt,
                agent_msg_id@,
                store_msg_id@,
                actions_view(acts@),
            ),
    {
        let mut acts: Vec<Action> = Vec::new();
        proof {
            lemma_actions_view(acts@);
            assert(actions_view(acts@) =~= Seq::<ActionV>::empty());
        }
        let aid = match get_field_str(msg, "agent_id") {
            Some(a) => a.clone(),
            None => {
                return acts;
            },
        };
        let ghost mut g_chunks: Seq<Seq<char>> = Seq::empty();
        let ghost mut g_aug: JVal = JVal::Null;
        let agent = self.registry.get_agent(aid.as_str());
        match agent {
            Some((h, _)) => {
                let _ = self.registry.set_prompt_running(aid.as_str(), PromptState::Running);
                let mut aug_fields = match clone_obj_fields(msg) {
                    Some(f) => f,
                    None => {
                        // a frame that named its agent id is an object
                        proof {
                            assert(false);
                        }
                        return acts;
                    },
                };
                if is_prompt {
                    let recent = get_recent_agent_messages(
                        &self.sandboxes,
                        &self.store,
                        aid.as_str(),
                        RECENT_MESSAGE_COUNT,
                    );
                    proof {
                        lemma_agent_idx_agree(self.sandboxes.items@, aid@, 0);
                        lemma_containers_view(self.sandboxes.items@);
                        lemma_first_agent_idx_v(containers_view(self.sandboxes.items@), aid@, 0);
                        crate::sandbox::lemma_ids_view(Seq::<String>::empty());
                        if first_agent_idx(self.sandboxes.items@, aid@, 0)
                            < self.sandboxes.items@.len() {
                            assert(agent_message_ids(self.sandboxes.items@, aid@)
                                == agent_message_ids_v(containers_view(self.sandboxes.items@), aid@));
                        } else {
                            assert(agent_message_ids(self.sandboxes.items@, aid@)
                                =~= agent_message_ids_v(
                                containers_view(self.sandboxes.items@),
                                aid@,
                            ));
                        }
                    }
                    obj_put(&mut aug_fields, "recent-messages".to_owned(), Json::Arr(recent));
                    let cidx = self.sandboxes.find_agent(aid.as_str());
                    proof {
                        lemma_first_agent_idx(self.sandboxes.items@, aid@, 0);
                        let fi = first_agent_idx(self.sandboxes.items@, aid@, 0);
                        if cidx < self.sandboxes.items@.len() {
                            assert(fi == cidx as int) by {
                                if fi < cidx as int {
                                    assert(self.sandboxes.items@[fi].agent_id@ != aid@);
                                }
                                if fi > cidx as int {
                                    assert(self.sandboxes.items@[cidx as int].agent_id@ != aid@);
                                }
                            }
                        } else {
                            assert(fi == self.sandboxes.items@.len()) by {
                                if fi < self.sandboxes.items@.len() {
                                    assert(self.sandboxes.items@[fi].agent_id@ != aid@);
                                }
                            }
                        }
                    }
                    if cidx < self.sandboxes.items.len() {
                        obj_put(
                            &mut aug_fields,
                            "additional_system_prompt".to_owned(),
                            Json::Str(self.sandboxes.items[cidx].system_prompt.clone()),
                        );
                    }
                }
                obj_put(&mut aug_fields, "message_id".to_owned(), Json::Str(agent_msg_id.clone()));
                let aug = Json::Obj(aug_fields);
                proof {
                    g_aug = jview(aug);
                }
                let text = to_text(&aug);
                let chunks = chunk_text(&text, CHUNK_WINDOW);
                let ghost gchunks = crate::chunk::chunk_views(chunks@);
                proof {
                    crate::chunk::lemma_chunk_views(chunks@);
                    g_chunks = gchunks;
                }
                let total = chunks.len();
                // the envelope numbers its chunks with 64-bit integers; a
                // count beyond them cannot be framed, so nothing is sent
                if (total as u64) <= 0x7fff_ffff_ffff_ffffu64 {
                    let mut i: usize = 0;
                    while i < total
                        invariant
                            total == chunks@.len(),
                            total <= i64::MAX,
                            gchunks == crate::chunk::chunk_views(chunks@),
                            gchunks.len() == total,
                            forall|t: int| 0 <= t < total ==> gchunks[t] == chunks@[t]@,
                            i <= total,
                            actions_view(acts@) + chunk_actions(h, agent_msg_id@, gchunks, i as int)
                                == chunk_actions(h, agent_msg_id@, gchunks, 0),
                        decreases total - i,
                    {
                        let mut env: Vec<(String, Json)> = Vec::new();
                        env.push(("message_id".to_owned(), Json::Str(agent_msg_id.clone())));
                        env.push(("chunk".to_owned(), Json::Num(i as i64)));
                        env.push(("total_chunks".to_owned(), Json::Num(total as i64)));
                        env.push(("data".to_owned(), Json::Str(chars_to_string(&chunks[i]))));
                        let envj = Json::Obj(env);
                        proof {
                            crate::json::lemma_jfields_view(envj->Obj_0@);
                            assert(jfields_view(envj->Obj_0@) =~= chunk_env_jval(
                                agent_msg_id@,
                                i as int,
                                total as int,
                                gchunks[i as int],
                            )->Obj_0);
                            assert(jview(envj) == chunk_env_jval(
                                agent_msg_id@,
                                i as int,
                                total as int,
                                gchunks[i as int],
                            ));
                        }
                        let etext = to_text(&envj);
                        let ghost acts0 = acts@;
                        acts.push(Action::SendToAgent(h, etext));
                        proof {
                            lemma_actions_view(acts@);
                            lemma_actions_view(acts0);
                            assert(actions_view(acts@) =~= actions_view(acts0).push(
                                acts@.last()@,
                            ));
                            assert(actions_view(acts@) + chunk_actions(
                                h,
                                agent_msg_id@,
                                gchunks,
                                i + 1,
                            ) =~= chunk_actions(h, agent_msg_id@, gchunks, 0));
                        }
                        i = i + 1;
                    }
                    proof {
                        assert(chunk_actions(h, agent_msg_id@, gchunks, total as int)
                            =~= Seq::<ActionV>::empty());
                        assert(actions_view(acts@) + Seq::<ActionV>::empty() =~= actions_view(
                            acts@,
                        ));
                        assert(actions_view(acts@) == chunk_actions(h, agent_msg_id@, gchunks, 0));
                    }
                }
                proof {
                    assert(gchunks.len() <= i64::MAX ==> actions_view(acts@) == chunk_actions(
                        h,
                        agent_msg_id@,
                        gchunks,
                        0,
                    ));
                }
            },
            None => {},
        }
        // storage and forwarding, whether or not the agent is connected
        let mut sfields = match clone_obj_fields(msg) {
            Some(f) => f,
            None => {
                // a frame that named its agent id is an object
                proof {
                    assert(false);
                }
                return acts;
            },
        };
        obj_remove(&mut sfields, "files");
        obj_put(&mut sfields, "message_id".to_owned(), Json::Str(store_msg_id.clone()));
        let stored = Json::Obj(sfields);
        let ghost g_stored = jview(stored);
        let ghost mid_state = self@;
        let mut sacts = self.process_message(store_msg_id, stored, aid.as_str());
        let ghost before = acts@;
        let ghost sview = actions_view(sacts@);
        proof {
            lemma_actions_view(sacts@);
        }
        acts.append(&mut sacts);
        proof {
            lemma_actions_view(acts@);
            lemma_actions_view(before);
            assert(actions_view(acts@) =~= actions_view(before) + sview);
        }
        proof {
            let pre = old(self)@;
            let post = final(self)@;
            let gaid = field_str(jview(*msg), "agent_id"@).unwrap();
            assert(aid@ == gaid);
            let msg_fields = jview(*msg)->Obj_0;
            let stored_spec = JVal::Obj(stored_fields(msg_fields, store_msg_id@));
            assert(g_stored == stored_spec);
            assert(post.store_doc == jobj_put(pre.store_doc, store_msg_id@, stored_spec));
            let fidx = first_agent_idx_v(pre.sandboxes, gaid, 0);
            assert(mid_state.sandboxes == pre.sandboxes);
            assert(mid_state.store_doc == pre.store_doc);
            assert(mid_state.client == pre.client);
            assert(post.sandboxes == (if fidx < pre.sandboxes.len() {
                push_mid_v(pre.sandboxes, fidx, store_msg_id@)
            } else {
                pre.sandboxes
            }));
            let storage_acts = (match pre.client {
                Some(c) => seq![ActionV::SendToClient(c, enc(stored_spec))],
                None => Seq::<ActionV>::empty(),
            }) + seq![ActionV::PersistMessages(enc(JVal::Obj(post.store_doc)))] + (if fidx
                < pre.sandboxes.len() {
                seq![
                    ActionV::PersistSandboxes(enc(JVal::Arr(containers_jvals_v(post.sandboxes)))),
                ]
            } else {
                Seq::<ActionV>::empty()
            });
            assert(sview == storage_acts);
            if agent is Some {
                assert(pre.agents.contains_key(gaid));
                let hh = pre.agents[gaid].0;
                assert(post.agents == pre.agents.insert(gaid, (hh, PromptState::Running)));
                let recent = recent_msgs(
                    agent_message_ids_v(pre.sandboxes, gaid),
                    crate::store::map_of(pre.store_doc),
                    RECENT_MESSAGE_COUNT as int,
                );
                let sys = agent_system_prompt_v(pre.sandboxes, gaid);
                assert(g_aug == JVal::Obj(
                    augmented_fields(msg_fields, is_prompt, recent, sys, agent_msg_id@),
                ));
                assert(is_chunking(g_chunks, enc(g_aug), CHUNK_WINDOW as int));
                if g_chunks.len() <= i64::MAX {
                    assert(actions_view(before) == chunk_actions(hh, agent_msg_id@, g_chunks, 0));
                    assert(actions_view(acts@) == chunk_actions(hh, agent_msg_id@, g_chunks, 0)
                        + storage_acts);
                } else {
                    assert(actions_view(before) =~= Seq::<ActionV>::empty());
                    assert(actions_view(acts@) =~= storage_acts);
                }
            } else {
                assert(post.agents == pre.agents);
                assert(actions_view(before) =~= Seq::<ActionV>::empty());
                assert(actions_view(acts@) =~= storage_acts);
            }
        }
        acts
    }
}

// ---------------------------------------------------------------------------
// One inbound frame, end to end.
// ---------------------------------------------------------------------------

impl Hub {
    /// Handles one raw inbound frame. The text is parsed as JSON and
    /// dispatched on its `message-type`: registrations, agent payloads,
    /// prompts and stops go to their handlers, with freshly drawn message
    /// ids where one is needed; anything else — unparsable text, a
    /// non-object, a missing or unknown type — is dropped without a trace.
    pub fn handle_frame(&mut self, conn: u64, frame: &Vec<char>) -> (acts: Vec<Action>)
        requires
            old(self).wf(),
        ensures
            final(self).wf(),
            ({
                let pre = old(self)@;
                let post = final(self)@;
                match sp_doc(frame@) {
                    Some(m) => {
                        if field_str(m, "message-type"@) == Some("init"@) {
                            init_effect(pre, post, m, conn, actions_view(acts@))
                        } else if field_str(m, "message-type"@) == Some("message"@) {
                            exists|mid: Seq<char>|
                                #[trigger] agent_message_effect(
                                    pre,
                                    post,
                                    m,
                                    conn,
                                    mid,
                                    actions_view(acts@),
                                )
                        } else if field_str(m, "message-type"@) == Some("prompt"@) {
                            exists|amid: Seq<char>, smid: Seq<char>|
                                #[trigger] client_message_effect(
                                    pre,
                                    post,
                                    m,
                                    true,
                                    amid,
                                    smid,
                                    actions_view(acts@),
                                )
                        } else if field_str(m, "message-type"@) == Some("stop"@) {
                            exists|amid: Seq<char>, smid: Seq<char>|
                                #[trigger] client_message_effect(
                                    pre,
                                    post,
                                    m,
                                    false,
                                    amid,
                                    smid,
                                    actions_view(acts@),
                                )
                        } else {
                            post == pre && actions_view(acts@) == Seq::<ActionV>::empty()
                        }
                    },
                    None => post == pre && actions_view(acts@) == Seq::<ActionV>::empty(),
                }
            }),
    {
        let msg = match from_text(frame.as_slice()) {
            Some(m) => m,
            None => {
                let acts: Vec<Action> = Vec::new();
                proof {
                    lemma_actions_view(acts@);
                    assert(actions_view(acts@) =~= Seq::<ActionV>::empty());
                }
                return acts;
            },
        };
        let mt = match get_field_str(&msg, "message-type") {
            Some(mt) => mt,
            None => {
                let acts: Vec<Action> = Vec::new();
                proof {
                    lemma_actions_view(acts@);
                    assert(actions_view(acts@) =~= Seq::<ActionV>::empty());
                }
                return acts;
            },
        };
        if str_eq(mt.as_str(), "init") {
            self.handle_init(conn, &msg)
        } else if str_eq(mt.as_str(), "message") {
            let mid = fresh_uuid();
            let ghost gmid = mid@;
            let acts = self.handle_agent_message(conn, msg, mid);
            proof {
                assert(agent_message_effect(
                    old(self)@,
                    final(self)@,
                    sp_doc(frame@).unwrap(),
                    conn,
                    gmid,
                    actions_view(acts@),
                ));
            }
            acts
        } else if str_eq(mt.as_str(), "prompt") {
            let amid = fresh_uuid();
            let smid = fresh_uuid();
            let ghost gamid = amid@;
            let ghost gsmid = smid@;
            let acts = self.handle_client_message(&msg, true, amid, smid);
            proof {
                assert(client_message_effect(
                    old(self)@,
                    final(self)@,
                    sp_doc(frame@).unwrap(),
                    true,
                    gamid,
                    gsmid,
                    actions_view(acts@),
                ));
            }
            acts
        } else if str_eq(mt.as_str(), "stop") {
            let amid = fresh_uuid();
            let smid = fresh_uuid();
            let ghost gamid = amid@;
            let ghost gsmid = smid@;
            let acts = self.handle_client_message(&msg, false, amid, smid);
            proof {
                assert(client_message_effect(
                    old(self)@,
                    final(self)@,
                    sp_doc(frame@).unwrap(),
                    false,
                    gamid,
                    gsmid,
                    actions_view(acts@),
                ));
            }
            acts
        } else {
            let acts: Vec<Action> = Vec::new();
            proof {
                lemma_actions_view(acts@);
                assert(actions_view(acts@) =~= Seq::<ActionV>::empty());
            }
            acts
        }
    }
}

} // verus!
