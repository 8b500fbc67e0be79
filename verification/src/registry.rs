//! The connection registry: the single console (client) connection and the
//! set of agent connections, keyed by agent id. A new registration for an
//! agent id replaces the old entry; a disconnect only flips the entry's
//! prompt state to `Na` and keeps the stale transport handle.

use vstd::prelude::*;

verus! {

use crate::json::str_eq;

/// What an agent connection reports about its prompt.
#[derive(Clone, Copy, Debug, PartialEq, Eq, Structural)]
pub enum PromptState {
    Stopped,
    Running,
    Loading,
    Na,
}

/// The wire name of a prompt state.
pub open spec fn prompt_state_name_spec(st: PromptState) -> Seq<char> {
    match st {
        PromptState::Stopped => "stopped"@,
        PromptState::Running => "running"@,
        PromptState::Loading => "loading"@,
        PromptState::Na => "na"@,
    }
}

pub fn prompt_state_name(st: PromptState) -> (r: &'static str)
    ensures
        r@ == prompt_state_name_spec(st),
{
    match st {
        PromptState::Stopped => "stopped",
        PromptState::Running => "running",
        PromptState::Loading => "loading",
        PromptState::Na => "na",
    }
}

/// The prompt state a wire name stands for.
pub open spec fn prompt_state_of_spec(s: Seq<char>) -> Option<PromptState> {
    if s == "stopped"@ {
        Some(PromptState::Stopped)
    } else if s == "running"@ {
        Some(PromptState::Running)
    } else if s == "loading"@ {
        Some(PromptState::Loading)
    } else if s == "na"@ {
        Some(PromptState::Na)
    } else {
        None
    }
}

pub fn prompt_state_of(s: &str) -> (r: Option<PromptState>)
    ensures
        r == prompt_state_of_spec(s@),
{
    if str_eq(s, "stopped") {
        Some(PromptState::Stopped)
    } else if str_eq(s, "running") {
        Some(PromptState::Running)
    } else if str_eq(s, "loading") {
        Some(PromptState::Loading)
    } else if str_eq(s, "na") {
        Some(PromptState::Na)
    } else {
        None
    }
}

/// One registered agent connection.
pub struct ConnectionInfo {
    pub agent_id: String,
    pub conn: u64,
    pub prompt_running: PromptState,
}

/// The registry of live (and retained stale) connections.
pub struct ConnectionRegistry {
    pub client: Option<u64>,
    pub agents: Vec<ConnectionInfo>,
    pub conn_agent: Vec<(u64, String)>,
}

/// The agent map a list of entries stands for: later entries win.
pub open spec fn agents_map(s: Seq<ConnectionInfo>) -> Map<Seq<char>, (u64, PromptState)>
    decreases s.len(),
{
    if s.len() == 0 {
        Map::empty()
    } else {
        agents_map(s.drop_last()).insert(
            s.last().agent_id@,
            (s.last().conn, s.last().prompt_running),
        )
    }
}

/// The connection-to-agent map a list of pairs stands for: later pairs win.
pub open spec fn conn_map(s: Seq<(u64, String)>) -> Map<u64, Seq<char>>
    decreases s.len(),
{
    if s.len() == 0 {
        Map::empty()
    } else {
        conn_map(s.drop_last()).insert(s.last().0, s.last().1@)
    }
}

impl ConnectionRegistry {
    /// The registered agents, as a map from agent id to transport handle and
    /// prompt state.
    pub open spec fn agents_view(&self) -> Map<Seq<char>, (u64, PromptState)> {
        agents_map(self.agents@)
    }

    /// Which agent each connection id registered for.
    pub open spec fn conn_view(&self) -> Map<u64, Seq<char>> {
        conn_map(self.conn_agent@)
    }

    /// Each agent id and each connection id occurs at most once.
    pub open spec fn wf(&self) -> bool {
        (forall|a: int, b: int|
            0 <= a < b < self.agents@.len() ==> self.agents@[a].agent_id@ != self.agents@[
                b
            ].agent_id@) && (forall|a: int, b: int|
            0 <= a < b < self.conn_agent@.len() ==> self.conn_agent@[a].0 != self.conn_agent@[b].0)
    }

    pub fn new() -> (r: ConnectionRegistry)
        ensures
            r.wf(),
            r.client is None,
            r.agents_view() == Map::<Seq<char>, (u64, PromptState)>::empty(),
            r.conn_view() == Map::<u64, Seq<char>>::empty(),
    {
        ConnectionRegistry { client: None, agents: Vec::new(), conn_agent: Vec::new() }
    }

    /// Registers the console connection; the last registration wins.
    pub fn register_client(&mut self, conn: u64)
        ensures
            final(self).client == Some(conn),
            final(self).agents == old(self).agents,
            final(self).conn_agent == old(self).conn_agent,
            final(self).wf() == old(self).wf(),
    {
        self.client = Some(conn);
    }

    /// The console connection, if one is registered.
    pub fn get_client(&self) -> (r: Option<u64>)
        ensures
            r == self.client,
    {
        self.client
    }
}

// ---------------------------------------------------------------------------
// How the entry lists relate to their maps.
// ---------------------------------------------------------------------------

/// With unique agent ids, each entry is what the map holds under its id.
proof fn lemma_agents_map_entry(s: Seq<ConnectionInfo>, k: int)
    requires
        forall|a: int, b: int| 0 <= a < b < s.len() ==> s[a].agent_id@ != s[b].agent_id@,
        0 <= k < s.len(),
    ensures
        agents_map(s).contains_key(s[k].agent_id@),
        agents_map(s)[s[k].agent_id@] == (s[k].conn, s[k].prompt_running),
    decreases s.len(),
{
    if k < s.len() - 1 {
        assert(forall|a: int, b: int|
            0 <= a < b < s.drop_last().len() ==> s.drop_last()[a].agent_id@ != s.drop_last()[
                b
            ].agent_id@);
        lemma_agents_map_entry(s.drop_last(), k);
        assert(s[s.len() - 1].agent_id@ != s[k].agent_id@);
    }
}

/// An id that no entry carries is not in the map.
proof fn lemma_agents_map_absent(s: Seq<ConnectionInfo>, id: Seq<char>)
    requires
        forall|k: int| 0 <= k < s.len() ==> s[k].agent_id@ != id,
    ensures
        !agents_map(s).contains_key(id),
    decreases s.len(),
{
    if s.len() > 0 {
        assert(forall|k: int| 0 <= k < s.drop_last().len() ==> s.drop_last()[k].agent_id@ != id);
        lemma_agents_map_absent(s.drop_last(), id);
    }
}

/// Replacing the entry that carries `e`'s id updates the map at that id.
proof fn lemma_agents_map_update(s: Seq<ConnectionInfo>, k: int, e: ConnectionInfo)
    requires
        forall|a: int, b: int| 0 <= a < b < s.len() ==> s[a].agent_id@ != s[b].agent_id@,
        0 <= k < s.len(),
        e.agent_id@ == s[k].agent_id@,
    ensures
        agents_map(s.update(k, e)) =~= agents_map(s).insert(e.agent_id@, (e.conn, e.prompt_running)),
    decreases s.len(),
{
    let t = s.update(k, e);
    if k == s.len() - 1 {
        assert(t.drop_last() =~= s.drop_last());
        assert(t.last() == e);
    } else {
        assert(forall|a: int, b: int|
            0 <= a < b < s.drop_last().len() ==> s.drop_last()[a].agent_id@ != s.drop_last()[
                b
            ].agent_id@);
        lemma_agents_map_update(s.drop_last(), k, e);
        assert(t.drop_last() =~= s.drop_last().update(k, e));
        assert(t.last() == s.last());
        assert(s.last().agent_id@ != e.agent_id@);
    }
}

/// Appending an entry updates the map at the new entry's id.
proof fn lemma_agents_map_push(s: Seq<ConnectionInfo>, e: ConnectionInfo)
    ensures
        agents_map(s.push(e)) =~= agents_map(s).insert(e.agent_id@, (e.conn, e.prompt_running)),
{
    assert(s.push(e).drop_last() =~= s);
    assert(s.push(e).last() == e);
}

/// The same three facts for the connection map.
proof fn lemma_conn_map_entry(s: Seq<(u64, String)>, k: int)
    requires
        forall|a: int, b: int| 0 <= a < b < s.len() ==> s[a].0 != s[b].0,
        0 <= k < s.len(),
    ensures
        conn_map(s).contains_key(s[k].0),
        conn_map(s)[s[k].0] == s[k].1@,
    decreases s.len(),
{
    if k < s.len() - 1 {
        assert(forall|a: int, b: int|
            0 <= a < b < s.drop_last().len() ==> s.drop_last()[a].0 != s.drop_last()[b].0);
        lemma_conn_map_entry(s.drop_last(), k);
        assert(s[s.len() - 1].0 != s[k].0);
    }
}

proof fn lemma_conn_map_absent(s: Seq<(u64, String)>, c: u64)
    requires
        forall|k: int| 0 <= k < s.len() ==> s[k].0 != c,
    ensures
        !conn_map(s).contains_key(c),
    decreases s.len(),
{
    if s.len() > 0 {
        assert(forall|k: int| 0 <= k < s.drop_last().len() ==> s.drop_last()[k].0 != c);
        lemma_conn_map_absent(s.drop_last(), c);
    }
}

proof fn lemma_conn_map_update(s: Seq<(u64, String)>, k: int, e: (u64, String))
    requires
        forall|a: int, b: int| 0 <= a < b < s.len() ==> s[a].0 != s[b].0,
        0 <= k < s.len(),
        e.0 == s[k].0,
    ensures
        conn_map(s.update(k, e)) =~= conn_map(s).insert(e.0, e.1@),
    decreases s.len(),
{
    let t = s.update(k, e);
    if k == s.len() - 1 {
        assert(t.drop_last() =~= s.drop_last());
        assert(t.last() == e);
    } else {
        assert(forall|a: int, b: int|
            0 <= a < b < s.drop_last().len() ==> s.drop_last()[a].0 != s.drop_last()[b].0);
        lemma_conn_map_update(s.drop_last(), k, e);
        assert(t.drop_last() =~= s.drop_last().update(k, e));
        assert(t.last() == s.last());
    }
}

proof fn lemma_conn_map_push(s: Seq<(u64, String)>, e: (u64, String))
    ensures
        conn_map(s.push(e)) =~= conn_map(s).insert(e.0, e.1@),
{
    assert(s.push(e).drop_last() =~= s);
    assert(s.push(e).last() == e);
}

impl ConnectionRegistry {
    /// The position of an agent id in the entry list, or its length.
    fn find_agent(&self, agent_id: &str) -> (r: usize)
        ensures
            r <= self.agents@.len(),
            r < self.agents@.len() ==> self.agents@[r as int].agent_id@ == agent_id@,
            r == self.agents@.len() ==> forall|k: int|
                0 <= k < self.agents@.len() ==> self.agents@[k].agent_id@ != agent_id@,
    {
        let n = self.agents.len();
        let mut k: usize = 0;
        while k < n
            invariant
                n == self.agents@.len(),
                k <= n,
                forall|t: int| 0 <= t < k ==> self.agents@[t].agent_id@ != agent_id@,
            decreases n - k,
        {
            if str_eq(self.agents[k].agent_id.as_str(), agent_id) {
                return k;
            }
            k = k + 1;
        }
        n
    }

    fn find_conn(&self, conn: u64) -> (r: usize)
        ensures
            r <= self.conn_agent@.len(),
            r < self.conn_agent@.len() ==> self.conn_agent@[r as int].0 == conn,
            r == self.conn_agent@.len() ==> forall|k: int|
                0 <= k < self.conn_agent@.len() ==> self.conn_agent@[k].0 != conn,
    {
        let n = self.conn_agent.len();
        let mut k: usize = 0;
        while k < n
            invariant
                n == self.conn_agent@.len(),
                k <= n,
                forall|t: int| 0 <= t < k ==> self.conn_agent@[t].0 != conn,
            decreases n - k,
        {
            if self.conn_agent[k].0 == conn {
                return k;
            }
            k = k + 1;
        }
        n
    }

    /// Registers (or replaces) the agent connection for `agent_id`, and
    /// remembers which agent the connection id belongs to.
    pub fn register_agent(&mut self, agent_id: String, conn: u64, st: PromptState)
        requires
            old(self).wf(),
        ensures
            final(self).wf(),
            final(self).client == old(self).client,
            final(self).agents_view() == old(self).agents_view().insert(agent_id@, (conn, st)),
            final(self).conn_view() == old(self).conn_view().insert(conn, agent_id@),
    {
        let entry = ConnectionInfo { agent_id: agent_id.clone(), conn, prompt_running: st };
        let ghost ga = self.agents@;
        let k = self.find_agent(agent_id.as_str());
        if k < self.agents.len() {
            self.agents.remove(k);
            self.agents.insert(k, entry);
            proof {
                assert(self.agents@ =~= ga.update(k as int, self.agents@[k as int]));
                lemma_agents_map_update(ga, k as int, self.agents@[k as int]);
            }
        } else {
            self.agents.push(entry);
            proof {
                lemma_agents_map_push(ga, self.agents@[ga.len() as int]);
            }
        }
        let ghost gc = self.conn_agent@;
        let pair = (conn, agent_id);
        let c = self.find_conn(conn);
        if c < self.conn_agent.len() {
            self.conn_agent.remove(c);
            self.conn_agent.insert(c, pair);
            proof {
                assert(self.conn_agent@ =~= gc.update(c as int, self.conn_agent@[c as int]));
                lemma_conn_map_update(gc, c as int, self.conn_agent@[c as int]);
            }
        } else {
            self.conn_agent.push(pair);
            proof {
                lemma_conn_map_push(gc, self.conn_agent@[gc.len() as int]);
            }
        }
    }

    /// The connection registered for `agent_id`: its transport handle and
    /// prompt state. A stale handle kept after a disconnect is still
    /// returned, with state `Na`.
    pub fn get_agent(&self, agent_id: &str) -> (r: Option<(u64, PromptState)>)
        requires
            self.wf(),
        ensures
            match r {
                Some(v) => self.agents_view().contains_key(agent_id@) && self.agents_view()[
                    agent_id@
                ] == v,
                None => !self.agents_view().contains_key(agent_id@),
            },
    {
        let k = self.find_agent(agent_id);
        if k < self.agents.len() {
            proof {
                lemma_agents_map_entry(self.agents@, k as int);
            }
            Some((self.agents[k].conn, self.agents[k].prompt_running))
        } else {
            proof {
                lemma_agents_map_absent(self.agents@, agent_id@);
            }
            None
        }
    }

    /// Sets the prompt state of `agent_id`'s connection, if one is
    /// registered; reports whether one was.
    pub fn set_prompt_running(&mut self, agent_id: &str, st: PromptState) -> (found: bool)
        requires
            old(self).wf(),
        ensures
            final(self).wf(),
            final(self).client == old(self).client,
            final(self).conn_agent == old(self).conn_agent,
            found == old(self).agents_view().contains_key(agent_id@),
            found ==> final(self).agents_view() == old(self).agents_view().insert(
                agent_id@,
                (old(self).agents_view()[agent_id@].0, st),
            ),
            !found ==> final(self).agents == old(self).agents,
    {
        let ghost ga = self.agents@;
        let k = self.find_agent(agent_id);
        if k < self.agents.len() {
            proof {
                lemma_agents_map_entry(ga, k as int);
            }
            let entry = ConnectionInfo {
                agent_id: self.agents[k].agent_id.clone(),
                conn: self.agents[k].conn,
                prompt_running: st,
            };
            self.agents.remove(k);
            self.agents.insert(k, entry);
            proof {
                assert(self.agents@ =~= ga.update(k as int, self.agents@[k as int]));
                lemma_agents_map_update(ga, k as int, self.agents@[k as int]);
            }
            true
        } else {
            proof {
                lemma_agents_map_absent(ga, agent_id@);
            }
            false
        }
    }

    /// The prompt state of `agent_id`'s connection, by its wire name;
    /// `na` when no connection is registered for it.
    pub fn get_prompt_running(&self, agent_id: &str) -> (r: &'static str)
        requires
            self.wf(),
        ensures
            r@ == (if self.agents_view().contains_key(agent_id@) {
                prompt_state_name_spec(self.agents_view()[agent_id@].1)
            } else {
                "na"@
            }),
    {
        match self.get_agent(agent_id) {
            Some((_, st)) => prompt_state_name(st),
            None => "na",
        }
    }

    /// The agent id that connection `conn` registered, if any.
    pub fn agent_for_conn(&self, conn: u64) -> (r: Option<String>)
        requires
            self.wf(),
        ensures
            match r {
                Some(aid) => self.conn_view().contains_key(conn) && self.conn_view()[conn] == aid@,
                None => !self.conn_view().contains_key(conn),
            },
    {
        let c = self.find_conn(conn);
        if c < self.conn_agent.len() {
            proof {
                lemma_conn_map_entry(self.conn_agent@, c as int);
            }
            Some(self.conn_agent[c].1.clone())
        } else {
            proof {
                lemma_conn_map_absent(self.conn_agent@, conn);
            }
            None
        }
    }

    /// Notes that connection `conn` is gone. If it had registered an agent
    /// that is still in the registry, that entry's prompt state becomes
    /// `Na` while its (now stale) transport handle is kept, and the
    /// agent's id is returned so that the caller can tell the console.
    pub fn mark_disconnected(&mut self, conn: u64) -> (r: Option<String>)
        requires
            old(self).wf(),
        ensures
            final(self).wf(),
            final(self).client == old(self).client,
            final(self).conn_agent == old(self).conn_agent,
            match r {
                Some(aid) => {
                    &&& old(self).conn_view().contains_key(conn)
                    &&& aid@ == old(self).conn_view()[conn]
                    &&& old(self).agents_view().contains_key(aid@)
                    &&& final(self).agents_view() == old(self).agents_view().insert(
                        aid@,
                        (old(self).agents_view()[aid@].0, PromptState::Na),
                    )
                },
                None => {
                    &&& final(self).agents == old(self).agents
                    &&& (old(self).conn_view().contains_key(conn) ==> !old(
                        self,
                    ).agents_view().contains_key(old(self).conn_view()[conn]))
                },
            },
    {
        let c = self.find_conn(conn);
        if c < self.conn_agent.len() {
            proof {
                lemma_conn_map_entry(self.conn_agent@, c as int);
            }
            let aid = self.conn_agent[c].1.clone();
            let ghost ga = self.agents@;
            let k = self.find_agent(aid.as_str());
            if k < self.agents.len() {
                proof {
                    lemma_agents_map_entry(ga, k as int);
                }
                let entry = ConnectionInfo {
                    agent_id: self.agents[k].agent_id.clone(),
                    conn: self.agents[k].conn,
                    prompt_running: PromptState::Na,
                };
                self.agents.remove(k);
                self.agents.insert(k, entry);
                proof {
                    assert(self.agents@ =~= ga.update(k as int, self.agents@[k as int]));
                    lemma_agents_map_update(ga, k as int, self.agents@[k as int]);
                }
                Some(aid)
            } else {
                proof {
                    lemma_agents_map_absent(ga, aid@);
                }
                None
            }
        } else {
            proof {
                lemma_conn_map_absent(self.conn_agent@, conn);
            }
            None
        }
    }
}

// ---------------------------------------------------------------------------
// The registry law: the most recent registration wins.
// ---------------------------------------------------------------------------

/// One mutating step of the registry, at the level of its maps: exactly
/// what `register_agent` and `mark_disconnected` do by their contracts.
pub enum RegistryOp {
    RegisterAgent(Seq<char>, u64, PromptState),
    MarkDisconnected(u64),
}

/// The two maps after one step.
pub open spec fn apply_op(
    m: Map<Seq<char>, (u64, PromptState)>,
    c: Map<u64, Seq<char>>,
    op: RegistryOp,
) -> (Map<Seq<char>, (u64, PromptState)>, Map<u64, Seq<char>>) {
    match op {
        RegistryOp::RegisterAgent(id, conn, st) => (m.insert(id, (conn, st)), c.insert(conn, id)),
        RegistryOp::MarkDisconnected(conn) => {
            if c.contains_key(conn) && m.contains_key(c[conn]) {
                (m.insert(c[conn], (m[c[conn]].0, PromptState::Na)), c)
            } else {
                (m, c)
            }
        },
    }
}

/// The two maps after a whole run of steps.
pub open spec fn apply_ops(
    m: Map<Seq<char>, (u64, PromptState)>,
    c: Map<u64, Seq<char>>,
    ops: Seq<RegistryOp>,
) -> (Map<Seq<char>, (u64, PromptState)>, Map<u64, Seq<char>>)
    decreases ops.len(),
{
    if ops.len() == 0 {
        (m, c)
    } else {
        let prev = apply_ops(m, c, ops.drop_last());
        apply_op(prev.0, prev.1, ops.last())
    }
}

/// The handle and state given by the most recent registration for `id`
/// within `ops`, if there is one.
pub open spec fn last_registration(ops: Seq<RegistryOp>, id: Seq<char>) -> Option<
    (u64, PromptState),
>
    decreases ops.len(),
{
    if ops.len() == 0 {
        None
    } else if ops.last() matches RegistryOp::RegisterAgent(rid, conn, st) && rid == id {
        Some((ops.last()->RegisterAgent_1, ops.last()->RegisterAgent_2))
    } else {
        last_registration(ops.drop_last(), id)
    }
}

/// For any run of `register_agent` and `mark_disconnected` steps in which
/// `id` was registered at least once, the registry afterwards still has an
/// entry for `id`, and its transport handle is the one from the most
/// recent registration: a later disconnect can only have turned the
/// entry's prompt state to `Na`, never removed or replaced the handle.
pub proof fn lemma_most_recent_registration_wins(
    m: Map<Seq<char>, (u64, PromptState)>,
    c: Map<u64, Seq<char>>,
    ops: Seq<RegistryOp>,
    id: Seq<char>,
)
    requires
        last_registration(ops, id) is Some,
    ensures
        apply_ops(m, c, ops).0.contains_key(id),
        apply_ops(m, c, ops).0[id].0 == last_registration(ops, id).unwrap().0,
        apply_ops(m, c, ops).0[id].1 == last_registration(ops, id).unwrap().1 || apply_ops(
            m,
            c,
            ops,
        ).0[id].1 == PromptState::Na,
    decreases ops.len(),
{
    let prev = apply_ops(m, c, ops.drop_last());
    match ops.last() {
        RegistryOp::RegisterAgent(rid, conn, st) => {
            if rid != id {
                lemma_most_recent_registration_wins(m, c, ops.drop_last(), id);
            }
        },
        RegistryOp::MarkDisconnected(conn) => {
            lemma_most_recent_registration_wins(m, c, ops.drop_last(), id);
        },
    }
}

} // verus!
