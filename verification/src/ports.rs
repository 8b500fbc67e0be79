//! Port allocation: the first free pair of host ports, one from the
//! remote-desktop band and one from the bridge band. The operating-system
//! probe runs outside; its findings come in as the list of ports it saw in
//! use. A port recorded as assigned to a known sandbox is never returned,
//! whatever the probe said.

use vstd::prelude::*;

verus! {

use crate::sandbox::SandboxList;

/// First candidate host port for the remote-desktop endpoint.
pub const VNC_PORT_BASE: u16 = 5900;

/// First candidate host port for the bridge endpoint.
pub const BRIDGE_PORT_BASE: u16 = 6080;

/// How many candidates are scanned in each band.
pub const PORT_SCAN_WINDOW: u16 = 100;

/// A port a known sandbox holds, on either of its endpoints.
pub open spec fn sandbox_uses_port(list: SandboxList, p: u16) -> bool {
    exists|k: int|
        0 <= k < list.items@.len() && (list.items@[k].vnc_port == p || list.items@[k].bridge_port
            == p)
}

/// A candidate the allocator may return: not probed busy, not assigned.
pub open spec fn port_free(list: SandboxList, busy: Seq<u16>, p: u16) -> bool {
    !busy.contains(p) && !sandbox_uses_port(list, p)
}

fn contains_port(v: &Vec<u16>, p: u16) -> (r: bool)
    ensures
        r == v@.contains(p),
{
    let n = v.len();
    let mut k: usize = 0;
    while k < n
        invariant
            n == v@.len(),
            k <= n,
            forall|t: int| 0 <= t < k ==> v@[t] != p,
        decreases n - k,
    {
        if v[k] == p {
            return true;
        }
        k = k + 1;
    }
    proof {
        assert(!v@.contains(p));
    }
    false
}

/// The first free port in the band `[base, base + PORT_SCAN_WINDOW)`, given
/// the ports the probe reported in use; the window's end when every
/// candidate is taken.
fn first_free_in_band(list: &SandboxList, busy: &Vec<u16>, base: u16) -> (r: Option<u16>)
    requires
        base <= 0xff00,
    ensures
        match r {
            Some(p) => {
                &&& base <= p < base + PORT_SCAN_WINDOW
                &&& port_free(*list, busy@, p)
                &&& forall|q: u16| base <= q < p ==> !port_free(*list, busy@, q)
            },
            None => forall|q: u16|
                base <= q < base + PORT_SCAN_WINDOW ==> !port_free(*list, busy@, q),
        },
{
    let mut off: u16 = 0;
    while off < PORT_SCAN_WINDOW
        invariant
            base <= 0xff00,
            off <= PORT_SCAN_WINDOW,
            forall|q: u16| base <= q < base + off ==> !port_free(*list, busy@, q),
        decreases PORT_SCAN_WINDOW - off,
    {
        let p = base + off;
        if !contains_port(busy, p) && !list.port_taken(p) {
            return Some(p);
        }
        off = off + 1;
    }
    None
}

/// The first free pair of host ports, remote-desktop first, bridge second.
/// Neither is in the probed-busy list, and neither is recorded as assigned
/// to any known sandbox, whatever the list holds. Fails — with this exact
/// error — when either band has no free candidate left.
pub fn get_available_ports(list: &SandboxList, busy: &Vec<u16>) -> (r: Result<Vec<u16>, String>)
    ensures
        match r {
            Ok(ports) => {
                &&& ports@.len() == 2
                &&& VNC_PORT_BASE <= ports@[0] < VNC_PORT_BASE + PORT_SCAN_WINDOW
                &&& BRIDGE_PORT_BASE <= ports@[1] < BRIDGE_PORT_BASE + PORT_SCAN_WINDOW
                &&& port_free(*list, busy@, ports@[0])
                &&& port_free(*list, busy@, ports@[1])
                &&& !sandbox_uses_port(*list, ports@[0])
                &&& !sandbox_uses_port(*list, ports@[1])
                &&& forall|q: u16| VNC_PORT_BASE <= q < ports@[0] ==> !port_free(*list, busy@, q)
                &&& forall|q: u16|
                    BRIDGE_PORT_BASE <= q < ports@[1] ==> !port_free(*list, busy@, q)
            },
            Err(e) => {
                &&& e@ == "Not enough available ports"@
                &&& ((forall|q: u16|
                    VNC_PORT_BASE <= q < VNC_PORT_BASE + PORT_SCAN_WINDOW ==> !port_free(
                        *list,
                        busy@,
                        q,
                    )) || (forall|q: u16|
                    BRIDGE_PORT_BASE <= q < BRIDGE_PORT_BASE + PORT_SCAN_WINDOW ==> !port_free(
                        *list,
                        busy@,
                        q,
                    )))
            },
        },
{
    let vnc = first_free_in_band(list, busy, VNC_PORT_BASE);
    let bridge = first_free_in_band(list, busy, BRIDGE_PORT_BASE);
    match (vnc, bridge) {
        (Some(v), Some(b)) => {
            let mut ports: Vec<u16> = Vec::new();
            ports.push(v);
            ports.push(b);
            Ok(ports)
        },
        _ => Err("Not enough available ports".to_owned()),
    }
}

} // verus!
