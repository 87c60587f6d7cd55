//! `portsmith start`: which ports to free, and which processes stand on them.
use vstd::prelude::*;

use crate::commands::detect::{detected_ports, port_numbers, DetectedPort};
use crate::commands::profile::{normalize_ports, normalized, Profile};
use crate::commands::{lemma_filter_push, ListenerInfo};

verus! {

/// The listeners of `s` that block `port` for the process `self_pid`: those on
/// `port` that belong to another process, in order.
pub open spec fn blocking(s: Seq<ListenerInfo>, port: u16, self_pid: u32) -> Seq<ListenerInfo> {
    s.filter(|l: ListenerInfo| l.port == port && l.pid != self_pid)
}

/// The listeners that stand on `port`, other than this process (`self_pid`).
pub fn conflicts(listeners: &Vec<ListenerInfo>, port: u16, self_pid: u32) -> (r: Vec<ListenerInfo>)
    ensures
        r@ == blocking(listeners@, port, self_pid),
        forall|k: int| 0 <= k < r@.len() ==> (#[trigger] r@[k]).port == port && r@[k].pid != self_pid,
{
    let ghost pred = |l: ListenerInfo| l.port == port && l.pid != self_pid;
    let mut out: Vec<ListenerInfo> = Vec::new();
    let mut i: usize = 0;
    while i < listeners.len()
        invariant
            i <= listeners@.len(),
            pred == (|l: ListenerInfo| l.port == port && l.pid != self_pid),
            out@ == listeners@.take(i as int).filter(pred),
            forall|k: int| 0 <= k < out@.len() ==> (#[trigger] out@[k]).port == port && out@[k].pid
                != self_pid,
        decreases listeners@.len() - i,
    {
        let l = &listeners[i];
        proof {
            assert(listeners@.take(i + 1) =~= listeners@.take(i as int).push(listeners@[i as int]));
            lemma_filter_push(listeners@.take(i as int), listeners@[i as int], pred);
        }
        if l.port == port && l.pid != self_pid {
            out.push(l.duplicate());
        }
        i = i + 1;
    }
    assert(listeners@.take(listeners@.len() as int) =~= listeners@);
    out
}

/// A port to free, and the listeners that `start` stops to free it.
pub struct PortPlan {
    pub port: u16,
    pub conflicts: Vec<ListenerInfo>,
}

/// The ports of a plan, in order.
pub open spec fn plan_ports(plan: Seq<PortPlan>) -> Seq<u16> {
    plan.map_values(|e: PortPlan| e.port)
}

/// What `start` does for each of the project's ports: port 0 ("any free port")
/// is passed over; every other port, in order, comes with the listeners that
/// stand on it and belong to another process than `self_pid`.
pub fn free_plan(ports: &Vec<u16>, listeners: &Vec<ListenerInfo>, self_pid: u32) -> (r: Vec<
    PortPlan,
>)
    ensures
        plan_ports(r@) == ports@.filter(|p: u16| p != 0),
        forall|k: int|
            0 <= k < r@.len() ==> (#[trigger] r@[k]).conflicts@ == blocking(
                listeners@,
                r@[k].port,
                self_pid,
            ),
        forall|k: int| 0 <= k < r@.len() ==> (#[trigger] r@[k]).port != 0,
        forall|k: int, j: int|
            0 <= k < r@.len() && 0 <= j < r@[k].conflicts@.len() ==> (#[trigger] r@[k].conflicts@[j]).pid
                != self_pid && r@[k].conflicts@[j].port == r@[k].port,
{
    let ghost nonzero = |p: u16| p != 0;
    let mut plan: Vec<PortPlan> = Vec::new();
    let mut i: usize = 0;
    while i < ports.len()
        invariant
            i <= ports@.len(),
            nonzero == (|p: u16| p != 0),
            plan_ports(plan@) == ports@.take(i as int).filter(nonzero),
            forall|k: int|
                0 <= k < plan@.len() ==> (#[trigger] plan@[k]).conflicts@ == blocking(
                    listeners@,
                    plan@[k].port,
                    self_pid,
                ),
            forall|k: int| 0 <= k < plan@.len() ==> (#[trigger] plan@[k]).port != 0,
            forall|k: int, j: int|
                0 <= k < plan@.len() && 0 <= j < plan@[k].conflicts@.len() ==> (
                #[trigger] plan@[k].conflicts@[j]).pid != self_pid && plan@[k].conflicts@[j].port
                    == plan@[k].port,
        decreases ports@.len() - i,
    {
        let port = ports[i];
        proof {
            assert(ports@.take(i + 1) =~= ports@.take(i as int).push(port));
            lemma_filter_push(ports@.take(i as int), port, nonzero);
        }
        if port != 0 {
            let ghost before = plan@;
            plan.push(PortPlan { port, conflicts: conflicts(listeners, port, self_pid) });
            assert(plan_ports(plan@) =~= plan_ports(before).push(port));
        }
        i = i + 1;
    }
    assert(ports@.take(ports@.len() as int) =~= ports@);
    plan
}

/// Resolves the project's ports: a saved profile takes precedence (an explicit
/// override), otherwise the detected ports are used; either way sorted, each once.
pub fn resolve_ports(profile: Option<Profile>, detected: Vec<DetectedPort>) -> (r: Vec<u16>)
    ensures
        normalized(
            match profile {
                Some(p) => p.ports@,
                None => detected_ports(detected@),
            },
            r@,
        ),
{
    match profile {
        Some(p) => normalize_ports(p.ports),
        None => normalize_ports(port_numbers(&detected)),
    }
}

/// Every listener on `port` that belongs to another process blocks it, and
/// only those do: a listener is among the blocking ones exactly when it is on
/// `port` and not this process's own.
pub proof fn blocking_is_every_other_listener(s: Seq<ListenerInfo>, port: u16, self_pid: u32)
    ensures
        forall|k: int|
            0 <= k < s.len() && s[k].port == port && s[k].pid != self_pid ==> blocking(
                s,
                port,
                self_pid,
            ).contains(#[trigger] s[k]),
        forall|k: int|
            0 <= k < blocking(s, port, self_pid).len() ==> (#[trigger] blocking(s, port, self_pid)[k]).port
                == port && blocking(s, port, self_pid)[k].pid != self_pid,
{
    let pred = |l: ListenerInfo| l.port == port && l.pid != self_pid;
    assert forall|k: int| 0 <= k < s.len() && s[k].port == port && s[k].pid != self_pid implies blocking(
        s,
        port,
        self_pid,
    ).contains(#[trigger] s[k]) by {
        s.lemma_filter_contains(pred, k);
    }
    assert forall|k: int| 0 <= k < blocking(s, port, self_pid).len() implies (#[trigger] blocking(
        s,
        port,
        self_pid,
    )[k]).port == port && blocking(s, port, self_pid)[k].pid != self_pid by {
        s.lemma_filter_pred(pred, k);
    }
}

/// The listeners of two lists that block a port are those of the first list
/// followed by those of the second, and a single listener blocks exactly when
/// it is on the port and not this process's own.
pub proof fn blocking_concatenates(
    a: Seq<ListenerInfo>,
    b: Seq<ListenerInfo>,
    l: ListenerInfo,
    port: u16,
    self_pid: u32,
)
    ensures
        blocking(a + b, port, self_pid) == blocking(a, port, self_pid) + blocking(b, port, self_pid),
        blocking(seq![l], port, self_pid) == (if l.port == port && l.pid != self_pid {
            seq![l]
        } else {
            Seq::<ListenerInfo>::empty()
        }),
{
    let pred = |x: ListenerInfo| x.port == port && x.pid != self_pid;
    Seq::filter_distributes_over_add(a, b, pred);
    lemma_filter_push(Seq::<ListenerInfo>::empty(), l, pred);
    assert(Seq::<ListenerInfo>::empty().push(l) =~= seq![l]);
    reveal(Seq::filter);
    assert(Seq::<ListenerInfo>::empty().filter(pred) =~= Seq::<ListenerInfo>::empty());
}

} // verus!
