//! `portsmith check`: which of the project's backing services are running.
use vstd::prelude::*;

use crate::commands::detect::{services_view, DetectedService};

verus! {

/// Result of inspecting the project's backing services.
pub enum CheckOutcome {
    /// No database/cache/broker was found to check.
    NoServices,
    /// Every detected service is listening.
    AllUp,
    /// At least one detected service is down.
    SomeDown,
}

/// A detected service and whether something listens on its port.
pub struct ServiceStatus {
    pub service: DetectedService,
    pub running: bool,
}

/// What `check` reports: one status per service port, and the outcome.
pub struct ServiceReport {
    pub statuses: Vec<ServiceStatus>,
    pub outcome: CheckOutcome,
}

/// `s[j]` is the first entry of `s` with its port.
pub open spec fn first_of_port(s: Seq<(u16, Seq<char>, Seq<char>)>, j: int) -> bool {
    0 <= j < s.len() && forall|l: int| 0 <= l < j ==> (#[trigger] s[l]).0 != s[j].0
}

/// `out` keeps one entry per port of `s`, in increasing port order: for each
/// port, the first entry of `s` that names it (a stable sort by port, then
/// dropping repeated ports).
pub open spec fn one_per_port(
    s: Seq<(u16, Seq<char>, Seq<char>)>,
    out: Seq<(u16, Seq<char>, Seq<char>)>,
) -> bool {
    &&& forall|a: int, b: int| 0 <= a < b < out.len() ==> (#[trigger] out[a]).0 < (#[trigger] out[b]).0
    &&& forall|k: int| 0 <= k < out.len() ==> #[trigger] kept_first(s, out, k)
    &&& forall|j: int| 0 <= j < s.len() ==> #[trigger] port_kept(s, out, j)
}

/// `out[k]` is the first entry of `s` with its port.
pub open spec fn kept_first(
    s: Seq<(u16, Seq<char>, Seq<char>)>,
    out: Seq<(u16, Seq<char>, Seq<char>)>,
    k: int,
) -> bool {
    exists|j: int| first_of_port(s, j) && out[k] == #[trigger] s[j]
}

/// The port of `s[j]` is among the ports of `out`.
pub open spec fn port_kept(
    s: Seq<(u16, Seq<char>, Seq<char>)>,
    out: Seq<(u16, Seq<char>, Seq<char>)>,
    j: int,
) -> bool {
    exists|k: int| 0 <= k < out.len() && (#[trigger] out[k]).0 == s[j].0
}

/// The services of a status list.
pub open spec fn statuses_services(st: Seq<ServiceStatus>) -> Seq<(u16, Seq<char>, Seq<char>)> {
    st.map_values(|x: ServiceStatus| x.service@)
}

/// One service per port, in increasing port order, each the first of the input
/// with its port.
pub fn dedup_services(services: Vec<DetectedService>) -> (r: Vec<DetectedService>)
    ensures
        one_per_port(services_view(services@), services_view(r@)),
{
    let ghost s = services_view(services@);
    let mut rest = services;
    let mut out: Vec<DetectedService> = Vec::new();
    let ghost mut src: Seq<int> = Seq::empty();
    let mut i: usize = 0;
    let n = rest.len();
    while rest.len() > 0
        invariant
            n == s.len(),
            i + rest@.len() == n,
            services_view(rest@) == s.skip(i as int),
            src.len() == out@.len(),
            forall|a: int, b: int|
                0 <= a < b < out@.len() ==> (#[trigger] out@[a]).port < (#[trigger] out@[b]).port,
            forall|k: int|
                0 <= k < out@.len() ==> #[trigger] src[k] < i && first_of_port(s, src[k]) && out@[k]@
                    == s[src[k]],
            forall|j: int|
                0 <= j < i ==> exists|k: int| 0 <= k < out@.len() && (#[trigger] out@[k]).port == (
                #[trigger] s[j]).0,
        decreases rest@.len(),
    {
        let ghost old_rest = rest@;
        let item = rest.remove(0);
        assert(item@ == s[i as int]) by {
            assert(services_view(old_rest)[0] == item@);
        }
        assert(services_view(rest@) =~= s.skip(i + 1)) by {
            assert(rest@ =~= old_rest.drop_first());
            assert forall|k: int| 0 <= k < rest@.len() implies #[trigger] services_view(rest@)[k]
                == s.skip(i + 1)[k] by {
                assert(services_view(old_rest)[k + 1] == s.skip(i as int)[k + 1]);
            }
        }
        let mut pos: usize = 0;
        while pos < out.len() && out[pos].port < item.port
            invariant
                pos <= out@.len(),
                forall|k: int| 0 <= k < pos ==> (#[trigger] out@[k]).port < item.port,
            decreases out@.len() - pos,
        {
            pos = pos + 1;
        }
        if pos < out.len() && out[pos].port == item.port {
            assert(exists|k: int| 0 <= k < out@.len() && (#[trigger] out@[k]).port == (
            #[trigger] s[i as int]).0) by {
                assert(out@[pos as int].port == s[i as int].0);
            }
        } else {
            proof {
                assert forall|l: int| 0 <= l < i implies (#[trigger] s[l]).0 != s[i as int].0 by {
                    if s[l].0 == s[i as int].0 {
                        let k = choose|k: int| 0 <= k < out@.len() && (#[trigger] out@[k]).port
                            == s[l].0;
                        if k < pos {
                        } else if k == pos {
                        } else {
                            assert(out@[pos as int].port < out@[k].port);
                        }
                    }
                }
                assert(first_of_port(s, i as int));
            }
            let ghost old_out = out@;
            let ghost old_src = src;
            out.insert(pos, item);
            proof {
                src = old_src.insert(pos as int, i as int);
                assert forall|k: int| 0 <= k < out@.len() implies #[trigger] src[k] < i + 1
                    && first_of_port(s, src[k]) && out@[k]@ == s[src[k]] by {
                    if k < pos {
                        assert(out@[k] == old_out[k]);
                        assert(src[k] == old_src[k]);
                    } else if k > pos {
                        assert(out@[k] == old_out[k - 1]);
                        assert(src[k] == old_src[k - 1]);
                    }
                }
                assert forall|j: int|
                    0 <= j < i implies exists|k: int| 0 <= k < out@.len() && (#[trigger] out@[k]).port
                        == (#[trigger] s[j]).0 by {
                    let k = choose|k: int| 0 <= k < old_out.len() && (#[trigger] old_out[k]).port
                        == s[j].0;
                    if k < pos {
                        assert(out@[k] == old_out[k]);
                    } else {
                        assert(out@[k + 1] == old_out[k]);
                    }
                }
                assert(out@[pos as int].port == s[i as int].0);
            }
        }
        i = i + 1;
    }
    proof {
        let o = services_view(out@);
        assert forall|a: int, b: int| 0 <= a < b < o.len() implies (#[trigger] o[a]).0 < (
        #[trigger] o[b]).0 by {
            assert(out@[a].port < out@[b].port);
        }
        assert forall|k: int| 0 <= k < o.len() implies #[trigger] kept_first(s, o, k) by {
            assert(first_of_port(s, src[k]) && o[k] == s[src[k]]);
        }
        assert forall|j: int| 0 <= j < s.len() implies #[trigger] port_kept(s, o, j) by {
            let k = choose|k: int| 0 <= k < out@.len() && (#[trigger] out@[k]).port == s[j].0;
            assert(o[k].0 == s[j].0);
        }
        assert(s == services_view(services@));
        assert(i == n);
        assert(one_per_port(s, o));
    }
    out
}

/// Whether `port` is among `ports`.
pub fn port_listed(ports: &Vec<u16>, port: u16) -> (r: bool)
    ensures
        r == ports@.contains(port),
{
    let mut i: usize = 0;
    while i < ports.len()
        invariant
            i <= ports@.len(),
            forall|j: int| 0 <= j < i ==> ports@[j] != port,
        decreases ports@.len() - i,
    {
        if ports[i] == port {
            assert(ports@[i as int] == port);
            return true;
        }
        i = i + 1;
    }
    false
}

/// The status of each detected service and the outcome of `check`, given the
/// ports on which something listens (`None` when they could not be read).
///
/// With no services the outcome is `NoServices` and nothing is listed. With
/// services but no listener information, none of them can be confirmed: the
/// outcome is `SomeDown` and nothing is listed. Otherwise each port is listed
/// once, in increasing order, with the first service that named it; the
/// outcome is `AllUp` when every listed port is active and `SomeDown` when one is not.
pub fn assess_services(services: Vec<DetectedService>, active: Option<Vec<u16>>) -> (r:
    ServiceReport)
    ensures
        services@.len() == 0 ==> r.outcome is NoServices && r.statuses@.len() == 0,
        services@.len() > 0 ==> !(r.outcome is NoServices),
        services@.len() > 0 && active is None ==> r.outcome is SomeDown && r.statuses@.len() == 0,
        services@.len() > 0 && active is Some ==> {
            &&& one_per_port(services_view(services@), statuses_services(r.statuses@))
            &&& forall|k: int|
                0 <= k < r.statuses@.len() ==> (#[trigger] r.statuses@[k]).running
                    == active->0@.contains(r.statuses@[k].service.port)
            &&& (r.outcome is AllUp) == (forall|k: int|
                0 <= k < r.statuses@.len() ==> (#[trigger] r.statuses@[k]).running)
            &&& (r.outcome is SomeDown) == (exists|k: int|
                0 <= k < r.statuses@.len() && !(#[trigger] r.statuses@[k]).running)
        },
{
    if services.len() == 0 {
        return ServiceReport { statuses: Vec::new(), outcome: CheckOutcome::NoServices };
    }
    let active = match active {
        Some(a) => a,
        None => return ServiceReport { statuses: Vec::new(), outcome: CheckOutcome::SomeDown },
    };
    let ghost input = services_view(services@);
    let mut unique = dedup_services(services);
    let ghost u = services_view(unique@);
    let mut statuses: Vec<ServiceStatus> = Vec::new();
    let mut all_up = true;
    let mut i: usize = 0;
    let n = unique.len();
    while unique.len() > 0
        invariant
            n == u.len(),
            i + unique@.len() == n,
            services_view(unique@) == u.skip(i as int),
            statuses_services(statuses@) == u.take(i as int),
            forall|k: int|
                0 <= k < statuses@.len() ==> (#[trigger] statuses@[k]).running
                    == active@.contains(statuses@[k].service.port),
            all_up == (forall|k: int| 0 <= k < statuses@.len() ==> (#[trigger] statuses@[k]).running),
        decreases unique@.len(),
    {
        let ghost old_unique = unique@;
        let service = unique.remove(0);
        assert(service@ == u[i as int]) by {
            assert(services_view(old_unique)[0] == service@);
        }
        assert(services_view(unique@) =~= u.skip(i + 1)) by {
            assert(unique@ =~= old_unique.drop_first());
            assert forall|k: int| 0 <= k < unique@.len() implies #[trigger] services_view(unique@)[k]
                == u.skip(i + 1)[k] by {
                assert(services_view(old_unique)[k + 1] == u.skip(i as int)[k + 1]);
            }
        }
        let running = port_listed(&active, service.port);
        let ghost before = statuses@;
        statuses.push(ServiceStatus { service, running });
        assert(statuses_services(statuses@) =~= u.take(i + 1)) by {
            assert(u.take(i + 1) =~= u.take(i as int).push(u[i as int]));
            assert(statuses_services(statuses@) =~= statuses_services(before).push(u[i as int]));
        }
        assert(statuses@[statuses@.len() - 1].running == running);
        assert(forall|k: int| 0 <= k < before.len() ==> statuses@[k] == before[k]);
        if !running {
            all_up = false;
        }
        i = i + 1;
    }
    assert(statuses_services(statuses@) =~= u) by {
        assert(u.take(n as int) =~= u);
    }
    assert(port_kept(input, u, 0));
    assert(statuses@.len() > 0) by {
        assert(statuses_services(statuses@).len() == u.len());
    }
    let outcome = if all_up {
        CheckOutcome::AllUp
    } else {
        CheckOutcome::SomeDown
    };
    ServiceReport { statuses, outcome }
}

} // verus!
