//! The ports a project pins in `.portsmith.json`.
use vstd::prelude::*;

use crate::commands::detect::{detected_ports, port_numbers, DetectedPort};

verus! {

/// File written in the current directory to remember a project's ports.
pub const PROFILE_FILE: &'static str = ".portsmith.json";

/// A project's pinned ports.
pub struct Profile {
    pub ports: Vec<u16>,
}

/// `s` is in strictly increasing order (so no port repeats).
pub open spec fn strictly_increasing(s: Seq<u16>) -> bool {
    forall|a: int, b: int| 0 <= a < b < s.len() ==> #[trigger] s[a] < #[trigger] s[b]
}

/// `a` and `b` hold the same ports.
pub open spec fn same_ports(a: Seq<u16>, b: Seq<u16>) -> bool {
    forall|x: u16| #![trigger a.contains(x)] #![trigger b.contains(x)] a.contains(x) <==> b.contains(x)
}

/// `out` is `ports` sorted with repeats removed.
pub open spec fn normalized(ports: Seq<u16>, out: Seq<u16>) -> bool {
    strictly_increasing(out) && same_ports(ports, out)
}

/// Two port lists in strictly increasing order that hold the same ports are equal.
pub proof fn lemma_increasing_same_ports_equal(a: Seq<u16>, b: Seq<u16>)
    requires
        strictly_increasing(a),
        strictly_increasing(b),
        same_ports(a, b),
    ensures
        a == b,
    decreases a.len(),
{
    if a.len() == 0 {
        if b.len() > 0 {
            assert(b.contains(b[0]));
        }
        assert(a =~= b);
    } else {
        assert(a.contains(a[0]));
        assert(b.len() > 0);
        assert(b.contains(b[0]));
        let i = choose|i: int| 0 <= i < b.len() && #[trigger] b[i] == a[0];
        let j = choose|j: int| 0 <= j < a.len() && #[trigger] a[j] == b[0];
        if i > 0 {
            assert(b[0] < b[i]);
        }
        if j > 0 {
            assert(a[0] < a[j]);
        }
        assert(a[0] == b[0]);
        let a1 = a.drop_first();
        let b1 = b.drop_first();
        assert forall|x: u16| #![trigger a1.contains(x)] #![trigger b1.contains(x)] a1.contains(x)
            <==> b1.contains(x) by {
            if a1.contains(x) {
                let k = choose|k: int| 0 <= k < a1.len() && #[trigger] a1[k] == x;
                assert(a[k + 1] == x);
                assert(a[0] < a[k + 1]);
                assert(a.contains(x));
                let m = choose|m: int| 0 <= m < b.len() && #[trigger] b[m] == x;
                if m == 0 {
                    assert(false);
                }
                assert(b1[m - 1] == x);
            }
            if b1.contains(x) {
                let k = choose|k: int| 0 <= k < b1.len() && #[trigger] b1[k] == x;
                assert(b[k + 1] == x);
                assert(b[0] < b[k + 1]);
                assert(b.contains(x));
                let m = choose|m: int| 0 <= m < a.len() && #[trigger] a[m] == x;
                if m == 0 {
                    assert(false);
                }
                assert(a1[m - 1] == x);
            }
        }
        assert forall|p: int, q: int| 0 <= p < q < a1.len() implies #[trigger] a1[p] < #[trigger] a1[q] by {
            assert(a[p + 1] < a[q + 1]);
        }
        assert forall|p: int, q: int| 0 <= p < q < b1.len() implies #[trigger] b1[p] < #[trigger] b1[q] by {
            assert(b[p + 1] < b[q + 1]);
        }
        lemma_increasing_same_ports_equal(a1, b1);
        assert(a =~= b) by {
            assert forall|k: int| 0 <= k < a.len() implies a[k] == b[k] by {
                if k > 0 {
                    assert(a[k] == a1[k - 1] && b[k] == b1[k - 1]);
                }
            }
        }
    }
}

/// The normalized list depends only on which ports are given: any two lists that
/// hold the same ports, in any order and with any repeats, normalize alike.
pub proof fn normalized_depends_only_on_ports(p: Seq<u16>, q: Seq<u16>, a: Seq<u16>, b: Seq<u16>)
    requires
        same_ports(p, q),
        normalized(p, a),
        normalized(q, b),
    ensures
        a == b,
{
    assert forall|x: u16| #![trigger a.contains(x)] #![trigger b.contains(x)] a.contains(x)
        <==> b.contains(x) by {
        assert(p.contains(x) <==> a.contains(x));
        assert(q.contains(x) <==> b.contains(x));
        assert(p.contains(x) <==> q.contains(x));
    }
    lemma_increasing_same_ports_equal(a, b);
}

/// Normalizing is idempotent: a normalized list normalizes to itself.
pub proof fn normalize_idempotent(ports: Seq<u16>, once: Seq<u16>, twice: Seq<u16>)
    requires
        normalized(ports, once),
        normalized(once, twice),
    ensures
        twice == once,
{
    assert forall|x: u16| #![trigger once.contains(x)] #![trigger twice.contains(x)] once.contains(
        x,
    ) <==> twice.contains(x) by {
        assert(once.contains(x) <==> twice.contains(x));
    }
    lemma_increasing_same_ports_equal(once, twice);
}

/// The ports sorted in increasing order, each once (`sort_unstable` then `dedup`).
pub fn normalize_ports(ports: Vec<u16>) -> (r: Vec<u16>)
    ensures
        normalized(ports@, r@),
{
    let mut out: Vec<u16> = Vec::new();
    let mut i: usize = 0;
    while i < ports.len()
        invariant
            i <= ports@.len(),
            strictly_increasing(out@),
            same_ports(ports@.take(i as int), out@),
        decreases ports@.len() - i,
    {
        let x = ports[i];
        let mut pos: usize = 0;
        while pos < out.len() && out[pos] < x
            invariant
                pos <= out@.len(),
                forall|k: int| 0 <= k < pos ==> #[trigger] out@[k] < x,
            decreases out@.len() - pos,
        {
            pos = pos + 1;
        }
        let ghost before = out@;
        let ghost t0 = ports@.take(i as int);
        let ghost t1 = ports@.take(i + 1);
        assert(t1 =~= t0.push(x));
        if pos < out.len() && out[pos] == x {
            assert forall|y: u16| #[trigger] t1.contains(y) <==> out@.contains(y) by {
                if y == x {
                    assert(out@[pos as int] == x);
                } else if t1.contains(y) {
                    let k = choose|k: int| 0 <= k < t1.len() && #[trigger] t1[k] == y;
                    assert(t0[k] == y);
                }
            }
        } else {
            out.insert(pos, x);
            assert forall|a: int, b: int| 0 <= a < b < out@.len() implies #[trigger] out@[a]
                < #[trigger] out@[b] by {
                if b < pos {
                    assert(out@[a] == before[a] && out@[b] == before[b]);
                } else if b == pos {
                    assert(out@[a] == before[a]);
                } else if a < pos {
                    assert(out@[a] == before[a] && out@[b] == before[b - 1]);
                    if pos < before.len() {
                        assert(before[pos as int] > x);
                        assert(before[pos as int] <= before[b - 1]);
                    }
                } else if a == pos {
                    assert(out@[b] == before[b - 1]);
                    assert(before[pos as int] > x);
                    assert(before[pos as int] <= before[b - 1]);
                } else {
                    assert(out@[a] == before[a - 1] && out@[b] == before[b - 1]);
                }
            }
            assert forall|y: u16| #[trigger] t1.contains(y) <==> out@.contains(y) by {
                if y == x {
                    assert(out@[pos as int] == x);
                    assert(t1[i as int] == x);
                } else {
                    if t1.contains(y) {
                        let k = choose|k: int| 0 <= k < t1.len() && #[trigger] t1[k] == y;
                        assert(t0[k] == y);
                        assert(before.contains(y));
                        let j = choose|j: int| 0 <= j < before.len() && #[trigger] before[j] == y;
                        if j < pos {
                            assert(out@[j] == y);
                        } else {
                            assert(out@[j + 1] == y);
                        }
                    }
                    if out@.contains(y) {
                        let j = choose|j: int| 0 <= j < out@.len() && #[trigger] out@[j] == y;
                        if j < pos {
                            assert(before[j] == y);
                        } else {
                            assert(before[j - 1] == y);
                        }
                        assert(before.contains(y));
                        assert(t0.contains(y));
                        let k = choose|k: int| 0 <= k < t0.len() && #[trigger] t0[k] == y;
                        assert(t1[k] == y);
                    }
                }
            }
        }
        i = i + 1;
    }
    assert(ports@.take(ports@.len() as int) =~= ports@);
    out
}

/// A profile of the given ports, sorted and without repeats; `None` when there are none.
pub fn profile_from_ports(ports: Vec<u16>) -> (r: Option<Profile>)
    ensures
        match r {
            None => ports@.len() == 0,
            Some(p) => ports@.len() > 0 && normalized(ports@, p.ports@),
        },
{
    let ghost input = ports@;
    let ports = normalize_ports(ports);
    if ports.len() == 0 {
        proof {
            if input.len() > 0 {
                assert(input.contains(input[0]));
                assert(ports@.contains(input[0]));
            }
        }
        None
    } else {
        proof {
            if input.len() == 0 {
                assert(ports@.contains(ports@[0]));
            }
        }
        Some(Profile { ports })
    }
}

/// What `portsmith save` records.
pub enum SavePlan {
    /// No port was given and none was detected: there is nothing to save.
    NothingDetected,
    /// The profile to write.
    Save(Profile),
}

/// The profile that `portsmith save` writes: the explicit ports when any were
/// given, otherwise the detected ones, sorted and each once. With neither
/// there is nothing to save. (Detected ports are never the project's live
/// listeners: detection reads only the project files.)
pub fn save_plan(explicit: Vec<u16>, detected: &Vec<DetectedPort>) -> (r: SavePlan)
    ensures
        match r {
            SavePlan::NothingDetected => explicit@.len() == 0 && detected@.len() == 0,
            SavePlan::Save(p) => {
                &&& explicit@.len() > 0 || detected@.len() > 0
                &&& p.ports@.len() > 0
                &&& normalized(
                    if explicit@.len() > 0 {
                        explicit@
                    } else {
                        detected_ports(detected@)
                    },
                    p.ports@,
                )
            },
        },
{
    let chosen = if explicit.len() > 0 {
        explicit
    } else {
        port_numbers(detected)
    };
    match profile_from_ports(chosen) {
        None => SavePlan::NothingDetected,
        Some(p) => {
            proof {
                assert(p.ports@.len() > 0) by {
                    if p.ports@.len() == 0 {
                        assert(chosen@.contains(chosen@[0]));
                    }
                }
            }
            SavePlan::Save(p)
        },
    }
}

} // verus!
