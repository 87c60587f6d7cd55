//! The logic behind each `portsmith` command, and the listening sockets it works on.
pub mod check;
pub mod detect;
pub mod list;
pub mod profile;
pub mod start;

use vstd::prelude::*;

verus! {

/// A socket that a process listens on, as the commands read it.
pub struct ListenerInfo {
    pub port: u16,
    pub pid: u32,
    /// The name of the listening process.
    pub process: String,
    /// The protocol, e.g. `TCP`.
    pub protocol: String,
    /// The socket address, e.g. `127.0.0.1:3000`.
    pub address: String,
}

impl ListenerInfo {
    /// A copy of this listener.
    pub fn duplicate(&self) -> (r: ListenerInfo)
        ensures
            r == *self,
    {
        ListenerInfo {
            port: self.port,
            pid: self.pid,
            process: self.process.clone(),
            protocol: self.protocol.clone(),
            address: self.address.clone(),
        }
    }
}

/// The listeners of `s` whose port is `port`, in order.
pub open spec fn on_port(s: Seq<ListenerInfo>, port: u16) -> Seq<ListenerInfo> {
    s.filter(|l: ListenerInfo| l.port == port)
}

/// `s` is ordered by port.
pub open spec fn sorted_by_port(s: Seq<ListenerInfo>) -> bool {
    forall|a: int, b: int| 0 <= a < b < s.len() ==> (#[trigger] s[a]).port <= (#[trigger] s[b]).port
}

/// Filtering a sequence none of whose elements pass keeps nothing.
pub proof fn lemma_filter_none<A>(s: Seq<A>, pred: spec_fn(A) -> bool)
    requires
        forall|k: int| 0 <= k < s.len() ==> !pred(#[trigger] s[k]),
    ensures
        s.filter(pred) == Seq::<A>::empty(),
    decreases s.len(),
{
    reveal(Seq::filter);
    if s.len() > 0 {
        lemma_filter_none(s.drop_last(), pred);
    }
}

/// Filtering a sequence with one more element at the end.
pub proof fn lemma_filter_push<A>(s: Seq<A>, x: A, pred: spec_fn(A) -> bool)
    ensures
        s.push(x).filter(pred) == (if pred(x) {
            s.filter(pred).push(x)
        } else {
            s.filter(pred)
        }),
{
    reveal_with_fuel(Seq::filter, 1);
    assert(s.push(x).drop_last() =~= s);
}

/// Inserting `x` before the listeners with a greater port adds it at the end of
/// the listeners on its port, and changes the listeners on no other port.
pub proof fn lemma_insert_on_port(before: Seq<ListenerInfo>, pos: int, x: ListenerInfo, p: u16)
    requires
        0 <= pos <= before.len(),
        forall|k: int| pos <= k < before.len() ==> (#[trigger] before[k]).port > x.port,
    ensures
        on_port(before.insert(pos, x), p) == (if x.port == p {
            on_port(before, p).push(x)
        } else {
            on_port(before, p)
        }),
{
    let pred = |l: ListenerInfo| l.port == p;
    let lo = before.take(pos);
    let hi = before.skip(pos);
    assert(before =~= lo + hi);
    assert(before.insert(pos, x) =~= (lo + seq![x]) + hi);
    Seq::filter_distributes_over_add(lo + seq![x], hi, pred);
    Seq::filter_distributes_over_add(lo, seq![x], pred);
    Seq::filter_distributes_over_add(lo, hi, pred);
    lemma_filter_push(Seq::<ListenerInfo>::empty(), x, pred);
    assert(seq![x] =~= Seq::<ListenerInfo>::empty().push(x));
    lemma_filter_none(Seq::<ListenerInfo>::empty(), pred);
    if x.port == p {
        assert forall|k: int| 0 <= k < hi.len() implies !pred(#[trigger] hi[k]) by {
            assert(hi[k] == before[pos + k]);
        }
        lemma_filter_none(hi, pred);
        assert(lo.filter(pred) + seq![x] + Seq::<ListenerInfo>::empty() =~= (lo.filter(pred)
            + Seq::<ListenerInfo>::empty()).push(x));
    } else {
        assert(lo.filter(pred) + Seq::<ListenerInfo>::empty() + hi.filter(pred) =~= lo.filter(pred)
            + hi.filter(pred));
    }
}

/// The listeners stably sorted by port: ordered by port, and for each port the
/// listeners on it in their original order.
pub fn sort_listeners(listeners: Vec<ListenerInfo>) -> (r: Vec<ListenerInfo>)
    ensures
        r@.len() == listeners@.len(),
        sorted_by_port(r@),
        forall|p: u16| #[trigger] on_port(r@, p) == on_port(listeners@, p),
{
    let ghost input = listeners@;
    let mut rest = listeners;
    let mut out: Vec<ListenerInfo> = Vec::new();
    let mut i: usize = 0;
    let n = rest.len();
    while rest.len() > 0
        invariant
            n == input.len(),
            i + rest@.len() == n,
            rest@ == input.skip(i as int),
            out@.len() == i,
            sorted_by_port(out@),
            forall|p: u16| #[trigger] on_port(out@, p) == on_port(input.take(i as int), p),
        decreases rest@.len(),
    {
        let ghost old_rest = rest@;
        let x = rest.remove(0);
        assert(x == input[i as int]);
        assert(rest@ =~= input.skip(i + 1));
        let mut pos: usize = 0;
        while pos < out.len() && out[pos].port <= x.port
            invariant
                pos <= out@.len(),
                forall|k: int| 0 <= k < pos ==> (#[trigger] out@[k]).port <= x.port,
            decreases out@.len() - pos,
        {
            pos = pos + 1;
        }
        let ghost before = out@;
        proof {
            assert forall|k: int| pos <= k < before.len() implies (#[trigger] before[k]).port > x.port by {
                assert(before[pos as int].port > x.port);
                if k > pos {
                    assert(before[pos as int].port <= before[k].port);
                }
            }
        }
        out.insert(pos, x);
        proof {
            assert(input.take(i + 1) =~= input.take(i as int).push(x));
            assert forall|p: u16| #[trigger] on_port(out@, p) == on_port(input.take(i + 1), p) by {
                lemma_insert_on_port(before, pos as int, x, p);
                lemma_filter_push(input.take(i as int), x, |l: ListenerInfo| l.port == p);
            }
            assert forall|a: int, b: int| 0 <= a < b < out@.len() implies (#[trigger] out@[a]).port
                <= (#[trigger] out@[b]).port by {
                if b < pos {
                    assert(out@[a] == before[a] && out@[b] == before[b]);
                } else if b == pos {
                    assert(out@[a] == before[a]);
                } else if a < pos {
                    assert(out@[a] == before[a] && out@[b] == before[b - 1]);
                } else if a == pos {
                    assert(out@[b] == before[b - 1]);
                } else {
                    assert(out@[a] == before[a - 1] && out@[b] == before[b - 1]);
                }
            }
        }
        i = i + 1;
    }
    assert(input.take(n as int) =~= input);
    out
}

/// The listeners on `port`, in order.
pub fn listeners_on_port(listeners: &Vec<ListenerInfo>, port: u16) -> (r: Vec<ListenerInfo>)
    ensures
        r@ == on_port(listeners@, port),
{
    let mut out: Vec<ListenerInfo> = Vec::new();
    let mut i: usize = 0;
    while i < listeners.len()
        invariant
            i <= listeners@.len(),
            out@ == on_port(listeners@.take(i as int), port),
        decreases listeners@.len() - i,
    {
        let l = &listeners[i];
        proof {
            assert(listeners@.take(i + 1) =~= listeners@.take(i as int).push(listeners@[i as int]));
            lemma_filter_push(
                listeners@.take(i as int),
                listeners@[i as int],
                |l: ListenerInfo| l.port == port,
            );
        }
        if l.port == port {
            out.push(l.duplicate());
        }
        i = i + 1;
    }
    assert(listeners@.take(listeners@.len() as int) =~= listeners@);
    out
}

} // verus!
