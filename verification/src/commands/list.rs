//! `portsmith list`: the table of listening sockets.
use vstd::prelude::*;

use crate::commands::ListenerInfo;
use crate::text::{decimal_text, push_decimal};
use crate::ui::{push_repeat, repeat_seq, strings_view};

verus! {

/// `s` left-aligned in a field of `width` characters (`{:<width}`).
pub open spec fn padded(s: Seq<char>, width: nat) -> Seq<char> {
    if s.len() < width {
        s + repeat_seq(" "@, (width - s.len()) as nat)
    } else {
        s
    }
}

/// A row of the listener table: protocol, address, PID and process in fields of
/// 8, 24, 8 and 20 characters, separated by single spaces.
pub open spec fn table_row(
    proto: Seq<char>,
    address: Seq<char>,
    pid: Seq<char>,
    process: Seq<char>,
) -> Seq<char> {
    padded(proto, 8) + " "@ + padded(address, 24) + " "@ + padded(pid, 8) + " "@ + padded(
        process,
        20,
    )
}

/// The lines of the listener table: the header, a rule of 62 dashes, one row per listener.
pub open spec fn listener_table(ls: Seq<ListenerInfo>) -> Seq<Seq<char>> {
    seq![table_row("PROTO"@, "ADDRESS"@, "PID"@, "PROCESS"@), repeat_seq("-"@, 62)] + Seq::new(
        ls.len(),
        |i: int|
            table_row(ls[i].protocol@, ls[i].address@, decimal_text(ls[i].pid as nat), ls[i].process@),
    )
}

/// Appends `s` to `out`, left-aligned in a field of `width` characters.
fn push_padded(out: &mut String, s: &str, width: usize)
    ensures
        final(out)@ == old(out)@ + padded(s@, width as nat),
{
    let n = s.unicode_len();
    out.append(s);
    if n < width {
        push_repeat(out, " ", width - n);
    }
}

/// One row of the table.
fn row(proto: &str, address: &str, pid: &str, process: &str) -> (r: String)
    ensures
        r@ == table_row(proto@, address@, pid@, process@),
{
    let mut s = String::new();
    push_padded(&mut s, proto, 8);
    s.append(" ");
    push_padded(&mut s, address, 24);
    s.append(" ");
    push_padded(&mut s, pid, 8);
    s.append(" ");
    push_padded(&mut s, process, 20);
    assert(s@ =~= table_row(proto@, address@, pid@, process@));
    s
}

/// The lines that `list` prints for the given listeners.
pub fn listener_table_lines(listeners: &Vec<ListenerInfo>) -> (r: Vec<String>)
    ensures
        strings_view(r@) == listener_table(listeners@),
{
    let mut out: Vec<String> = Vec::new();
    out.push(row("PROTO", "ADDRESS", "PID", "PROCESS"));
    let mut rule = String::new();
    push_repeat(&mut rule, "-", 62);
    out.push(rule);
    let ghost head = seq![table_row("PROTO"@, "ADDRESS"@, "PID"@, "PROCESS"@), repeat_seq("-"@, 62)];
    assert(strings_view(out@) =~= head);
    let mut i: usize = 0;
    while i < listeners.len()
        invariant
            i <= listeners@.len(),
            head == seq![table_row("PROTO"@, "ADDRESS"@, "PID"@, "PROCESS"@), repeat_seq("-"@, 62)],
            strings_view(out@) == head + Seq::new(
                i as nat,
                |k: int|
                    table_row(
                        listeners@[k].protocol@,
                        listeners@[k].address@,
                        decimal_text(listeners@[k].pid as nat),
                        listeners@[k].process@,
                    ),
            ),
        decreases listeners@.len() - i,
    {
        let l = &listeners[i];
        let mut pid = String::new();
        push_decimal(&mut pid, l.pid);
        assert(pid@ =~= decimal_text(l.pid as nat));
        let line = row(l.protocol.as_str(), l.address.as_str(), pid.as_str(), l.process.as_str());
        let ghost before = out@;
        out.push(line);
        assert(strings_view(out@) =~= strings_view(before).push(line@));
        i = i + 1;
    }
    out
}

} // verus!
