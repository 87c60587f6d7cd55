//! Terminal presentation: when to color, and the boxed warning.
use vstd::prelude::*;

verus! {

/// Whether to emit ANSI styling to stderr: never when `NO_COLOR` is set, always
/// when `CLICOLOR_FORCE` is set, otherwise only when stderr is a terminal.
pub fn color_enabled(no_color: bool, clicolor_force: bool, stderr_is_terminal: bool) -> (r: bool)
    ensures
        r == (!no_color && (clicolor_force || stderr_is_terminal)),
{
    if no_color {
        return false;
    }
    if clicolor_force {
        return true;
    }
    stderr_is_terminal
}

/// `s` repeated `n` times.
pub open spec fn repeat_seq(s: Seq<char>, n: nat) -> Seq<char>
    decreases n,
{
    if n == 0 {
        seq![]
    } else {
        repeat_seq(s, (n - 1) as nat) + s
    }
}

/// Appends `piece` to `out` `n` times.
pub fn push_repeat(out: &mut String, piece: &str, n: usize)
    ensures
        final(out)@ == old(out)@ + repeat_seq(piece@, n as nat),
{
    let mut i: usize = 0;
    while i < n
        invariant
            i <= n,
            out@ == old(out)@ + repeat_seq(piece@, i as nat),
        decreases n - i,
    {
        out.append(piece);
        assert(old(out)@ + repeat_seq(piece@, (i + 1) as nat) =~= old(out)@ + repeat_seq(
            piece@,
            i as nat,
        ) + piece@);
        i = i + 1;
    }
}

/// The length, in characters, of the longest line.
pub open spec fn widest(lines: Seq<Seq<char>>) -> nat
    decreases lines.len(),
{
    if lines.len() == 0 {
        0
    } else {
        let w = widest(lines.drop_last());
        if lines.last().len() > w {
            lines.last().len()
        } else {
            w
        }
    }
}

/// No line is longer than `widest`.
pub proof fn lemma_widest(lines: Seq<Seq<char>>)
    ensures
        forall|j: int| 0 <= j < lines.len() ==> (#[trigger] lines[j]).len() <= widest(lines),
    decreases lines.len(),
{
    if lines.len() > 0 {
        let t = lines.drop_last();
        lemma_widest(t);
        assert forall|j: int| 0 <= j < lines.len() implies (#[trigger] lines[j]).len() <= widest(
            lines,
        ) by {
            if j < t.len() {
                assert(lines[j] == t[j]);
            }
        }
    }
}

/// An ANSI style when color is on, nothing otherwise.
pub open spec fn paint(color: bool, code: Seq<char>) -> Seq<char> {
    if color {
        code
    } else {
        seq![]
    }
}

/// The top or bottom edge of the box, between the corners `left` and `right`.
pub open spec fn box_edge(color: bool, left: Seq<char>, right: Seq<char>, inner: nat) -> Seq<char> {
    "  "@ + paint(color, "\x1b[33m"@) + left + repeat_seq("─"@, inner) + right + paint(
        color,
        "\x1b[0m"@,
    )
}

/// Line `i` of the box body: the text padded to the box's inner width, the
/// heading (`i == 0`) bold.
pub open spec fn box_row(color: bool, i: int, line: Seq<char>, inner: nat) -> Seq<char> {
    let style = if i == 0 {
        paint(color, "\x1b[1;33m"@)
    } else {
        paint(color, "\x1b[33m"@)
    };
    "  "@ + paint(color, "\x1b[33m"@) + "│"@ + paint(color, "\x1b[0m"@) + style + "  "@ + line
        + repeat_seq(" "@, (inner - 2 - line.len()) as nat) + paint(color, "\x1b[0m"@) + paint(
        color,
        "\x1b[33m"@,
    ) + "│"@ + paint(color, "\x1b[0m"@)
}

/// The lines of a boxed warning, as written to stderr: a blank line, the top
/// edge, one row per line of text, the bottom edge, a blank line. The box is as
/// wide as the longest line plus two spaces on each side.
pub open spec fn warn_box_text(lines: Seq<Seq<char>>, color: bool) -> Seq<Seq<char>> {
    let inner = widest(lines) + 4;
    seq![seq![], box_edge(color, "╭"@, "╮"@, inner)] + Seq::new(
        lines.len(),
        |i: int| box_row(color, i, lines[i], inner),
    ) + seq![box_edge(color, "╰"@, "╯"@, inner), seq![]]
}

/// Repeating one character `n` times gives `n` characters.
pub proof fn lemma_repeat_len(s: Seq<char>, n: nat)
    requires
        s.len() == 1,
    ensures
        repeat_seq(s, n).len() == n,
    decreases n,
{
    if n > 0 {
        lemma_repeat_len(s, (n - 1) as nat);
    }
}

/// Without color the box is aligned: its edges and every row are exactly as
/// wide, the longest line plus eight characters.
pub proof fn warn_box_is_aligned(lines: Seq<Seq<char>>)
    ensures
        warn_box_text(lines, false).len() == lines.len() + 4,
        forall|k: int|
            1 <= k <= lines.len() + 2 ==> (#[trigger] warn_box_text(lines, false)[k]).len()
                == widest(lines) + 8,
{
    reveal_strlit("  ");
    reveal_strlit(" ");
    reveal_strlit("─");
    reveal_strlit("│");
    reveal_strlit("╭");
    reveal_strlit("╮");
    reveal_strlit("╰");
    reveal_strlit("╯");
    let inner = widest(lines) + 4;
    lemma_widest(lines);
    lemma_repeat_len("─"@, inner);
    let text = warn_box_text(lines, false);
    assert forall|k: int| 1 <= k <= lines.len() + 2 implies (#[trigger] text[k]).len() == widest(
        lines,
    ) + 8 by {
        if 2 <= k <= lines.len() + 1 {
            let line = lines[k - 2];
            lemma_repeat_len(" "@, (inner - 2 - line.len()) as nat);
            assert(text[k] == box_row(false, k - 2, line, inner));
        }
    }
}

/// The views of a list of strings.
pub open spec fn strs_view(lines: Seq<&str>) -> Seq<Seq<char>> {
    lines.map_values(|l: &str| l@)
}

/// The views of a list of owned strings.
pub open spec fn strings_view(lines: Seq<String>) -> Seq<Seq<char>> {
    lines.map_values(|l: String| l@)
}

/// Appends `code` to `out` when color is on.
fn push_style(out: &mut String, color: bool, code: &str)
    ensures
        final(out)@ == old(out)@ + paint(color, code@),
{
    if color {
        out.append(code);
    } else {
        assert(old(out)@ + paint(color, code@) =~= old(out)@);
    }
}

/// An edge of the box.
fn edge(color: bool, left: &str, right: &str, inner: usize) -> (r: String)
    ensures
        r@ == box_edge(color, left@, right@, inner as nat),
{
    let mut s = "  ".to_owned();
    push_style(&mut s, color, "\x1b[33m");
    s.append(left);
    push_repeat(&mut s, "─", inner);
    s.append(right);
    push_style(&mut s, color, "\x1b[0m");
    assert(s@ =~= box_edge(color, left@, right@, inner as nat));
    s
}

/// The lines of a boxed warning: the first entry of `lines` is the bold heading,
/// the rest are body lines (`""` for a blank spacer). The box is drawn in yellow
/// when `color` is on, and degrades to a clean aligned box otherwise.
pub fn warn_box(lines: &Vec<&str>, color: bool) -> (r: Vec<String>)
    requires
        lines@.len() < usize::MAX - 4,
        forall|i: int| 0 <= i < lines@.len() ==> (#[trigger] lines@[i])@.len() < usize::MAX - 8,
    ensures
        strings_view(r@) == warn_box_text(strs_view(lines@), color),
{
    let ghost ls = strs_view(lines@);
    let mut wide: usize = 0;
    let mut i: usize = 0;
    while i < lines.len()
        invariant
            i <= lines@.len(),
            ls == strs_view(lines@),
            forall|j: int| 0 <= j < lines@.len() ==> (#[trigger] lines@[j])@.len() < usize::MAX - 8,
            wide == widest(ls.take(i as int)),
            wide < usize::MAX - 8,
        decreases lines@.len() - i,
    {
        assert(ls.take(i + 1).drop_last() =~= ls.take(i as int));
        let n = lines[i].unicode_len();
        if n > wide {
            wide = n;
        }
        i = i + 1;
    }
    assert(ls.take(lines@.len() as int) =~= ls);
    let inner = wide + 4;
    proof {
        lemma_widest(ls);
    }
    let mut out: Vec<String> = Vec::new();
    out.push(String::new());
    out.push(edge(color, "╭", "╮", inner));
    assert(strings_view(out@) =~= seq![seq![], box_edge(color, "╭"@, "╮"@, inner as nat)]
        + Seq::new(0, |j: int| box_row(color, j, ls[j], inner as nat)));
    let mut k: usize = 0;
    while k < lines.len()
        invariant
            k <= lines@.len(),
            ls == strs_view(lines@),
            inner == widest(ls) + 4,
            forall|j: int| 0 <= j < ls.len() ==> (#[trigger] ls[j]).len() <= widest(ls),
            strings_view(out@) == seq![seq![], box_edge(color, "╭"@, "╮"@, inner as nat)] + Seq::new(
                k as nat,
                |j: int| box_row(color, j, ls[j], inner as nat),
            ),
        decreases lines@.len() - k,
    {
        let line = lines[k];
        let mut s = "  ".to_owned();
        push_style(&mut s, color, "\x1b[33m");
        s.append("│");
        push_style(&mut s, color, "\x1b[0m");
        if k == 0 {
            push_style(&mut s, color, "\x1b[1;33m");
        } else {
            push_style(&mut s, color, "\x1b[33m");
        }
        s.append("  ");
        s.append(line);
        assert(ls[k as int] == line@);
        push_repeat(&mut s, " ", inner - 2 - line.unicode_len());
        push_style(&mut s, color, "\x1b[0m");
        push_style(&mut s, color, "\x1b[33m");
        s.append("│");
        push_style(&mut s, color, "\x1b[0m");
        assert(s@ =~= box_row(color, k as int, ls[k as int], inner as nat));
        let ghost before = out@;
        out.push(s);
        assert(strings_view(out@) =~= strings_view(before).push(s@));
        k = k + 1;
    }
    let ghost body = out@;
    out.push(edge(color, "╰", "╯", inner));
    out.push(String::new());
    assert(strings_view(out@) =~= strings_view(body) + seq![
        box_edge(color, "╰"@, "╯"@, inner as nat),
        seq![],
    ]);
    assert(strings_view(out@) =~= warn_box_text(ls, color));
    out
}

} // verus!
