use vstd::prelude::*;
use crate::table::{views, EntryView, HighScoreTable};

verus! {

/// The digit `d` (below ten) as a character.
pub open spec fn digit_char(d: nat) -> char {
    seq!['0', '1', '2', '3', '4', '5', '6', '7', '8', '9'][d as int]
}

/// `n` written in decimal, without leading zeros.
pub open spec fn decimal(n: nat) -> Seq<char>
    decreases n,
{
    if n < 10 {
        seq![digit_char(n)]
    } else {
        decimal(n / 10).push(digit_char(n % 10))
    }
}

/// The page title and the table's header row.
pub open spec fn page_head() -> Seq<char> {
    "<h1>High Scores</h1>"@ + "<table>"@ + "<tr><th>Name</th><th>Score</th></tr>"@
}

/// The table row of one entry.
pub open spec fn row(e: EntryView) -> Seq<char> {
    "<tr><td>"@ + e.name + "</td><td>"@ + decimal(e.score as nat) + "</td></tr>"@
}

/// The rows of `s`, in order.
pub open spec fn rows(s: Seq<EntryView>) -> Seq<char>
    decreases s.len(),
{
    if s.len() == 0 {
        Seq::empty()
    } else {
        rows(s.drop_last()) + row(s.last())
    }
}

/// The rendered leaderboard.
pub open spec fn page(s: Seq<EntryView>) -> Seq<char> {
    page_head() + rows(s) + "</table>"@
}

fn digit_str(d: u32) -> (r: &'static str)
    requires
        d < 10,
    ensures
        r@ == seq![digit_char(d as nat)],
{
    proof {
        reveal_strlit("0");
        reveal_strlit("1");
        reveal_strlit("2");
        reveal_strlit("3");
        reveal_strlit("4");
        reveal_strlit("5");
        reveal_strlit("6");
        reveal_strlit("7");
        reveal_strlit("8");
        reveal_strlit("9");
    }
    let r = match d {
        0 => "0",
        1 => "1",
        2 => "2",
        3 => "3",
        4 => "4",
        5 => "5",
        6 => "6",
        7 => "7",
        8 => "8",
        _ => "9",
    };
    assert(r@ =~= seq![digit_char(d as nat)]);
    r
}

/// Appends `n` in decimal to `out`.
fn append_decimal(out: &mut String, n: u32)
    ensures
        final(out)@ == old(out)@ + decimal(n as nat),
    decreases n,
{
    if n >= 10 {
        append_decimal(out, n / 10);
    }
    out.append(digit_str(n % 10));
    assert(final(out)@ =~= old(out)@ + decimal(n as nat));
}

/// The leaderboard as an HTML fragment: a title, then a table with a header
/// row and one row per entry, best first.
pub fn high_scores_html(table: &HighScoreTable) -> (r: String)
    ensures
        r@ == page(table@),
{
    let entries = table.entries();
    let ghost s = table@;
    let mut html = String::new();
    html.append("<h1>High Scores</h1>");
    html.append("<table>");
    html.append("<tr><th>Name</th><th>Score</th></tr>");
    let mut i: usize = 0;
    while i < entries.len()
        invariant
            views(entries@) == s,
            i <= entries@.len(),
            html@ == page_head() + rows(s.take(i as int)),
        decreases entries.len() - i,
    {
        let e = &entries[i];
        let ghost before = html@;
        html.append("<tr><td>");
        html.append(e.name.as_str());
        html.append("</td><td>");
        append_decimal(&mut html, e.score);
        html.append("</td></tr>");
        assert(s.take(i + 1).drop_last() =~= s.take(i as int));
        assert(s[i as int] == e@);
        assert(html@ =~= before + row(e@));
        i = i + 1;
    }
    html.append("</table>");
    assert(s.take(i as int) =~= s);
    assert(html@ =~= page(s));
    html
}

} // verus!
