//! The two output forms of a query: the commands joined by a separator, or
//! their positions one per line.
use vstd::prelude::*;
use crate::query::texts;
use crate::text::dec_text;

verus! {

broadcast use vstd::string::group_string_axioms;

/// What stands between two commands in the joined output: NUL, then newline.
pub const COMMAND_SEPARATOR: &'static str = "\0\n";

/// What the positions output holds when nothing matched.
pub const NO_MATCHES: &'static str = "NONE";

/// The items with `sep` between each two of them, and none after the last.
pub open spec fn joined(items: Seq<Seq<char>>, sep: Seq<char>) -> Seq<char>
    decreases items.len(),
{
    if items.len() == 0 {
        Seq::empty()
    } else if items.len() == 1 {
        items[0]
    } else {
        joined(items.drop_last(), sep) + sep + items.last()
    }
}

/// Relies on `Itertools::intersperse`, collected into one `String`: a copy of
/// `sep` between each two items, none before the first or after the last.
#[verifier::external_body]
fn intersperse_join(items: &Vec<String>, sep: &str) -> (r: String)
    ensures
        r@ == joined(texts(items@), sep@),
{
    itertools::Itertools::intersperse(items.iter().cloned(), sep.to_string()).collect()
}

/// Relies on `ToString` for `usize`: the decimal digits of `n`, without
/// leading zeros.
#[verifier::external_body]
fn decimal(n: usize) -> (r: String)
    ensures
        r@ == dec_text(n as nat),
{
    n.to_string()
}

/// The commands joined by `COMMAND_SEPARATOR`.
pub fn render_commands(commands: &Vec<String>) -> (r: String)
    ensures
        r@ == joined(texts(commands@), COMMAND_SEPARATOR@),
{
    intersperse_join(commands, COMMAND_SEPARATOR)
}

/// The lines of the positions output for `count` results: `0` up to
/// `count - 1`, or the single line `NONE` when there are none.
pub fn index_lines(count: usize) -> (r: Vec<String>)
    ensures
        count == 0 ==> texts(r@) == seq![NO_MATCHES@],
        count > 0 ==> r.len() == count && forall|i: int|
            0 <= i < count ==> #[trigger] r@[i]@ == dec_text(i as nat),
{
    let mut lines: Vec<String> = Vec::new();
    if count == 0 {
        lines.push(NO_MATCHES.to_owned());
        assert(texts(lines@) =~= seq![NO_MATCHES@]);
        return lines;
    }
    let mut i: usize = 0;
    while i < count
        invariant
            i <= count,
            lines.len() == i,
            forall|j: int| 0 <= j < i ==> #[trigger] lines@[j]@ == dec_text(j as nat),
        decreases count - i,
    {
        lines.push(decimal(i));
        i = i + 1;
    }
    lines
}

} // verus!
