//! Cutting a line into fields at the separator, with or without regard to
//! double quotes.

use crate::text::{chars_of, count_of, string_of, texts, trimmed, trimmed_string};
use vstd::prelude::*;

verus! {

/// Whether the character at position `i` of `line` ends a field.
///
/// It does when it is the separator. Where quotes count (`quoted`), the
/// separator must also stand outside quotes: an even number of `"` comes
/// before it. A `"` is then never a separator, even when it is asked for
/// as one.
pub open spec fn is_cut(line: Seq<char>, separator: char, quoted: bool, i: int) -> bool {
    &&& 0 <= i < line.len()
    &&& line[i] == separator
    &&& quoted ==> separator != '"' && count_of(line.take(i), '"') % 2 == 0
}

/// The positions below `n` at which `line` is cut, in ascending order.
pub open spec fn cuts(line: Seq<char>, separator: char, quoted: bool, n: int) -> Seq<int>
    decreases n,
{
    if n <= 0 {
        Seq::empty()
    } else {
        let before = cuts(line, separator, quoted, n - 1);
        if is_cut(line, separator, quoted, n - 1) {
            before.push(n - 1)
        } else {
            before
        }
    }
}

/// The stretch of `line` number `k` that the cuts `at` leave: from behind
/// the cut before it (or the start of the line) up to the next cut (or the
/// end of the line).
pub open spec fn piece(line: Seq<char>, at: Seq<int>, k: int) -> Seq<char> {
    let from = if k == 0 {
        0
    } else {
        at[k - 1] + 1
    };
    let to = if k == at.len() {
        line.len() as int
    } else {
        at[k]
    };
    line.subrange(from, to)
}

/// `s` with every `"` taken out.
pub open spec fn without_quotes(s: Seq<char>) -> Seq<char>
    decreases s.len(),
{
    if s.len() == 0 {
        s
    } else if s.last() == '"' {
        without_quotes(s.drop_last())
    } else {
        without_quotes(s.drop_last()).push(s.last())
    }
}

/// The column names of a header line: the line cut at every separator,
/// each piece taken as it stands.
pub open spec fn header_names(line: Seq<char>, separator: char) -> Seq<Seq<char>> {
    let at = cuts(line, separator, false, line.len() as int);
    Seq::new(at.len() + 1, |k: int| piece(line, at, k))
}

/// The fields of a data line: the line cut at every separator outside
/// quotes, each piece without its quotes and then without the white space
/// around it.
pub open spec fn row_fields(line: Seq<char>, separator: char) -> Seq<Seq<char>> {
    let at = cuts(line, separator, true, line.len() as int);
    Seq::new(at.len() + 1, |k: int| trimmed(without_quotes(piece(line, at, k))))
}

/// Cuts lie inside the stretch examined, stand in strictly ascending
/// order, and are no more than the positions examined.
proof fn lemma_cuts_ascend(line: Seq<char>, separator: char, quoted: bool, n: int)
    requires
        0 <= n <= line.len(),
    ensures
        cuts(line, separator, quoted, n).len() <= n,
        forall|k: int|
            0 <= k < cuts(line, separator, quoted, n).len() ==> 0 <= #[trigger] cuts(
                line,
                separator,
                quoted,
                n,
            )[k] < n,
        forall|j: int, k: int|
            0 <= j < k < cuts(line, separator, quoted, n).len() ==> cuts(
                line,
                separator,
                quoted,
                n,
            )[j] < cuts(line, separator, quoted, n)[k],
    decreases n,
{
    if n > 0 {
        lemma_cuts_ascend(line, separator, quoted, n - 1);
    }
}

/// Below `n`, a line is cut exactly where `is_cut` says.
proof fn lemma_cuts_hold_the_cut_positions(
    line: Seq<char>,
    separator: char,
    quoted: bool,
    n: int,
    i: int,
)
    requires
        0 <= n <= line.len(),
    ensures
        cuts(line, separator, quoted, n).contains(i) <==> 0 <= i < n && is_cut(
            line,
            separator,
            quoted,
            i,
        ),
    decreases n,
{
    if n > 0 {
        let before = cuts(line, separator, quoted, n - 1);
        lemma_cuts_hold_the_cut_positions(line, separator, quoted, n - 1, i);
        if is_cut(line, separator, quoted, n - 1) {
            let now = before.push(n - 1);
            if i == n - 1 {
                assert(now[before.len() as int] == i);
            } else if before.contains(i) {
                let k = choose|k: int| 0 <= k < before.len() && before[k] == i;
                assert(now[k] == i);
            }
        }
    }
}

/// Where a line is cut. The cuts of a whole line are exactly the positions
/// at which `is_cut` holds, each once, from left to right.
pub proof fn law_cuts_are_the_separators(line: Seq<char>, separator: char, quoted: bool)
    ensures
        forall|i: int|
            #[trigger] cuts(line, separator, quoted, line.len() as int).contains(i) <==> is_cut(
                line,
                separator,
                quoted,
                i,
            ),
        forall|j: int, k: int|
            0 <= j < k < cuts(line, separator, quoted, line.len() as int).len() ==> cuts(
                line,
                separator,
                quoted,
                line.len() as int,
            )[j] < cuts(line, separator, quoted, line.len() as int)[k],
{
    lemma_cuts_ascend(line, separator, quoted, line.len() as int);
    assert forall|i: int| #[trigger]
        cuts(line, separator, quoted, line.len() as int).contains(i) <==> is_cut(
            line,
            separator,
            quoted,
            i,
        ) by {
        lemma_cuts_hold_the_cut_positions(line, separator, quoted, line.len() as int, i);
    }
}

/// Splits a data line into its fields.
///
/// The line is read from left to right. Every `"` switches between
/// "inside quotes" and "outside quotes" and is itself dropped. A separator
/// outside quotes ends the field; inside quotes it is part of the field.
/// Each field loses the white space around it. The last field is always
/// given, so the result is never empty.
pub fn split_csv_line(line: &str, delimiter: char) -> (fields: Vec<String>)
    ensures
        texts(fields@) == row_fields(line@, delimiter),
{
    let chars = chars_of(line);
    let n = chars.len();
    let mut fields: Vec<String> = Vec::new();
    let mut current: Vec<char> = Vec::new();
    let mut in_quotes = false;
    let ghost mut at: Seq<int> = Seq::empty();
    let ghost mut start: int = 0;
    let mut i: usize = 0;
    while i < n
        invariant
            i <= n == chars.len(),
            in_quotes == (count_of(chars@.take(i as int), '"') % 2 == 1),
            at == cuts(chars@, delimiter, true, i as int),
            start == if at.len() == 0 {
                0
            } else {
                at.last() + 1
            },
            0 <= start <= i,
            current@ == without_quotes(chars@.subrange(start, i as int)),
            fields.len() == at.len(),
            forall|k: int|
                0 <= k < at.len() ==> (#[trigger] fields[k])@ == trimmed(
                    without_quotes(piece(chars@, at, k)),
                ),
        decreases n - i,
    {
        let c = chars[i];
        proof {
            assert(chars@.take(i + 1).drop_last() == chars@.take(i as int));
            assert(chars@.subrange(start, i + 1).drop_last() == chars@.subrange(start, i as int));
        }
        if c == '"' {
            in_quotes = !in_quotes;
        } else if c == delimiter && !in_quotes {
            let field = trimmed_string(&current);
            proof {
                let grown = at.push(i as int);
                assert forall|k: int| 0 <= k < at.len() implies piece(chars@, grown, k) == piece(
                    chars@,
                    at,
                    k,
                ) by {}
                at = grown;
                start = i + 1;
            }
            fields.push(field);
            current = Vec::new();
        } else {
            current.push(c);
        }
        i += 1;
    }
    let field = trimmed_string(&current);
    fields.push(field);
    fields
}

/// Splits a header line into its column names: the pieces between
/// separators, as they stand. Quotes and white space are ordinary
/// characters here.
pub fn split_header(line: &str, delimiter: char) -> (names: Vec<String>)
    ensures
        texts(names@) == header_names(line@, delimiter),
{
    let chars = chars_of(line);
    let n = chars.len();
    let mut names: Vec<String> = Vec::new();
    let ghost mut at: Seq<int> = Seq::empty();
    let mut start: usize = 0;
    let mut i: usize = 0;
    while i < n
        invariant
            i <= n == chars.len(),
            at == cuts(chars@, delimiter, false, i as int),
            start == if at.len() == 0 {
                0
            } else {
                at.last() + 1
            },
            start <= i,
            names.len() == at.len(),
            forall|k: int| 0 <= k < at.len() ==> (#[trigger] names[k])@ == piece(chars@, at, k),
        decreases n - i,
    {
        if chars[i] == delimiter {
            let name = string_of(&chars, start, i);
            proof {
                let grown = at.push(i as int);
                assert forall|k: int| 0 <= k < at.len() implies piece(chars@, grown, k) == piece(
                    chars@,
                    at,
                    k,
                ) by {}
                at = grown;
            }
            names.push(name);
            start = i + 1;
        }
        i += 1;
    }
    let name = string_of(&chars, start, n);
    names.push(name);
    names
}

} // verus!
