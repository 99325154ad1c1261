//! The broadcast cycle: gather each session's new lines, advance the cursors
//! and combine everything into at most one tagged frame.
use vstd::prelude::*;
use crate::cursor::CursorTable;

verus! {

/// What the process bridge reported for one session in one cycle.
pub struct Fetched {
    /// The formatted delta, or `None` when the session has no new lines.
    pub message: Option<String>,
    /// The session's line count when the delta was read.
    pub line_count: u64,
}

/// The messages among the first `n` reports, in table order.
pub open spec fn batch(fetched: Seq<Fetched>, n: int) -> Seq<Seq<char>>
    decreases n,
{
    if n <= 0 {
        Seq::empty()
    } else {
        match fetched[n - 1].message {
            Some(m) => batch(fetched, n - 1).push(m@),
            None => batch(fetched, n - 1),
        }
    }
}

/// The parts separated by newlines.
pub open spec fn joined(parts: Seq<Seq<char>>) -> Seq<char>
    decreases parts.len(),
{
    if parts.len() == 0 {
        Seq::empty()
    } else if parts.len() == 1 {
        parts[0]
    } else {
        joined(parts.drop_last()) + seq!['\n'] + parts.last()
    }
}

/// The cursor after a report: it follows the line count forward when the
/// session reported lines, and never moves back.
pub open spec fn advanced(cursor: u64, f: Fetched) -> u64 {
    if f.message.is_some() && f.line_count > cursor {
        f.line_count
    } else {
        cursor
    }
}

/// The tag that opens every broadcast frame.
pub open spec fn frame_tag() -> Seq<char> {
    seq!['M', 'S', 'G', ' ']
}

/// One broadcast cycle over the reports for the table's sessions, in table
/// order. Advances the live cursors and returns the newline-joined batch, or
/// `None` when no session had new lines.
pub fn collect_cycle(table: &mut CursorTable, fetched: &Vec<Fetched>) -> (r: Option<String>)
    requires
        old(table).wf(),
        fetched@.len() == old(table)@.len(),
    ensures
        final(table).wf(),
        final(table)@.len() == old(table)@.len(),
        forall|i: int|
            0 <= i < old(table)@.len() ==> #[trigger] final(table)@[i] == (
                old(table)@[i].0,
                advanced(old(table)@[i].1, fetched@[i]),
            ),
        forall|i: int| 0 <= i < old(table)@.len() ==> #[trigger] final(table)@[i].1 >= old(table)@[i].1,
        r.is_none() <==> batch(fetched@, fetched@.len() as int).len() == 0,
        r.is_some() ==> r.unwrap()@ == joined(batch(fetched@, fetched@.len() as int)),
{
    let n = fetched.len();
    let mut body = String::new();
    let mut any = false;
    let mut i: usize = 0;
    while i < n
        invariant
            n == fetched@.len(),
            i <= n,
            table.wf(),
            table@.len() == n,
            old(table)@.len() == n,
            forall|j: int|
                0 <= j < i ==> #[trigger] table@[j] == (old(table)@[j].0, advanced(old(table)@[j].1, fetched@[j])),
            forall|j: int| i <= j < n ==> #[trigger] table@[j] == old(table)@[j],
            any <==> batch(fetched@, i as int).len() > 0,
            body@ == joined(batch(fetched@, i as int)),
        decreases n - i,
    {
        if let Some(m) = &fetched[i].message {
            let ghost b = batch(fetched@, i as int);
            let ghost prev = body@;
            proof {
                assert(batch(fetched@, i + 1) == b.push(m@));
                if b.len() > 0 {
                    assert(b.push(m@).drop_last() =~= b);
                } else {
                    assert(b.push(m@)[0] == m@);
                }
            }
            if any {
                let newline = "\n";
                proof {
                    reveal_strlit("\n");
                    assert(newline@ =~= seq!['\n']);
                }
                body.append(newline);
            }
            body.append(m.as_str());
            proof {
                if b.len() > 0 {
                    assert(body@ =~= prev + seq!['\n'] + m@);
                } else {
                    assert(body@ =~= m@);
                }
            }
            any = true;
            table.advance(i, fetched[i].line_count);
        }
        i = i + 1;
    }
    if any {
        Some(body)
    } else {
        None
    }
}

/// A cycle in which no session reported lines has an empty batch, so no
/// frame goes out.
pub proof fn lemma_quiet_cycle_sends_nothing(fetched: Seq<Fetched>, n: int)
    requires
        0 <= n <= fetched.len(),
        forall|i: int| 0 <= i < n ==> (#[trigger] fetched[i]).message.is_none(),
    ensures
        batch(fetched, n).len() == 0,
    decreases n,
{
    if n > 0 {
        lemma_quiet_cycle_sends_nothing(fetched, n - 1);
    }
}

/// Two sessions that report in the same cycle share one body: both deltas,
/// in table order, separated by a newline.
pub proof fn lemma_two_deltas_share_one_frame(fetched: Seq<Fetched>)
    requires
        fetched.len() == 2,
        fetched[0].message.is_some(),
        fetched[1].message.is_some(),
    ensures
        batch(fetched, 2) == seq![fetched[0].message.unwrap()@, fetched[1].message.unwrap()@],
        joined(batch(fetched, 2)) == fetched[0].message.unwrap()@ + seq!['\n'] + fetched[1].message.unwrap()@,
{
    let a = fetched[0].message.unwrap()@;
    let b = fetched[1].message.unwrap()@;
    assert(batch(fetched, 0) == Seq::<Seq<char>>::empty());
    assert(batch(fetched, 1) =~= seq![a]);
    assert(batch(fetched, 2) =~= seq![a, b]);
    assert(seq![a, b].drop_last() =~= seq![a]);
    assert(joined(seq![a]) == a);
    assert(seq![a, b].last() == b);
}

/// A cursor never moves back.
pub proof fn lemma_cursor_monotone(cursor: u64, f: Fetched)
    ensures
        advanced(cursor, f) >= cursor,
{
}

/// The frame sent to clients: the tag followed by the formatted batch.
pub fn compose_frame(body: &str) -> (r: String)
    ensures
        r@ == frame_tag() + body@,
{
    let mut frame = String::from_str("MSG ");
    proof {
        reveal_strlit("MSG ");
    }
    frame.append(body);
    frame
}

} // verus!
