//! Build-queue priorities: rows of `LIKE` patterns with a priority each,
//! where the first pattern a crate name matches decides its priority.

use crate::like::{like_matches, str_like_match};
use crate::text::str_eq;
use vstd::prelude::*;

verus! {

/// The priority of a crate no pattern matches.
pub const DEFAULT_PRIORITY: i32 = 0;

/// One stored pattern with its priority.
pub struct PriorityRow {
    pub pattern: String,
    pub priority: i32,
}

/// The priority patterns, in backend row order.
pub struct PriorityTable {
    rows: Vec<PriorityRow>,
}

/// The priority of the first row whose pattern matches `name`.
pub open spec fn first_match(rows: Seq<PriorityRow>, name: Seq<char>) -> Option<i32>
    decreases rows.len(),
{
    if rows.len() == 0 {
        None
    } else if like_matches(rows[0].pattern@, name) {
        Some(rows[0].priority)
    } else {
        first_match(rows.skip(1), name)
    }
}

/// The priority of the first row stored under exactly this pattern.
pub open spec fn first_pattern_priority(rows: Seq<PriorityRow>, pattern: Seq<char>) -> Option<
    i32,
>
    decreases rows.len(),
{
    if rows.len() == 0 {
        None
    } else if rows[0].pattern@ == pattern {
        Some(rows[0].priority)
    } else {
        first_pattern_priority(rows.skip(1), pattern)
    }
}

/// The rows left after deleting every row stored under this pattern.
pub open spec fn without_pattern(rows: Seq<PriorityRow>, pattern: Seq<char>) -> Seq<PriorityRow>
    decreases rows.len(),
{
    if rows.len() == 0 {
        Seq::empty()
    } else {
        let rest = without_pattern(rows.drop_last(), pattern);
        if rows.last().pattern@ == pattern {
            rest
        } else {
            rest.push(rows.last())
        }
    }
}

impl PriorityTable {
    /// The stored rows, in order.
    pub closed spec fn rows(self) -> Seq<PriorityRow> {
        self.rows@
    }

    /// An empty priority table.
    pub fn new() -> (r: PriorityTable)
        ensures
            r.rows() == Seq::<PriorityRow>::empty(),
    {
        let r = PriorityTable { rows: Vec::new() };
        proof {
            assert(r.rows@ =~= Seq::<PriorityRow>::empty());
        }
        r
    }
}

/// Get the build-queue priority for a crate: the first stored pattern the
/// name matches decides; a name no pattern matches takes the default.
pub fn get_crate_priority(table: &PriorityTable, name: &str) -> (r: i32)
    ensures
        r as int == match first_match(table.rows(), name@) {
            Some(p) => p as int,
            None => DEFAULT_PRIORITY as int,
        },
{
    let n = table.rows.len();
    let mut i: usize = 0;
    proof {
        assert(table.rows@.skip(0) =~= table.rows@);
    }
    while i < n
        invariant
            i <= n,
            n == table.rows@.len(),
            first_match(table.rows@, name@) == first_match(table.rows@.skip(i as int), name@),
        decreases n - i,
    {
        let ghost suffix = table.rows@.skip(i as int);
        proof {
            assert(suffix[0] == table.rows@[i as int]);
            assert(suffix.skip(1) =~= table.rows@.skip((i + 1) as int));
        }
        if str_like_match(table.rows[i].pattern.as_str(), name) {
            return table.rows[i].priority;
        }
        i += 1;
    }
    proof {
        assert(table.rows@.skip(n as int) =~= Seq::<PriorityRow>::empty());
    }
    DEFAULT_PRIORITY
}

/// Store a pattern with a priority; every crate name matching the pattern
/// takes this priority unless an earlier row matches first.
pub fn set_crate_priority(table: &mut PriorityTable, pattern: &str, priority: i32)
    ensures
        final(table).rows().len() == old(table).rows().len() + 1,
        final(table).rows().drop_last() == old(table).rows(),
        final(table).rows().last().pattern@ == pattern@,
        final(table).rows().last().priority == priority,
{
    let row = PriorityRow { pattern: pattern.to_owned(), priority };
    table.rows.push(row);
    proof {
        assert(final(table).rows@.drop_last() =~= old(table).rows@);
    }
}

/// Remove a pattern from the priority table, returning the priority its
/// first row held, or `None` if no row was stored under it.
pub fn remove_crate_priority(table: &mut PriorityTable, pattern: &str) -> (r: Option<i32>)
    ensures
        final(table).rows() == without_pattern(old(table).rows(), pattern@),
        r == first_pattern_priority(old(table).rows(), pattern@),
{
    let ghost src = table.rows@;
    let n = table.rows.len();
    let mut found: Option<i32> = None;
    let mut i: usize = 0;
    proof {
        assert(src.skip(0) =~= src);
    }
    while i < n
        invariant
            i <= n,
            n == table.rows@.len(),
            table.rows@ == src,
            match found {
                Some(p) => first_pattern_priority(src, pattern@) == Some(p),
                None => first_pattern_priority(src, pattern@) == first_pattern_priority(
                    src.skip(i as int),
                    pattern@,
                ),
            },
        decreases n - i,
    {
        let ghost suffix = src.skip(i as int);
        proof {
            assert(suffix[0] == src[i as int]);
            assert(suffix.skip(1) =~= src.skip((i + 1) as int));
        }
        if found.is_none() && str_eq(table.rows[i].pattern.as_str(), pattern) {
            found = Some(table.rows[i].priority);
        }
        i += 1;
    }
    proof {
        assert(src.skip(n as int) =~= Seq::<PriorityRow>::empty());
    }
    let mut out: Vec<PriorityRow> = Vec::new();
    let mut j: usize = 0;
    proof {
        assert(src.subrange(0, 0) =~= Seq::<PriorityRow>::empty());
    }
    while j < n
        invariant
            j <= n,
            n == table.rows@.len(),
            table.rows@ == src,
            out@ == without_pattern(src.subrange(0, j as int), pattern@),
        decreases n - j,
    {
        let ghost pre = src.subrange(0, j as int);
        let ghost post = src.subrange(0, (j + 1) as int);
        proof {
            assert(post.drop_last() =~= pre);
            assert(post.last() == src[j as int]);
        }
        if !str_eq(table.rows[j].pattern.as_str(), pattern) {
            let row = &table.rows[j];
            out.push(PriorityRow { pattern: row.pattern.clone(), priority: row.priority });
        }
        j += 1;
    }
    proof {
        assert(src.subrange(0, n as int) =~= src);
    }
    table.rows = out;
    found
}

} // verus!
