//! Building a snapshot from the table's lines, and the changes between two
//! consecutive snapshots.

use vstd::prelude::*;
use crate::connection::Connection;
use crate::parser::{parse_conntrack_line, parse_line_spec};

verus! {

/// The connections that the lines decode to, in line order; lines that do not
/// decode are left out.
pub open spec fn snapshot_of(lines: Seq<Seq<char>>) -> Seq<Connection>
    decreases lines.len(),
{
    if lines.len() == 0 {
        seq![]
    } else {
        let rest = snapshot_of(lines.drop_last());
        match parse_line_spec(lines.last()) {
            Some(c) => rest.push(c),
            None => rest,
        }
    }
}

pub open spec fn line_views(lines: Seq<String>) -> Seq<Seq<char>> {
    lines.map_values(|l: String| l@)
}

/// Decodes every line of the table, keeping those that decode, in order.
pub fn build_snapshot(lines: &Vec<String>) -> (r: Vec<Connection>)
    ensures
        r@ == snapshot_of(line_views(lines@)),
{
    let ghost ls = line_views(lines@);
    let mut r: Vec<Connection> = Vec::new();
    let mut i: usize = 0;
    while i < lines.len()
        invariant
            i <= lines@.len(),
            ls == line_views(lines@),
            r@ == snapshot_of(ls.take(i as int)),
        decreases lines@.len() - i,
    {
        assert(ls.take(i + 1).drop_last() =~= ls.take(i as int));
        assert(ls.take(i + 1).last() == lines@[i as int]@);
        match parse_conntrack_line(lines[i].as_str()) {
            Some(c) => r.push(c),
            None => {},
        }
        i = i + 1;
    }
    assert(ls.take(i as int) =~= ls);
    r
}

/// Whether `c` occurs in `v`.
pub fn contains(v: &Vec<Connection>, c: &Connection) -> (r: bool)
    ensures
        r == v@.contains(*c),
{
    let mut i: usize = 0;
    while i < v.len()
        invariant
            i <= v@.len(),
            forall|k: int| 0 <= k < i ==> v@[k] != *c,
        decreases v@.len() - i,
    {
        if v[i] == *c {
            assert(v@[i as int] == *c);
            return true;
        }
        i = i + 1;
    }
    false
}

/// The connections of `a` that are not in `b`, each listed once.
pub fn difference(a: &Vec<Connection>, b: &Vec<Connection>) -> (r: Vec<Connection>)
    ensures
        r@.to_set() == a@.to_set().difference(b@.to_set()),
        r@.no_duplicates(),
{
    let mut r: Vec<Connection> = Vec::new();
    let mut i: usize = 0;
    while i < a.len()
        invariant
            i <= a@.len(),
            r@.to_set() == a@.take(i as int).to_set().difference(b@.to_set()),
            r@.no_duplicates(),
        decreases a@.len() - i,
    {
        let c = a[i];
        let ghost old_r = r@;
        assert(a@.take(i + 1) =~= a@.take(i as int).push(c));
        if !contains(b, &c) && !contains(&r, &c) {
            r.push(c);
            proof {
                old_r.lemma_push_to_set_commute(c);
            }
        }
        proof {
            a@.take(i as int).lemma_push_to_set_commute(c);
        }
        i = i + 1;
        assert(r@.to_set() =~= a@.take(i as int).to_set().difference(b@.to_set()));
    }
    assert(a@.take(i as int) =~= a@);
    r
}

/// What changed between two consecutive snapshots.
pub struct Changes {
    /// Connections now present that were not before.
    pub added: Vec<Connection>,
    /// Connections present before that are gone now.
    pub removed: Vec<Connection>,
}

/// The change report owed for a previous and a current snapshot: additions
/// are `current - previous`, removals `previous - current`, each listed once.
pub open spec fn reports_changes(ch: Changes, prev: Seq<Connection>, cur: Seq<Connection>) -> bool {
    &&& ch.added@.to_set() == cur.to_set().difference(prev.to_set())
    &&& ch.removed@.to_set() == prev.to_set().difference(cur.to_set())
    &&& ch.added@.no_duplicates()
    &&& ch.removed@.no_duplicates()
}

/// Compares the current snapshot with the previous one.
pub fn changes(prev: &Vec<Connection>, cur: &Vec<Connection>) -> (r: Changes)
    ensures
        reports_changes(r, prev@, cur@),
{
    Changes { added: difference(cur, prev), removed: difference(prev, cur) }
}

/// The ingestion loop's memory: the snapshot of the cycle before.
pub struct IngestState {
    pub prev: Vec<Connection>,
}

impl IngestState {
    /// Before the first cycle nothing has been seen.
    pub fn new() -> (r: IngestState)
        ensures
            r.prev@ == Seq::<Connection>::empty(),
    {
        IngestState { prev: Vec::new() }
    }

    /// One ingestion cycle: reports what changed since the previous cycle and
    /// remembers `current` for the next one.
    pub fn cycle(&mut self, current: &Vec<Connection>) -> (r: Changes)
        ensures
            reports_changes(r, old(self).prev@, current@),
            final(self).prev@ == current@,
    {
        let r = changes(&self.prev, current);
        self.prev = current.clone();
        r
    }
}

/// Additions are exactly `current - previous` and removals `previous - current`;
/// both are empty when the two snapshots hold the same connections.
pub proof fn lemma_diff_correct(ch: Changes, prev: Seq<Connection>, cur: Seq<Connection>)
    requires
        reports_changes(ch, prev, cur),
    ensures
        forall|c: Connection| ch.added@.contains(c) <==> (cur.contains(c) && !prev.contains(c)),
        forall|c: Connection| ch.removed@.contains(c) <==> (prev.contains(c) && !cur.contains(c)),
        prev.to_set() == cur.to_set() ==> (ch.added@.len() == 0 && ch.removed@.len() == 0),
{
    assert forall|c: Connection| ch.added@.contains(c) <==> (cur.contains(c) && !prev.contains(c)) by {
        assert(ch.added@.contains(c) <==> ch.added@.to_set().contains(c));
    }
    assert forall|c: Connection| ch.removed@.contains(c) <==> (prev.contains(c) && !cur.contains(c)) by {
        assert(ch.removed@.contains(c) <==> ch.removed@.to_set().contains(c));
    }
    if prev.to_set() == cur.to_set() {
        if ch.added@.len() > 0 {
            assert(ch.added@.to_set().contains(ch.added@[0]));
        }
        if ch.removed@.len() > 0 {
            assert(ch.removed@.to_set().contains(ch.removed@[0]));
        }
    }
}

/// Building a snapshot from the same table content twice gives the same
/// sequence, and comparing the two reports no change.
pub proof fn lemma_rebuild_reports_nothing(
    lines: Seq<Seq<char>>,
    first: Seq<Connection>,
    second: Seq<Connection>,
    ch: Changes,
)
    requires
        first == snapshot_of(lines),
        second == snapshot_of(lines),
        reports_changes(ch, first, second),
    ensures
        first == second,
        ch.added@.len() == 0,
        ch.removed@.len() == 0,
{
    lemma_diff_correct(ch, first, second);
}

} // verus!
