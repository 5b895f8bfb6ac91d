use vstd::prelude::*;

use crate::grouping::{group_lines, is_grouping, lemma_grouping_unique};
use crate::paper::{build_error, first_of, Field, Paper};
use crate::statement::{joined, ntriples_of, Statement};
use crate::text::{decimal_text, u32_text, u32_to_text};

verus! {

/// A row of the journal side table: ISSN, entity, rank, name, subject and
/// field labels, and the subject-field distance as it is written in the
/// output (scientific notation with three fraction digits).
#[derive(Clone, Debug)]
pub struct Journal {
    pub issn: String,
    pub entity: String,
    pub rank: u32,
    pub name: String,
    pub subject: String,
    pub field: String,
    pub distance: String,
}

/// The row of `t` with entity `key` that was inserted last.
pub open spec fn lookup(t: Seq<Journal>, key: Seq<char>) -> Option<Journal>
    decreases t.len(),
{
    if t.len() == 0 {
        None
    } else if t.last().entity@ == key {
        Some(t.last())
    } else {
        lookup(t.drop_last(), key)
    }
}

/// Whether no two rows of `t` share an entity.
pub open spec fn distinct_keys(t: Seq<Journal>) -> bool {
    forall|a: int, b: int|
        0 <= a < t.len() && 0 <= b < t.len() && a != b ==> (#[trigger] t[a]).entity@ != (
        #[trigger] t[b]).entity@
}

proof fn lemma_lookup_at(t: Seq<Journal>, i: int)
    requires
        distinct_keys(t),
        0 <= i < t.len(),
    ensures
        lookup(t, t[i].entity@) == Some(t[i]),
    decreases t.len(),
{
    if i < t.len() - 1 {
        assert(t.last() == t[t.len() - 1]);
        assert(t.drop_last()[i] == t[i]);
        lemma_lookup_at(t.drop_last(), i);
    }
}

proof fn lemma_lookup_absent(t: Seq<Journal>, k: Seq<char>)
    requires
        forall|i: int| 0 <= i < t.len() ==> (#[trigger] t[i]).entity@ != k,
    ensures
        lookup(t, k) is None,
    decreases t.len(),
{
    if t.len() > 0 {
        assert(t.last() == t[t.len() - 1]);
        lemma_lookup_absent(t.drop_last(), k);
    }
}

proof fn lemma_lookup_update(t: Seq<Journal>, i: int, j: Journal, k: Seq<char>)
    requires
        0 <= i < t.len(),
        t[i].entity@ == j.entity@,
        k != j.entity@,
    ensures
        lookup(t.update(i, j), k) == lookup(t, k),
    decreases t.len(),
{
    let u = t.update(i, j);
    if i == t.len() - 1 {
        assert(u.drop_last() =~= t.drop_last());
    } else {
        assert(u.drop_last() =~= t.drop_last().update(i, j));
        lemma_lookup_update(t.drop_last(), i, j, k);
    }
}

/// The journal side table, keyed by journal entity: one row per entity, a
/// later row with the same entity replacing the earlier one. It is built
/// once, before the stream is read, and only read afterwards.
pub struct SideTable {
    rows: Vec<Journal>,
}

impl View for SideTable {
    type V = Seq<Journal>;

    /// The rows, one per entity, in order of first insertion.
    closed spec fn view(&self) -> Seq<Journal> {
        self.rows@
    }
}

impl SideTable {
    /// No two rows share an entity.
    pub closed spec fn wf(&self) -> bool {
        distinct_keys(self.rows@)
    }

    /// An empty table.
    pub fn new() -> (r: SideTable)
        ensures
            r.wf(),
            r@.len() == 0,
            forall|k: Seq<char>| lookup(r@, k) is None,
    {
        SideTable { rows: Vec::new() }
    }

    /// Adds a row: it replaces the row with the same entity, if there is
    /// one, and leaves the rows of other entities as they were.
    pub fn insert(&mut self, j: Journal)
        requires
            old(self).wf(),
        ensures
            final(self).wf(),
            lookup(final(self)@, j.entity@) == Some(j),
            forall|k: Seq<char>| k != j.entity@ ==> lookup(final(self)@, k) == lookup(old(self)@, k),
            final(self)@.len() == old(self)@.len() + if lookup(old(self)@, j.entity@) is Some {
                0int
            } else {
                1
            },
    {
        let mut i: usize = 0;
        while i < self.rows.len()
            invariant
                i <= self.rows@.len(),
                self.rows@ == old(self).rows@,
                distinct_keys(self.rows@),
                forall|a: int| 0 <= a < i ==> (#[trigger] self.rows@[a]).entity@ != j.entity@,
            decreases self.rows@.len() - i,
        {
            if self.rows[i].entity.eq(&j.entity) {
                proof {
                    lemma_lookup_at(self.rows@, i as int);
                    assert forall|k: Seq<char>| k != j.entity@ implies lookup(
                        self.rows@.update(i as int, j),
                        k,
                    ) == lookup(self.rows@, k) by {
                        lemma_lookup_update(self.rows@, i as int, j, k);
                    }
                }
                let ghost before = self.rows@;
                self.rows.set(i, j);
                proof {
                    assert forall|a: int, b: int|
                        0 <= a < self.rows@.len() && 0 <= b < self.rows@.len() && a != b implies (
                    #[trigger] self.rows@[a]).entity@ != (#[trigger] self.rows@[b]).entity@ by {
                        assert(before[a].entity@ != before[b].entity@);
                    }
                    lemma_lookup_at(self.rows@, i as int);
                }
                return;
            }
            i = i + 1;
        }
        proof {
            lemma_lookup_absent(self.rows@, j.entity@);
        }
        let ghost before = self.rows@;
        self.rows.push(j);
        proof {
            assert(self.rows@.drop_last() =~= before);
            assert forall|a: int, b: int|
                0 <= a < self.rows@.len() && 0 <= b < self.rows@.len() && a != b implies (
            #[trigger] self.rows@[a]).entity@ != (#[trigger] self.rows@[b]).entity@ by {
                if a < before.len() && b < before.len() {
                    assert(before[a].entity@ != before[b].entity@);
                } else if a < before.len() {
                    assert(before[a].entity@ != j.entity@);
                } else {
                    assert(before[b].entity@ != j.entity@);
                }
            }
        }
    }

    /// The number of rows: one per entity inserted.
    pub fn len(&self) -> (r: usize)
        ensures
            r == self@.len(),
    {
        self.rows.len()
    }

    /// The row for entity `key`, by exact equality: the last one inserted.
    pub fn get(&self, key: &str) -> (r: Option<&Journal>)
        ensures
            match r {
                Some(j) => lookup(self@, key@) == Some(*j),
                None => lookup(self@, key@) is None,
            },
    {
        let wanted = key.to_owned();
        let mut i: usize = self.rows.len();
        proof {
            assert(self.rows@.take(i as int) =~= self.rows@);
        }
        while i > 0
            invariant
                i <= self.rows@.len(),
                wanted@ == key@,
                lookup(self.rows@, key@) == lookup(self.rows@.take(i as int), key@),
            decreases i,
        {
            proof {
                assert(self.rows@.take(i as int).drop_last() =~= self.rows@.take(i - 1));
            }
            if self.rows[i - 1].entity.eq(&wanted) {
                return Some(&self.rows[i - 1]);
            }
            i = i - 1;
        }
        None
    }
}

/// The fields of a joined row, tab-separated and in the order of the
/// output header.
pub open spec fn row_text(
    entity: Seq<char>,
    rank: nat,
    title: Seq<char>,
    date: Seq<char>,
    citations: nat,
    j: Journal,
) -> Seq<char> {
    entity + seq!['\t'] + decimal_text(rank) + seq!['\t'] + title + seq!['\t'] + date + seq!['\t']
        + decimal_text(citations) + seq!['\t'] + j.issn@ + seq!['\t'] + decimal_text(j.rank as nat)
        + seq!['\t'] + j.name@ + seq!['\t'] + j.subject@ + seq!['\t'] + j.field@ + seq!['\t']
        + j.distance@
}

/// The row that joins paper `p` with journal row `j`.
pub open spec fn paper_row(p: Paper, j: Journal) -> Seq<char> {
    row_text(p.entity@, p.rank as nat, p.title@, p.date@, p.citations as nat, j)
}

/// The row that joins the paper that statements `s` build to with `j`.
pub open spec fn statements_row(s: Seq<Statement>, j: Journal) -> Seq<char> {
    row_text(
        first_of(s, Field::Entity)->Some_0,
        u32_text(first_of(s, Field::Rank)->Some_0)->Some_0 as nat,
        first_of(s, Field::Title)->Some_0,
        first_of(s, Field::Date)->Some_0,
        u32_text(first_of(s, Field::Citations)->Some_0)->Some_0 as nat,
        j,
    )
}

/// Whether the lines of a group build to a paper.
pub open spec fn group_builds(lines: Seq<String>) -> bool {
    match ntriples_of(joined(lines)) {
        Some(s) => build_error(s) is None,
        None => false,
    }
}

/// The output row of a group: present when it builds to a paper whose
/// journal is in table `t`.
pub open spec fn group_row(lines: Seq<String>, t: Seq<Journal>) -> Option<Seq<char>> {
    match ntriples_of(joined(lines)) {
        Some(s) => if build_error(s) is None {
            match lookup(t, first_of(s, Field::Journal)->Some_0) {
                Some(j) => Some(statements_row(s, j)),
                None => None,
            }
        } else {
            None
        },
        None => None,
    }
}

/// The header of the output table, its column names tab-separated.
pub open spec fn header_text() -> Seq<char> {
    "entity\trank\ttitle\tdate\tcitations\tjournal_issn\tjournal_rank\tjournal_name\tjournal_subject\tjournal_field\tsubject_field_distance"@
}

/// The header of the output table.
pub fn header() -> (r: String)
    ensures
        r@ == header_text(),
{
    String::from_str(
        "entity\trank\ttitle\tdate\tcitations\tjournal_issn\tjournal_rank\tjournal_name\tjournal_subject\tjournal_field\tsubject_field_distance",
    )
}

fn push_field(row: &mut String, field: &str)
    ensures
        final(row)@ == old(row)@ + seq!['\t'] + field@,
{
    proof {
        reveal_strlit("\t");
    }
    row.append("\t");
    row.append(field);
}

/// The row that joins paper `p` with journal row `j`.
pub fn format_row(p: &Paper, j: &Journal) -> (r: String)
    ensures
        r@ == paper_row(*p, *j),
{
    let mut row = String::from_str(p.entity.as_str());
    push_field(&mut row, u32_to_text(p.rank).as_str());
    push_field(&mut row, p.title.as_str());
    push_field(&mut row, p.date.as_str());
    push_field(&mut row, u32_to_text(p.citations).as_str());
    push_field(&mut row, j.issn.as_str());
    push_field(&mut row, u32_to_text(j.rank).as_str());
    push_field(&mut row, j.name.as_str());
    push_field(&mut row, j.subject.as_str());
    push_field(&mut row, j.field.as_str());
    push_field(&mut row, j.distance.as_str());
    row
}

/// Joins a paper with the table: the joined row where its journal is in
/// the table, nothing where it is not.
pub fn join_row(p: &Paper, table: &SideTable) -> (r: Option<String>)
    ensures
        match lookup(table@, p.journal@) {
            Some(j) => r is Some && r->Some_0@ == paper_row(*p, j),
            None => r is None,
        },
{
    match table.get(p.journal.as_str()) {
        Some(j) => Some(format_row(p, j)),
        None => None,
    }
}

/// The running counters of a join: papers built, and papers whose journal
/// was found in the table.
#[derive(Clone, Copy, Debug, PartialEq, Eq, Structural)]
pub struct JoinStats {
    pub built: u64,
    pub matched: u64,
}

/// The number of built papers between two progress reports.
pub const PROGRESS_EVERY: u64 = 10000;

/// What one group gave: the row to write, if any, and whether progress is
/// due for a report.
#[derive(Clone, Debug)]
pub struct GroupOutcome {
    pub row: Option<String>,
    pub progress: bool,
}

impl JoinStats {
    /// Counters at zero.
    pub fn new() -> (r: JoinStats)
        ensures
            r.built == 0 && r.matched == 0,
    {
        JoinStats { built: 0, matched: 0 }
    }

    /// Builds the paper of one entity group and joins it with the table. A
    /// group that does not build, or whose journal is not in the table,
    /// gives no row and is no error. The counters count the paper where it
    /// builds, and the match where its journal is found; progress is due
    /// where a built paper brings their count to a multiple of
    /// `PROGRESS_EVERY`.
    pub fn process_group(&mut self, lines: &Vec<String>, table: &SideTable) -> (r: GroupOutcome)
        requires
            old(self).built < u64::MAX,
            old(self).matched <= old(self).built,
        ensures
            final(self).matched <= final(self).built,
            final(self).built == old(self).built + if group_builds(lines@) { 1int } else { 0 },
            final(self).matched == old(self).matched + if group_row(lines@, table@) is Some {
                1int
            } else {
                0
            },
            r.row is Some <==> group_row(lines@, table@) is Some,
            r.row is Some ==> r.row->Some_0@ == group_row(lines@, table@)->Some_0,
            r.progress == (group_builds(lines@) && final(self).built % PROGRESS_EVERY == 0),
    {
        match Paper::try_from(lines) {
            Ok(paper) => {
                self.built = self.built + 1;
                let row = join_row(&paper, table);
                if row.is_some() {
                    self.matched = self.matched + 1;
                }
                GroupOutcome { row, progress: self.built % PROGRESS_EVERY == 0 }
            },
            Err(_) => GroupOutcome { row: None, progress: false },
        }
    }
}

/// The rows that a join writes over groups `gs`, in order: one for each
/// group that builds to a paper whose journal is in table `t`.
pub open spec fn rows_of(gs: Seq<Vec<String>>, t: Seq<Journal>) -> Seq<Seq<char>>
    decreases gs.len(),
{
    if gs.len() == 0 {
        Seq::empty()
    } else {
        match group_row(gs.last()@, t) {
            Some(row) => rows_of(gs.drop_last(), t).push(row),
            None => rows_of(gs.drop_last(), t),
        }
    }
}

/// Whether `rows` is what a join of `lines` with table `t` writes: the rows
/// of the groups of the lines.
pub open spec fn is_join_output(lines: Seq<String>, t: Seq<Journal>, rows: Seq<Seq<char>>) -> bool {
    exists|gs: Seq<Vec<String>>| is_grouping(lines, gs) && rows == rows_of(gs, t)
}

/// The texts of a sequence of strings.
pub open spec fn texts_of(v: Seq<String>) -> Seq<Seq<char>> {
    v.map_values(|r: String| r@)
}

proof fn lemma_rows_of_views(a: Seq<Vec<String>>, b: Seq<Vec<String>>, t: Seq<Journal>)
    requires
        a.len() == b.len(),
        forall|g: int| 0 <= g < a.len() ==> (#[trigger] a[g])@ == b[g]@,
    ensures
        rows_of(a, t) == rows_of(b, t),
    decreases a.len(),
{
    if a.len() > 0 {
        assert(a.last()@ == b.last()@);
        assert forall|g: int| 0 <= g < a.len() - 1 implies (#[trigger] a.drop_last()[g])@
            == b.drop_last()[g]@ by {
            assert(a.drop_last()[g] == a[g]);
            assert(b.drop_last()[g] == b[g]);
        }
        lemma_rows_of_views(a.drop_last(), b.drop_last(), t);
    }
}

/// A join run is repeatable: two outputs of a join of the same lines with
/// the same table are the same rows, in the same order.
pub proof fn lemma_join_output_unique(
    lines: Seq<String>,
    t: Seq<Journal>,
    rows1: Seq<Seq<char>>,
    rows2: Seq<Seq<char>>,
)
    requires
        is_join_output(lines, t, rows1),
        is_join_output(lines, t, rows2),
    ensures
        rows1 == rows2,
{
    let a = choose|gs: Seq<Vec<String>>| is_grouping(lines, gs) && rows1 == rows_of(gs, t);
    let b = choose|gs: Seq<Vec<String>>| is_grouping(lines, gs) && rows2 == rows_of(gs, t);
    lemma_grouping_unique(lines, a, b);
    lemma_rows_of_views(a, b, t);
}

/// Joins all lines of a dump with the table: groups them, builds each
/// group, and returns the rows of the papers whose journal is in the table,
/// in input order.
pub fn join_all(lines: &Vec<String>, table: &SideTable) -> (r: Vec<String>)
    ensures
        is_join_output(lines@, table@, texts_of(r@)),
{
    let groups = group_lines(lines);
    let mut rows: Vec<String> = Vec::new();
    let mut stats = JoinStats::new();
    let mut i: usize = 0;
    while i < groups.len()
        invariant
            i <= groups@.len(),
            stats.built <= i as u64,
            stats.matched <= stats.built,
            texts_of(rows@) == rows_of(groups@.take(i as int), table@),
        decreases groups@.len() - i,
    {
        proof {
            assert(groups@.take(i + 1).drop_last() =~= groups@.take(i as int));
            assert(groups@.take(i + 1).last() == groups@[i as int]);
        }
        let outcome = stats.process_group(&groups[i], table);
        match outcome.row {
            Some(row) => {
                let ghost before = rows@;
                rows.push(row);
                proof {
                    assert(texts_of(rows@) =~= texts_of(before).push(rows@.last()@));
                }
            },
            None => {},
        }
        i = i + 1;
    }
    proof {
        assert(groups@.take(i as int) =~= groups@);
    }
    rows
}

} // verus!
