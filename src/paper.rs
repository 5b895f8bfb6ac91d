use vstd::prelude::*;

use crate::grouping::{group_lines, is_grouping, lemma_grouping_unique};
use crate::statement::{decode_group, joined, ntriples_of, Statement, Term};
use crate::text::{ends_with, is_suffix, parse_u32, u32_text};

verus! {

/// A required field of a paper record, in the order in which missing
/// fields are reported.
#[derive(Clone, Copy, Debug, PartialEq, Eq, Structural)]
pub enum Field {
    Entity,
    Rank,
    Title,
    Date,
    Citations,
    Journal,
}

/// Why a group does not build to a paper.
#[derive(Clone, Copy, Debug, PartialEq, Eq, Structural)]
pub enum BuildError {
    /// A line does not decode, or a number field holds no `u32`.
    MalformedStatement,
    /// The group decoded but holds no value for this field.
    MissingField(Field),
}

/// A paper: its entity, rank, title, date, citation count and the entity
/// of the journal it appears in.
#[derive(Clone, Debug)]
pub struct Paper {
    pub entity: String,
    pub rank: u32,
    pub title: String,
    pub date: String,
    pub citations: u32,
    pub journal: String,
}

/// The literal field that a predicate IRI names, by its suffix.
pub open spec fn literal_field(p: Seq<char>) -> Option<Field> {
    if is_suffix("title"@, p) {
        Some(Field::Title)
    } else if is_suffix("rank"@, p) {
        Some(Field::Rank)
    } else if is_suffix("citationCount"@, p) {
        Some(Field::Citations)
    } else if is_suffix("publicationDate"@, p) {
        Some(Field::Date)
    } else {
        None
    }
}

/// The field other than the entity that a statement gives a value for, and
/// that value: the journal for an `appearsInJournal` predicate with a
/// reference object, a literal field for another predicate with a literal
/// object.
pub open spec fn statement_slot(st: Statement) -> Option<(Field, Seq<char>)> {
    match st.predicate {
        Term::Reference(p) => if is_suffix("appearsInJournal"@, p@) {
            match st.object {
                Term::Reference(o) => Some((Field::Journal, o@)),
                _ => None,
            }
        } else {
            match (st.object, literal_field(p@)) {
                (Term::Literal(l), Some(f)) => Some((f, l@)),
                _ => None,
            }
        },
        _ => None,
    }
}

/// The value that a statement gives for field `f`, if any.
pub open spec fn offered(st: Statement, f: Field) -> Option<Seq<char>> {
    if f == Field::Entity {
        match st.subject {
            Term::Reference(u) => Some(u@),
            _ => None,
        }
    } else {
        match statement_slot(st) {
            Some((g, v)) => if g == f {
                Some(v)
            } else {
                None
            },
            None => None,
        }
    }
}

/// The first value that the statements give for field `f`.
pub open spec fn first_of(s: Seq<Statement>, f: Field) -> Option<Seq<char>>
    decreases s.len(),
{
    if s.len() == 0 {
        None
    } else {
        match first_of(s.drop_last(), f) {
            Some(v) => Some(v),
            None => offered(s.last(), f),
        }
    }
}

/// Whether a statement gives a number field a value that is no `u32`.
pub open spec fn bad_number(st: Statement) -> bool {
    match statement_slot(st) {
        Some((f, v)) => (f == Field::Rank || f == Field::Citations) && u32_text(v) is None,
        None => false,
    }
}

/// Whether some statement gives a number field a value that is no `u32`.
pub open spec fn malformed(s: Seq<Statement>) -> bool {
    exists|i: int| 0 <= i < s.len() && bad_number(#[trigger] s[i])
}

/// The first required field, in the fixed order, that the statements give
/// no value for.
pub open spec fn first_missing(s: Seq<Statement>) -> Option<Field> {
    if first_of(s, Field::Entity) is None {
        Some(Field::Entity)
    } else if first_of(s, Field::Rank) is None {
        Some(Field::Rank)
    } else if first_of(s, Field::Title) is None {
        Some(Field::Title)
    } else if first_of(s, Field::Date) is None {
        Some(Field::Date)
    } else if first_of(s, Field::Citations) is None {
        Some(Field::Citations)
    } else if first_of(s, Field::Journal) is None {
        Some(Field::Journal)
    } else {
        None
    }
}

/// Why the statements build to no paper, if they do not.
pub open spec fn build_error(s: Seq<Statement>) -> Option<BuildError> {
    if malformed(s) {
        Some(BuildError::MalformedStatement)
    } else {
        match first_missing(s) {
            Some(f) => Some(BuildError::MissingField(f)),
            None => None,
        }
    }
}

/// `p` holds the first value of each field that the statements give.
pub open spec fn paper_of(p: Paper, s: Seq<Statement>) -> bool {
    &&& p.entity@ == first_of(s, Field::Entity)->Some_0
    &&& Some(p.rank) == u32_text(first_of(s, Field::Rank)->Some_0)
    &&& p.title@ == first_of(s, Field::Title)->Some_0
    &&& p.date@ == first_of(s, Field::Date)->Some_0
    &&& Some(p.citations) == u32_text(first_of(s, Field::Citations)->Some_0)
    &&& p.journal@ == first_of(s, Field::Journal)->Some_0
}

/// What building from the statements returns.
pub open spec fn built_from(r: Result<Paper, BuildError>, s: Seq<Statement>) -> bool {
    match r {
        Ok(p) => build_error(s) is None && paper_of(p, s),
        Err(e) => build_error(s) == Some(e),
    }
}

/// What building from the lines of a group returns.
pub open spec fn built_from_lines(r: Result<Paper, BuildError>, lines: Seq<String>) -> bool {
    match ntriples_of(joined(lines)) {
        Some(s) => built_from(r, s),
        None => r == Err::<Paper, BuildError>(BuildError::MalformedStatement),
    }
}

fn slot_of(st: &Statement) -> (r: Option<(Field, String)>)
    ensures
        match r {
            Some((f, v)) => statement_slot(*st) == Some((f, v@)),
            None => statement_slot(*st) is None,
        },
{
    match &st.predicate {
        Term::Reference(p) => {
            if ends_with(p.as_str(), "appearsInJournal") {
                match &st.object {
                    Term::Reference(o) => Some((Field::Journal, o.clone())),
                    _ => None,
                }
            } else {
                match &st.object {
                    Term::Literal(l) => {
                        if ends_with(p.as_str(), "title") {
                            Some((Field::Title, l.clone()))
                        } else if ends_with(p.as_str(), "rank") {
                            Some((Field::Rank, l.clone()))
                        } else if ends_with(p.as_str(), "citationCount") {
                            Some((Field::Citations, l.clone()))
                        } else if ends_with(p.as_str(), "publicationDate") {
                            Some((Field::Date, l.clone()))
                        } else {
                            None
                        }
                    },
                    _ => None,
                }
            }
        },
        _ => None,
    }
}

spec fn text_of(o: Option<String>) -> Option<Seq<char>> {
    match o {
        Some(t) => Some(t@),
        None => None,
    }
}

spec fn number_of(o: Option<u32>, t: Option<Seq<char>>) -> bool {
    &&& (o is Some <==> t is Some)
    &&& o is Some ==> Some(o->Some_0) == u32_text(t->Some_0)
}

/// Builds a paper from decoded statements: the first value of each field
/// wins, a number field that holds no `u32` makes the group malformed, and
/// a missing field is reported in the fixed order of `Field`.
pub fn build_paper(stmts: &Vec<Statement>) -> (r: Result<Paper, BuildError>)
    ensures
        built_from(r, stmts@),
{
    let ghost s = stmts@;
    let mut entity: Option<String> = None;
    let mut rank: Option<u32> = None;
    let mut title: Option<String> = None;
    let mut date: Option<String> = None;
    let mut citations: Option<u32> = None;
    let mut journal: Option<String> = None;
    let mut i: usize = 0;
    while i < stmts.len()
        invariant
            0 <= i <= s.len(),
            s == stmts@,
            text_of(entity) == first_of(s.take(i as int), Field::Entity),
            number_of(rank, first_of(s.take(i as int), Field::Rank)),
            text_of(title) == first_of(s.take(i as int), Field::Title),
            text_of(date) == first_of(s.take(i as int), Field::Date),
            number_of(citations, first_of(s.take(i as int), Field::Citations)),
            text_of(journal) == first_of(s.take(i as int), Field::Journal),
            forall|k: int| 0 <= k < i ==> !bad_number(#[trigger] s[k]),
        decreases s.len() - i,
    {
        let st = &stmts[i];
        proof {
            assert(s.take(i + 1).drop_last() =~= s.take(i as int));
            assert(s.take(i + 1).last() == s[i as int]);
        }
        if entity.is_none() {
            match &st.subject {
                Term::Reference(u) => {
                    entity = Some(u.clone());
                },
                _ => {},
            }
        }
        match slot_of(st) {
            Some((Field::Rank, v)) => {
                match parse_u32(v.as_str()) {
                    Some(n) => {
                        if rank.is_none() {
                            rank = Some(n);
                        }
                    },
                    None => {
                        assert(bad_number(s[i as int]));
                        return Err(BuildError::MalformedStatement);
                    },
                }
            },
            Some((Field::Citations, v)) => {
                match parse_u32(v.as_str()) {
                    Some(n) => {
                        if citations.is_none() {
                            citations = Some(n);
                        }
                    },
                    None => {
                        assert(bad_number(s[i as int]));
                        return Err(BuildError::MalformedStatement);
                    },
                }
            },
            Some((Field::Title, v)) => {
                if title.is_none() {
                    title = Some(v);
                }
            },
            Some((Field::Date, v)) => {
                if date.is_none() {
                    date = Some(v);
                }
            },
            Some((Field::Journal, v)) => {
                if journal.is_none() {
                    journal = Some(v);
                }
            },
            _ => {},
        }
        i = i + 1;
    }
    proof {
        assert(s.take(i as int) =~= s);
    }
    let entity = match entity {
        Some(e) => e,
        None => return Err(BuildError::MissingField(Field::Entity)),
    };
    let rank = match rank {
        Some(n) => n,
        None => return Err(BuildError::MissingField(Field::Rank)),
    };
    let title = match title {
        Some(t) => t,
        None => return Err(BuildError::MissingField(Field::Title)),
    };
    let date = match date {
        Some(t) => t,
        None => return Err(BuildError::MissingField(Field::Date)),
    };
    let citations = match citations {
        Some(n) => n,
        None => return Err(BuildError::MissingField(Field::Citations)),
    };
    let journal = match journal {
        Some(t) => t,
        None => return Err(BuildError::MissingField(Field::Journal)),
    };
    Ok(Paper { entity, rank, title, date, citations, journal })
}

impl Paper {
    /// Builds a paper from the lines of one entity group: the lines are
    /// joined and decoded, and the statements built as `build_paper` does;
    /// a group that does not decode is malformed.
    pub fn try_from(lines: &Vec<String>) -> (r: Result<Paper, BuildError>)
        ensures
            built_from_lines(r, lines@),
            r is Ok <==> validation_of(lines@) is Ok,
            r is Err ==> validation_of(lines@) == Err::<(), BuildError>(r->Err_0),
    {
        match decode_group(lines) {
            Some(stmts) => build_paper(&stmts),
            None => Err(BuildError::MalformedStatement),
        }
    }
}

/// What checking the lines of a group returns: the error that building
/// them gives, or nothing where they build to a paper.
pub open spec fn validation_of(lines: Seq<String>) -> Result<(), BuildError> {
    match ntriples_of(joined(lines)) {
        Some(s) => match build_error(s) {
            Some(e) => Err(e),
            None => Ok(()),
        },
        None => Err(BuildError::MalformedStatement),
    }
}

/// Checks that the lines of a group build to a paper, as `Paper::try_from`
/// does, without keeping the paper.
pub fn validate_paper(lines: &Vec<String>) -> (r: Result<(), BuildError>)
    ensures
        r == validation_of(lines@),
{
    match Paper::try_from(lines) {
        Ok(_) => Ok(()),
        Err(e) => Err(e),
    }
}

proof fn lemma_none_offered(s: Seq<Statement>, f: Field)
    requires
        forall|k: int| 0 <= k < s.len() ==> offered(#[trigger] s[k], f) is None,
    ensures
        first_of(s, f) is None,
    decreases s.len(),
{
    if s.len() > 0 {
        lemma_none_offered(s.drop_last(), f);
        assert(offered(s[s.len() - 1], f) is None);
    }
}

/// The statements of `s` that give field `f` no value, in order.
pub open spec fn without_field(s: Seq<Statement>, f: Field) -> Seq<Statement> {
    s.filter(gives_no(f))
}

/// Whether a statement gives field `f` no value.
pub open spec fn gives_no(f: Field) -> spec_fn(Statement) -> bool {
    |st: Statement| offered(st, f) is None
}

proof fn lemma_first_some_offered(s: Seq<Statement>, f: Field) -> (i: int)
    requires
        first_of(s, f) is Some,
    ensures
        0 <= i < s.len(),
        offered(s[i], f) is Some,
    decreases s.len(),
{
    if first_of(s.drop_last(), f) is Some {
        lemma_first_some_offered(s.drop_last(), f)
    } else {
        s.len() - 1
    }
}

proof fn lemma_offered_first_some(s: Seq<Statement>, f: Field, i: int)
    requires
        0 <= i < s.len(),
        offered(s[i], f) is Some,
    ensures
        first_of(s, f) is Some,
    decreases s.len(),
{
    if i < s.len() - 1 {
        lemma_offered_first_some(s.drop_last(), f, i);
    }
}

/// Whether every statement of `s` has a reference (IRI) subject.
pub open spec fn reference_subjects(s: Seq<Statement>) -> bool {
    forall|i: int| 0 <= i < s.len() ==> (#[trigger] s[i]).subject is Reference
}

/// A required field other than `f` and other than the entity.
pub open spec fn other_field(f: Field) -> Field {
    match f {
        Field::Rank => Field::Title,
        _ => Field::Rank,
    }
}

/// Omitting a field: where the statements of a group, all with IRI
/// subjects, build to a paper, the group without the statements that give field `f` a value
/// fails with `MissingField(f)` and names no other field.
pub proof fn lemma_omitted_field_is_named(s: Seq<Statement>, f: Field)
    requires
        build_error(s) is None,
        reference_subjects(s),
    ensures
        build_error(without_field(s, f)) == Some(BuildError::MissingField(f)),
{
    broadcast use vstd::seq_lib::group_filter_ensures;

    let t = without_field(s, f);
    assert forall|k: int| 0 <= k < t.len() implies offered(#[trigger] t[k], f) is None by {
        assert(gives_no(f)(t[k]));
    }
    lemma_none_offered(t, f);
    assert(!malformed(t)) by {
        if malformed(t) {
            let i = choose|i: int| 0 <= i < t.len() && bad_number(#[trigger] t[i]);
            assert(t.contains(t[i]));
            s.lemma_filter_contains_rev(gives_no(f), t[i]);
            let j = choose|j: int| 0 <= j < s.len() && s[j] == t[i];
            assert(bad_number(s[j]));
        }
    }
    if f != Field::Entity {
        assert forall|g: Field| g != f && g != Field::Entity implies #[trigger] first_of(t, g)
            is Some by {
            let i = lemma_first_some_offered(s, g);
            assert(offered(s[i], f) is None);
            assert(gives_no(f)(s[i]));
            s.lemma_filter_contains(gives_no(f), i);
            assert(t.contains(s[i]));
            let k = choose|k: int| 0 <= k < t.len() && t[k] == s[i];
            lemma_offered_first_some(t, g, k);
        }
        let g = other_field(f);
        let i = lemma_first_some_offered(s, g);
        assert(s[i].subject is Reference);
        assert(offered(s[i], f) is None);
        s.lemma_filter_contains(gives_no(f), i);
        assert(t.contains(s[i]));
        let k = choose|k: int| 0 <= k < t.len() && t[k] == s[i];
        assert(offered(t[k], Field::Entity) is Some);
        lemma_offered_first_some(t, Field::Entity, k);
        assert(first_of(t, Field::Rank) is Some || f == Field::Rank);
        assert(first_of(t, Field::Title) is Some || f == Field::Title);
        assert(first_of(t, Field::Date) is Some || f == Field::Date);
        assert(first_of(t, Field::Citations) is Some || f == Field::Citations);
    }
}

/// A group in which a rank or citation statement holds a literal that is no
/// `u32` fails as malformed, whatever fields it lacks.
pub proof fn lemma_bad_number_is_malformed(s: Seq<Statement>, i: int)
    requires
        0 <= i < s.len(),
        match statement_slot(s[i]) {
            Some((f, v)) => (f == Field::Rank || f == Field::Citations) && u32_text(v) is None,
            None => false,
        },
    ensures
        build_error(s) == Some(BuildError::MalformedStatement),
{
    assert(bad_number(s[i]));
}

/// The lines that validation keeps of groups `gs`, in order: all lines of
/// each group that builds to a paper.
pub open spec fn kept_lines(gs: Seq<Vec<String>>) -> Seq<String>
    decreases gs.len(),
{
    if gs.len() == 0 {
        Seq::empty()
    } else if validation_of(gs.last()@) is Ok {
        kept_lines(gs.drop_last()) + gs.last()@
    } else {
        kept_lines(gs.drop_last())
    }
}

/// Whether `kept` is what validating `lines` keeps: the lines of the groups
/// of `lines` that build to a paper.
pub open spec fn is_validation_output(lines: Seq<String>, kept: Seq<String>) -> bool {
    exists|gs: Seq<Vec<String>>| is_grouping(lines, gs) && kept == kept_lines(gs)
}

proof fn lemma_kept_lines_views(a: Seq<Vec<String>>, b: Seq<Vec<String>>)
    requires
        a.len() == b.len(),
        forall|g: int| 0 <= g < a.len() ==> (#[trigger] a[g])@ == b[g]@,
    ensures
        kept_lines(a) == kept_lines(b),
    decreases a.len(),
{
    if a.len() > 0 {
        assert(a.last()@ == b.last()@);
        assert forall|g: int| 0 <= g < a.len() - 1 implies (#[trigger] a.drop_last()[g])@
            == b.drop_last()[g]@ by {
            assert(a.drop_last()[g] == a[g]);
            assert(b.drop_last()[g] == b[g]);
        }
        lemma_kept_lines_views(a.drop_last(), b.drop_last());
    }
}

/// A validation run is repeatable: two outputs of validating the same lines
/// are the same lines, in the same order.
pub proof fn lemma_validation_output_unique(
    lines: Seq<String>,
    kept1: Seq<String>,
    kept2: Seq<String>,
)
    requires
        is_validation_output(lines, kept1),
        is_validation_output(lines, kept2),
    ensures
        kept1 == kept2,
{
    let a = choose|gs: Seq<Vec<String>>| is_grouping(lines, gs) && kept1 == kept_lines(gs);
    let b = choose|gs: Seq<Vec<String>>| is_grouping(lines, gs) && kept2 == kept_lines(gs);
    lemma_grouping_unique(lines, a, b);
    lemma_kept_lines_views(a, b);
}

/// Validates all lines of a dump: groups them and keeps, in input order,
/// the lines of each group that builds to a paper.
pub fn validate_all(lines: &Vec<String>) -> (r: Vec<String>)
    ensures
        is_validation_output(lines@, r@),
{
    let groups = group_lines(lines);
    let mut kept: Vec<String> = Vec::new();
    let mut i: usize = 0;
    while i < groups.len()
        invariant
            i <= groups@.len(),
            kept@ == kept_lines(groups@.take(i as int)),
        decreases groups@.len() - i,
    {
        proof {
            assert(groups@.take(i + 1).drop_last() =~= groups@.take(i as int));
            assert(groups@.take(i + 1).last() == groups@[i as int]);
        }
        if validate_paper(&groups[i]).is_ok() {
            let g = &groups[i];
            let ghost before = kept@;
            let mut k: usize = 0;
            while k < g.len()
                invariant
                    k <= g@.len(),
                    kept@ == before + g@.take(k as int),
                decreases g@.len() - k,
            {
                kept.push(g[k].clone());
                proof {
                    assert(g@.take(k + 1) =~= g@.take(k as int).push(g@[k as int]));
                }
                k = k + 1;
            }
            proof {
                assert(g@.take(k as int) =~= g@);
            }
        }
        i = i + 1;
    }
    proof {
        assert(groups@.take(i as int) =~= groups@);
    }
    kept
}

} // verus!
