use vstd::prelude::*;

use ntriple::{Object as O, Predicate as P, Subject as S};

use crate::statement::{Statement, Term};
use crate::text::{ends_with, is_suffix, parse_u32, u32_text};

verus! {

/// A journal of the graph's journal dump: its entity, rank, name and ISSN.
#[derive(Clone, Debug)]
pub struct Journal {
    pub entity: String,
    pub rank: u32,
    pub name: String,
    pub issn: String,
}

/// A journal as plain values: entity, rank, name, ISSN.
pub type JournalView = (Seq<char>, u32, Seq<char>, Seq<char>);

impl View for Journal {
    type V = JournalView;

    open spec fn view(&self) -> JournalView {
        (self.entity@, self.rank, self.name@, self.issn@)
    }
}

/// Why a journal dump does not read.
#[derive(Clone, Copy, Debug, PartialEq, Eq, Structural)]
pub enum CatalogError {
    /// A line is neither a statement, a comment nor blank.
    InvalidLine,
    /// A statement stands before the first journal's type statement.
    StatementBeforeJournal,
    /// A rank literal holds no `u32`.
    BadRank,
}

/// What ntriple's line parser reads from one line: a statement, nothing
/// (a comment or a blank line), or an error.
pub uninterp spec fn ntriple_line_of(line: Seq<char>) -> Option<Option<Statement>>;

/// Whether `c` is a hexadecimal digit of value 8 or more.
pub open spec fn hex_at_least_8(c: char) -> bool {
    ('8' <= c && c <= '9') || ('a' <= c && c <= 'f') || ('A' <= c && c <= 'F')
}

/// Whether `c` is a hexadecimal digit of value 2 or more.
pub open spec fn hex_at_least_2(c: char) -> bool {
    ('2' <= c && c <= '9') || ('a' <= c && c <= 'f') || ('A' <= c && c <= 'F')
}

/// Whether `c` is a nonzero hexadecimal digit.
pub open spec fn hex_nonzero(c: char) -> bool {
    ('1' <= c && c <= '9') || ('a' <= c && c <= 'f') || ('A' <= c && c <= 'F')
}

/// Whether an escape that names no character starts at `i`: `\u`
/// followed by `D8` to `DF` (a surrogate); or `\U` followed by `00D8` to
/// `00DF` (a surrogate), or by digits above `10`, the start of a value
/// beyond `10FFFF`.
pub open spec fn bad_escape_at(s: Seq<char>, i: int) -> bool {
    &&& 0 <= i
    &&& i + 3 < s.len()
    &&& s[i] == '\\'
    &&& {
        ||| s[i + 1] == 'u' && (s[i + 2] == 'd' || s[i + 2] == 'D') && hex_at_least_8(s[i + 3])
        ||| s[i + 1] == 'U' && (hex_at_least_2(s[i + 2]) || (s[i + 2] == '1' && hex_nonzero(
            s[i + 3],
        )))
        ||| s[i + 1] == 'U' && i + 5 < s.len() && s[i + 2] == '0' && s[i + 3] == '0' && (s[i + 4]
            == 'd' || s[i + 4] == 'D') && hex_at_least_8(s[i + 5])
    }
}

/// Whether `s` holds, from position `i` on, an escape that names no
/// character. Text is read as the grammar reads it: a backslash that
/// follows a backslash is an escaped backslash and starts no escape.
pub open spec fn bad_escape_from(s: Seq<char>, i: int) -> bool
    decreases s.len() - i,
{
    if i < 0 || i >= s.len() {
        false
    } else if s[i] == '\\' && i + 1 < s.len() && s[i + 1] == '\\' {
        bad_escape_from(s, i + 2)
    } else {
        bad_escape_at(s, i) || bad_escape_from(s, i + 1)
    }
}

/// Whether `s` holds an escape that names no character.
pub open spec fn has_bad_escape(s: Seq<char>) -> bool {
    bad_escape_from(s, 0)
}

fn is_hex_at_least_8(c: char) -> (r: bool)
    ensures
        r == hex_at_least_8(c),
{
    ('8' <= c && c <= '9') || ('a' <= c && c <= 'f') || ('A' <= c && c <= 'F')
}

fn bad_escape_here(s: &str, n: usize, i: usize) -> (r: bool)
    requires
        n == s@.len(),
        i < n,
    ensures
        r == bad_escape_at(s@, i as int),
{
    if n - i <= 3 || s.get_char(i) != '\\' {
        return false;
    }
    let c1 = s.get_char(i + 1);
    let c2 = s.get_char(i + 2);
    let c3 = s.get_char(i + 3);
    let at_least_2 = ('2' <= c2 && c2 <= '9') || ('a' <= c2 && c2 <= 'f') || ('A' <= c2 && c2 <= 'F');
    let nonzero = ('1' <= c3 && c3 <= '9') || ('a' <= c3 && c3 <= 'f') || ('A' <= c3 && c3 <= 'F');
    if c1 == 'u' {
        (c2 == 'd' || c2 == 'D') && is_hex_at_least_8(c3)
    } else if c1 == 'U' {
        if at_least_2 || (c2 == '1' && nonzero) {
            true
        } else if n - i > 5 && c2 == '0' && c3 == '0' {
            let c4 = s.get_char(i + 4);
            let c5 = s.get_char(i + 5);
            (c4 == 'd' || c4 == 'D') && is_hex_at_least_8(c5)
        } else {
            false
        }
    } else {
        false
    }
}

/// Whether `s` holds an escape that names no character.
pub fn find_bad_escape(s: &str) -> (r: bool)
    ensures
        r == has_bad_escape(s@),
{
    let n = s.unicode_len();
    let mut i: usize = 0;
    while i < n
        invariant
            n == s@.len(),
            i <= n,
            has_bad_escape(s@) == bad_escape_from(s@, i as int),
        decreases n - i,
    {
        if n - i > 1 && s.get_char(i) == '\\' && s.get_char(i + 1) == '\\' {
            i = i + 2;
        } else {
            if bad_escape_here(s, n, i) {
                return true;
            }
            i = i + 1;
        }
    }
    false
}

/// Relies on ntriple's `parser::triple_line`: `Ok(Some(triple))` for a
/// statement, `Ok(None)` for a comment or blank line, `Err` otherwise; the
/// terms are converted variant for variant. Its grammar unwraps the
/// character that a `\u` or `\U` escape names, and panics where that is
/// no character: such lines are left out.
#[verifier::external_body]
fn read_ntriple_line(line: &str) -> (r: Option<Option<Statement>>)
    requires
        !has_bad_escape(line@),
    ensures
        r == ntriple_line_of(line@),
{
    match ntriple::parser::triple_line(line) {
        Ok(Some(t)) => Some(Some(Statement {
            subject: match t.subject { S::IriRef(s) => Term::Reference(s), S::BNode(b) => Term::Blank(b) },
            predicate: match t.predicate { P::IriRef(p) => Term::Reference(p) },
            object: match t.object { O::IriRef(o) => Term::Reference(o), O::BNode(b) => Term::Blank(b), O::Lit(l) => Term::Literal(l.data) },
        })),
        Ok(None) => Some(None),
        Err(_) => None,
    }
}

/// The journals read so far, and the one being read.
pub type CatalogState = (Seq<JournalView>, Option<JournalView>);

/// Whether a statement opens a journal: a reference subject and a
/// reference object that ends in `Journal` (its type).
pub open spec fn opens_journal(st: Statement) -> Option<Seq<char>> {
    match (st.subject, st.object) {
        (Term::Reference(s), Term::Reference(o)) => if is_suffix("Journal"@, o@) {
            Some(s@)
        } else {
            None
        },
        _ => None,
    }
}

/// The journal being read, with the value that statement `st` gives it.
pub open spec fn with_statement(j: JournalView, st: Statement) -> Result<JournalView, CatalogError> {
    match (st.predicate, st.object) {
        (Term::Reference(p), Term::Literal(l)) => if is_suffix("rank"@, p@) {
            match u32_text(l@) {
                Some(n) => Ok((j.0, n, j.2, j.3)),
                None => Err(CatalogError::BadRank),
            }
        } else if is_suffix("name"@, p@) {
            Ok((j.0, j.1, l@, j.3))
        } else if is_suffix("issn"@, p@) {
            Ok((j.0, j.1, j.2, l@))
        } else {
            Ok(j)
        },
        _ => Ok(j),
    }
}

/// Reading one more line. A line with an escape that names no character
/// is invalid.
pub open spec fn catalog_step(st: CatalogState, line: Seq<char>) -> Result<
    CatalogState,
    CatalogError,
> {
    if has_bad_escape(line) {
        Err(CatalogError::InvalidLine)
    } else {
        step_statement(st, line)
    }
}

/// Reading one more line that the parser takes.
pub open spec fn step_statement(st: CatalogState, line: Seq<char>) -> Result<
    CatalogState,
    CatalogError,
> {
    match ntriple_line_of(line) {
        None => Err(CatalogError::InvalidLine),
        Some(None) => Ok(st),
        Some(Some(t)) => match opens_journal(t) {
            Some(e) => Ok(
                (
                    match st.1 {
                        Some(j) => st.0.push(j),
                        None => st.0,
                    },
                    Some((e, 0u32, Seq::<char>::empty(), Seq::<char>::empty())),
                ),
            ),
            None => match st.1 {
                None => Err(CatalogError::StatementBeforeJournal),
                Some(j) => match with_statement(j, t) {
                    Ok(j2) => Ok((st.0, Some(j2))),
                    Err(e) => Err(e),
                },
            },
        },
    }
}

/// The state after reading `lines`, or the first error.
pub open spec fn catalog_state(lines: Seq<String>) -> Result<CatalogState, CatalogError>
    decreases lines.len(),
{
    if lines.len() == 0 {
        Ok((Seq::empty(), None))
    } else {
        match catalog_state(lines.drop_last()) {
            Ok(st) => catalog_step(st, lines.last()@),
            Err(e) => Err(e),
        }
    }
}

/// The journals of a dump, in order, the last one included.
pub open spec fn catalog(lines: Seq<String>) -> Result<Seq<JournalView>, CatalogError> {
    match catalog_state(lines) {
        Ok((done, Some(j))) => Ok(done.push(j)),
        Ok((done, None)) => Ok(done),
        Err(e) => Err(e),
    }
}

proof fn lemma_error_stays(lines: Seq<String>, k: int, j: int)
    requires
        0 <= k <= j <= lines.len(),
        catalog_state(lines.take(k)) is Err,
    ensures
        catalog_state(lines.take(j)) == catalog_state(lines.take(k)),
    decreases j - k,
{
    if k < j {
        lemma_error_stays(lines, k, j - 1);
        assert(lines.take(j).drop_last() =~= lines.take(j - 1));
    }
}

/// The journals as plain values.
pub open spec fn views_of(v: Seq<Journal>) -> Seq<JournalView> {
    v.map_values(|j: Journal| j@)
}

spec fn view_of(o: Option<Journal>) -> Option<JournalView> {
    match o {
        Some(j) => Some(j@),
        None => None,
    }
}

fn opening_entity(st: &Statement) -> (r: Option<String>)
    ensures
        match r {
            Some(e) => opens_journal(*st) == Some(e@),
            None => opens_journal(*st) is None,
        },
{
    match (&st.subject, &st.object) {
        (Term::Reference(s), Term::Reference(o)) => {
            if ends_with(o.as_str(), "Journal") {
                Some(s.clone())
            } else {
                None
            }
        },
        _ => None,
    }
}

fn apply_statement(j: &mut Journal, st: &Statement) -> (r: Result<(), CatalogError>)
    ensures
        match with_statement(old(j)@, *st) {
            Ok(v) => r is Ok && final(j)@ == v,
            Err(e) => r == Err::<(), CatalogError>(e),
        },
{
    match (&st.predicate, &st.object) {
        (Term::Reference(p), Term::Literal(l)) => {
            if ends_with(p.as_str(), "rank") {
                match parse_u32(l.as_str()) {
                    Some(n) => {
                        j.rank = n;
                        Ok(())
                    },
                    None => Err(CatalogError::BadRank),
                }
            } else if ends_with(p.as_str(), "name") {
                j.name = l.clone();
                Ok(())
            } else if ends_with(p.as_str(), "issn") {
                j.issn = l.clone();
                Ok(())
            } else {
                Ok(())
            }
        },
        _ => Ok(()),
    }
}

/// Reads the journals of a journal dump, one line of N-Triples text at a
/// time. A statement whose object is a journal type opens a journal; the
/// statements after it give its rank, name and ISSN by predicate suffix,
/// the last value winning. Every journal is returned, the last one too.
pub fn read_journals(lines: &Vec<String>) -> (r: Result<Vec<Journal>, CatalogError>)
    ensures
        match catalog(lines@) {
            Ok(js) => r is Ok && views_of(r->Ok_0@) == js,
            Err(e) => r == Err::<Vec<Journal>, CatalogError>(e),
        },
{
    let mut done: Vec<Journal> = Vec::new();
    let mut current: Option<Journal> = None;
    let mut i: usize = 0;
    proof {
        assert(views_of(done@) =~= Seq::<JournalView>::empty());
        assert(lines@.take(0).len() == 0);
    }
    while i < lines.len()
        invariant
            0 <= i <= lines@.len(),
            catalog_state(lines@.take(i as int)) == Ok::<CatalogState, CatalogError>(
                (views_of(done@), view_of(current)),
            ),
        decreases lines@.len() - i,
    {
        proof {
            assert(lines@.take(i + 1).drop_last() =~= lines@.take(i as int));
            assert(lines@.take(i + 1).last() == lines@[i as int]);
        }
        let step = if find_bad_escape(lines[i].as_str()) {
            None
        } else {
            read_ntriple_line(lines[i].as_str())
        };
        let fail = match step {
            None => Some(CatalogError::InvalidLine),
            Some(None) => None,
            Some(Some(st)) => match opening_entity(&st) {
                Some(e) => {
                    let ghost before = done@;
                    match current {
                        Some(j) => {
                            done.push(j);
                            proof {
                                assert(views_of(done@) =~= views_of(before).push(j@));
                            }
                        },
                        None => {},
                    }
                    current = Some(Journal { entity: e, rank: 0, name: String::new(), issn: String::new() });
                    None
                },
                None => match &mut current {
                    None => Some(CatalogError::StatementBeforeJournal),
                    Some(j) => match apply_statement(j, &st) {
                        Ok(()) => None,
                        Err(e) => Some(e),
                    },
                },
            },
        };
        match fail {
            Some(e) => {
                proof {
                    lemma_error_stays(lines@, i + 1, lines@.len() as int);
                    assert(lines@.take(lines@.len() as int) =~= lines@);
                }
                return Err(e);
            },
            None => {},
        }
        i = i + 1;
    }
    proof {
        assert(lines@.take(i as int) =~= lines@);
    }
    match current {
        Some(j) => {
            let ghost before = done@;
            done.push(j);
            proof {
                assert(views_of(done@) =~= views_of(before).push(j@));
            }
        },
        None => {},
    }
    Ok(done)
}

} // verus!
