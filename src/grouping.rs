use vstd::prelude::*;

use crate::text::{line_subject, subject_token};

verus! {

/// The subject tokens of a sequence of lines.
pub open spec fn tokens_of(lines: Seq<String>) -> Seq<Seq<char>> {
    lines.map_values(|l: String| subject_token(l@))
}

/// The number of maximal runs of equal consecutive items in `k`.
pub open spec fn run_count(k: Seq<Seq<char>>) -> nat
    decreases k.len(),
{
    if k.len() == 0 {
        0
    } else if k.len() == 1 {
        1
    } else if k[k.len() - 1] == k[k.len() - 2] {
        run_count(k.drop_last())
    } else {
        run_count(k.drop_last()) + 1
    }
}

/// The lines of a sequence of groups, one group after another.
pub open spec fn flatten(groups: Seq<Vec<String>>) -> Seq<String>
    decreases groups.len(),
{
    if groups.len() == 0 {
        Seq::empty()
    } else {
        flatten(groups.drop_last()) + groups.last()@
    }
}

/// Whether all lines of `g` have one subject token.
pub open spec fn same_subject(g: Seq<String>) -> bool {
    forall|i: int, j: int|
        0 <= i < g.len() && 0 <= j < g.len() ==> subject_token(#[trigger] g[i]@) == subject_token(
            #[trigger] g[j]@,
        )
}

/// `gs` splits `lines` into groups: in order, none empty, each of one
/// subject token, and two adjacent groups of different tokens.
pub open spec fn is_grouping(lines: Seq<String>, gs: Seq<Vec<String>>) -> bool {
    &&& flatten(gs) == lines
    &&& forall|g: int| 0 <= g < gs.len() ==> (#[trigger] gs[g])@.len() > 0
    &&& forall|g: int| 0 <= g < gs.len() ==> same_subject((#[trigger] gs[g])@)
    &&& forall|g: int|
        0 < g < gs.len() ==> subject_token((#[trigger] gs[g])@[0]@) != subject_token(
            gs[g - 1]@[0]@,
        )
}

proof fn lemma_flatten_empty(gs: Seq<Vec<String>>)
    requires
        forall|g: int| 0 <= g < gs.len() ==> (#[trigger] gs[g])@.len() > 0,
        flatten(gs).len() == 0,
    ensures
        gs.len() == 0,
{
    if gs.len() > 0 {
        assert(gs[gs.len() - 1]@.len() > 0);
    }
}

proof fn lemma_grouping_prefix(lines: Seq<String>, gs: Seq<Vec<String>>)
    requires
        is_grouping(lines, gs),
        gs.len() > 0,
    ensures
        is_grouping(lines.take(lines.len() - gs.last()@.len()), gs.drop_last()),
        lines.skip(lines.len() - gs.last()@.len()) == gs.last()@,
        lines.len() >= gs.last()@.len(),
{
    let k = gs.last()@.len();
    let head = flatten(gs.drop_last());
    assert(lines == head + gs.last()@);
    assert(lines.take(lines.len() - k) =~= head);
    assert(lines.skip(lines.len() - k) =~= gs.last()@);
    let d = gs.drop_last();
    assert forall|g: int| 0 < g < d.len() implies subject_token((#[trigger] d[g])@[0]@)
        != subject_token(d[g - 1]@[0]@) by {
        assert(d[g] == gs[g]);
        assert(d[g - 1] == gs[g - 1]);
    }
}

proof fn lemma_last_not_shorter(lines: Seq<String>, a: Seq<Vec<String>>, b: Seq<Vec<String>>)
    requires
        is_grouping(lines, a),
        is_grouping(lines, b),
        a.len() > 0,
        b.len() > 0,
    ensures
        a.last()@.len() >= b.last()@.len(),
{
    let n = lines.len();
    let ka = a.last()@.len();
    let kb = b.last()@.len();
    lemma_grouping_prefix(lines, a);
    lemma_grouping_prefix(lines, b);
    if ka < kb {
        let p = n - ka - 1;
        let la = a.last()@;
        let lb = b.last()@;
        assert(lines[p] == lb[kb - ka - 1]) by {
            assert(lines.skip(n - kb)[kb - ka - 1] == lines[p]);
        }
        assert(lines[n - 1] == la[ka - 1]) by {
            assert(lines.skip(n - ka)[ka - 1] == lines[n - 1]);
        }
        assert(lines[n - 1] == lb[kb - 1]) by {
            assert(lines.skip(n - kb)[kb - 1] == lines[n - 1]);
        }
        assert(same_subject(lb));
        assert(subject_token(lb[kb - ka - 1]@) == subject_token(lb[kb - 1]@));
        assert(same_subject(la));
        assert(subject_token(la[ka - 1]@) == subject_token(la[0]@));
        let d = a.drop_last();
        let head = flatten(d);
        assert(lines == head + la);
        if d.len() == 0 {
            assert(head.len() == 0);
        } else {
            assert(head == flatten(d.drop_last()) + d.last()@);
            let prev = d.last()@;
            assert(prev == a[a.len() - 2]@);
            assert(a[a.len() - 2]@.len() > 0);
            assert(lines[p] == head[p]);
            assert(head[p] == prev[prev.len() - 1]);
            assert(same_subject(a[a.len() - 2]@));
            assert(subject_token(prev[prev.len() - 1]@) == subject_token(prev[0]@));
            assert(subject_token(a[a.len() - 1]@[0]@) != subject_token(a[a.len() - 2]@[0]@));
        }
    }
}

/// The grouping of a line sequence is unique: two splittings of the same
/// lines into groups of one subject token, adjacent groups of different
/// tokens, hold the same groups. So the entity groups, and with them the
/// rows that a join writes, depend on the input lines alone, and a second
/// run over the same input gives the same output.
pub proof fn lemma_grouping_unique(lines: Seq<String>, a: Seq<Vec<String>>, b: Seq<Vec<String>>)
    requires
        is_grouping(lines, a),
        is_grouping(lines, b),
    ensures
        a.len() == b.len(),
        forall|g: int| 0 <= g < a.len() ==> (#[trigger] a[g])@ == b[g]@,
    decreases a.len(),
{
    if a.len() == 0 {
        lemma_flatten_empty(b);
    } else if b.len() == 0 {
        lemma_flatten_empty(a);
    } else {
        lemma_last_not_shorter(lines, a, b);
        lemma_last_not_shorter(lines, b, a);
        lemma_grouping_prefix(lines, a);
        lemma_grouping_prefix(lines, b);
        let k = a.last()@.len();
        lemma_grouping_unique(lines.take(lines.len() - k), a.drop_last(), b.drop_last());
        assert forall|g: int| 0 <= g < a.len() implies (#[trigger] a[g])@ == b[g]@ by {
            if g < a.len() - 1 {
                assert(a.drop_last()[g] == a[g]);
                assert(b.drop_last()[g] == b[g]);
            }
        }
    }
}

proof fn lemma_run_extend(k: Seq<Seq<char>>, t: Seq<char>, j: int)
    requires
        j >= 1,
        k.len() == 0 || k.last() != t,
    ensures
        run_count(k + Seq::new(j as nat, |_i: int| t)) == run_count(k) + 1,
    decreases j,
{
    let ext = k + Seq::new(j as nat, |_i: int| t);
    if j == 1 {
        assert(ext.drop_last() =~= k);
    } else {
        lemma_run_extend(k, t, j - 1);
        assert(ext.drop_last() =~= k + Seq::new((j - 1) as nat, |_i: int| t));
    }
}

/// Every splitting of `lines` into groups of one subject token, adjacent
/// groups of different tokens, has as many groups as the lines have
/// maximal runs of equal subject tokens.
pub proof fn lemma_grouping_count(lines: Seq<String>, gs: Seq<Vec<String>>)
    requires
        is_grouping(lines, gs),
    ensures
        gs.len() == run_count(tokens_of(lines)),
    decreases gs.len(),
{
    if gs.len() == 0 {
        assert(tokens_of(lines).len() == 0);
    } else {
        lemma_grouping_prefix(lines, gs);
        let n = lines.len();
        let last = gs.last()@;
        let k = last.len();
        let head = lines.take(n - k);
        lemma_grouping_count(head, gs.drop_last());
        let t = subject_token(last[0]@);
        assert(same_subject(last));
        assert(tokens_of(lines) =~= tokens_of(head) + Seq::new(k, |_i: int| t)) by {
            assert forall|i: int| n - k <= i < n implies subject_token(lines[i]@) == t by {
                assert(lines.skip(n - k)[i - (n - k)] == lines[i]);
                assert(subject_token(last[i - (n - k)]@) == subject_token(last[0]@));
            }
        }
        if head.len() > 0 {
            let d = gs.drop_last();
            assert(d.len() > 0) by {
                if d.len() == 0 {
                    assert(flatten(d).len() == 0);
                }
            }
            let prev = d.last()@;
            assert(flatten(d) == flatten(d.drop_last()) + prev);
            assert(prev == gs[gs.len() - 2]@);
            assert(gs[gs.len() - 2]@.len() > 0);
            assert(same_subject(gs[gs.len() - 2]@));
            assert(head.last() == prev[prev.len() - 1]);
            assert(subject_token(prev[prev.len() - 1]@) == subject_token(prev[0]@));
            assert(subject_token(gs[gs.len() - 1]@[0]@) != subject_token(gs[gs.len() - 2]@[0]@));
            assert(tokens_of(head).last() == subject_token(head.last()@));
        }
        lemma_run_extend(tokens_of(head), t, k as int);
    }
}

/// The accumulator of the entity grouper. It holds the lines of the group
/// that is being read and nothing else: no earlier line stays in it.
pub struct Grouper {
    current: Option<String>,
    pending: Vec<String>,
}

impl Grouper {
    /// The pending lines all share the subject token `current`; there is a
    /// token exactly when a line is pending.
    pub closed spec fn wf(&self) -> bool {
        &&& (self.current is None <==> self.pending@.len() == 0)
        &&& forall|i: int|
            0 <= i < self.pending@.len() ==> subject_token(#[trigger] self.pending@[i]@)
                == self.current->Some_0@
    }

    /// The lines of the group being read.
    pub closed spec fn pending_lines(&self) -> Seq<String> {
        self.pending@
    }

    /// The subject token of the group being read, if a line was read.
    pub closed spec fn current_token(&self) -> Option<Seq<char>> {
        match self.current {
            Some(c) => Some(c@),
            None => None,
        }
    }

    /// A grouper that has read no line.
    pub fn new() -> (r: Grouper)
        ensures
            r.wf(),
            r.pending_lines().len() == 0,
            r.current_token() is None,
    {
        Grouper { current: None, pending: Vec::new() }
    }

    /// Reads one line. Where its subject token differs from that of the
    /// group being read, that group is closed and returned, and the line
    /// starts the next one; the first line closes nothing.
    pub fn push_line(&mut self, line: String) -> (r: Option<Vec<String>>)
        requires
            old(self).wf(),
        ensures
            final(self).wf(),
            final(self).current_token() == Some(subject_token(line@)),
            forall|i: int|
                0 <= i < final(self).pending_lines().len() ==> subject_token(
                    #[trigger] final(self).pending_lines()[i]@,
                ) == subject_token(line@),
            r is Some ==> same_subject(r->Some_0@) && r->Some_0@.len() > 0,
            match old(self).current_token() {
                Some(t) if t != subject_token(line@) => {
                    &&& r is Some
                    &&& r->Some_0@ == old(self).pending_lines()
                    &&& final(self).pending_lines() == seq![line]
                },
                _ => {
                    &&& r is None
                    &&& final(self).pending_lines() == old(self).pending_lines().push(line)
                },
            },
    {
        let token = line_subject(line.as_str());
        let closes = match &self.current {
            Some(c) => !c.eq(&token),
            None => false,
        };
        self.current = Some(token);
        if closes {
            let mut done = vec![line];
            std::mem::swap(&mut done, &mut self.pending);
            Some(done)
        } else {
            self.pending.push(line);
            None
        }
    }

    /// Ends the input: returns the group being read, if any line is pending.
    pub fn finish(self) -> (r: Option<Vec<String>>)
        requires
            self.wf(),
        ensures
            match r {
                Some(g) => g@ == self.pending_lines() && g@.len() > 0 && same_subject(g@),
                None => self.pending_lines().len() == 0,
            },
    {
        if self.pending.len() == 0 {
            None
        } else {
            Some(self.pending)
        }
    }
}

/// Splits `lines` into its entity groups: one group for each maximal run of
/// consecutive lines with equal subject tokens, in input order.
pub fn group_lines(lines: &Vec<String>) -> (r: Vec<Vec<String>>)
    ensures
        r@.len() == run_count(tokens_of(lines@)),
        is_grouping(lines@, r@),
{
    let mut grouper = Grouper::new();
    let mut out: Vec<Vec<String>> = Vec::new();
    let ghost toks = tokens_of(lines@);
    let mut i: usize = 0;
    while i < lines.len()
        invariant
            0 <= i <= lines@.len(),
            toks == tokens_of(lines@),
            grouper.wf(),
            i == 0 ==> grouper.current_token() is None,
            i > 0 ==> grouper.current_token() == Some(toks[i - 1]),
            out@.len() + (if i > 0 { 1int } else { 0 }) == run_count(toks.take(i as int)),
            flatten(out@) + grouper.pending_lines() == lines@.take(i as int),
            forall|g: int| 0 <= g < out@.len() ==> (#[trigger] out@[g])@.len() > 0,
            forall|g: int| 0 <= g < out@.len() ==> same_subject((#[trigger] out@[g])@),
            forall|g: int|
                0 < g < out@.len() ==> subject_token((#[trigger] out@[g])@[0]@) != subject_token(
                    out@[g - 1]@[0]@,
                ),
            out@.len() > 0 && grouper.current_token() is Some ==> subject_token(
                out@.last()@[0]@,
            ) != grouper.current_token()->Some_0,
            i > 0 ==> grouper.pending_lines().len() > 0,
        decreases lines@.len() - i,
    {
        let line = lines[i].clone();
        let ghost before = out@;
        let ghost pend = grouper.pending_lines();
        proof {
            assert(toks.take(i + 1).drop_last() =~= toks.take(i as int));
            assert(lines@.take(i + 1) =~= lines@.take(i as int).push(lines@[i as int]));
        }
        match grouper.push_line(line) {
            Some(g) => {
                out.push(g);
                proof {
                    assert(out@.drop_last() =~= before);
                    assert(flatten(out@) == flatten(before) + pend);
                    assert(flatten(out@) + seq![lines@[i as int]] =~= flatten(before) + pend.push(
                        lines@[i as int],
                    ));
                }
            },
            None => {
                proof {
                    assert(flatten(out@) + pend.push(lines@[i as int]) =~= (flatten(out@)
                        + pend).push(lines@[i as int]));
                }
            },
        }
        i = i + 1;
    }
    let ghost before = out@;
    let ghost pend = grouper.pending_lines();
    proof {
        assert(toks.take(i as int) =~= toks);
        assert(lines@.take(i as int) =~= lines@);
    }
    match grouper.finish() {
        Some(g) => {
            out.push(g);
            proof {
                assert(out@.drop_last() =~= before);
            }
        },
        None => {
            proof {
                assert(flatten(out@) + pend =~= flatten(out@));
            }
        },
    }
    out
}

} // verus!
