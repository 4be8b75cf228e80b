//! The interactive session state machine.
//!
//! A [`Session`] holds the findings of a scan plus a decision for each one.
//! It is a pure data structure: the terminal interface and tests drive it the
//! same way, and it knows nothing about editors or forges.
//!
//! Decisions are only recorded here. Nothing is written to disk or to any
//! forge until the caller executes the session after the user confirms.

use crate::draft::IssueDraft;
use crate::model;
use crate::model::Finding;
use crate::order;
use vstd::prelude::*;

verus! {

/// What the user chose to do with a finding.
#[derive(Debug, PartialEq, Eq)]
pub enum Decision {
    /// Leave the comment in place.
    Skip,
    /// Create an issue and remove the comment.
    Port(IssueDraft),
    /// Remove the comment without creating an issue.
    Delete,
}

impl Clone for Decision {
    fn clone(&self) -> (r: Self)
        ensures
            r == *self,
    {
        match self {
            Decision::Skip => Decision::Skip,
            Decision::Port(draft) => Decision::Port(draft.clone()),
            Decision::Delete => Decision::Delete,
        }
    }
}

/// The label of a decision.
pub open spec fn label_of(d: Decision) -> Seq<char> {
    match d {
        Decision::Skip => "skip"@,
        Decision::Port(_) => "port"@,
        Decision::Delete => "delete"@,
    }
}

impl Decision {
    /// A short human-readable label for menus and summaries.
    pub fn label(&self) -> (r: &'static str)
        ensures
            r@ == label_of(*self),
    {
        match self {
            Decision::Skip => "skip",
            Decision::Port(_) => "port",
            Decision::Delete => "delete",
        }
    }
}

/// One row of the confirm summary.
#[derive(Debug, PartialEq, Eq)]
pub struct SessionItem {
    /// Index into `Session::findings`.
    pub index: usize,
    /// The finding itself.
    pub finding: Finding,
    /// The decision made, if any.
    pub decision: Option<Decision>,
}

/// Interactive state over a set of findings.
#[derive(Debug)]
pub struct Session {
    /// The findings, in scan order.
    pub findings: Vec<Finding>,
    /// Decisions by finding index; `None` means undecided.
    pub decisions: Vec<Option<Decision>>,
    /// Index of the finding currently shown.
    pub cursor: usize,
    /// The commit hash the scan ran against, embedded in new drafts.
    pub commit: String,
}

/// The number of the first `k` findings without a decision.
pub open spec fn undecided_in(ds: Seq<Option<Decision>>, k: int) -> nat
    decreases k,
{
    if k <= 0 {
        0
    } else {
        undecided_in(ds, k - 1) + (if ds[k - 1] is None {
            1nat
        } else {
            0nat
        })
    }
}

/// Whether a finding is to be ported.
pub open spec fn is_port(d: Option<Decision>) -> bool {
    d matches Some(Decision::Port(_))
}

/// Whether a finding is to be deleted.
pub open spec fn is_delete(d: Option<Decision>) -> bool {
    d matches Some(Decision::Delete)
}

/// The indices of the first `k` findings whose decision meets `f`, in order.
pub open spec fn indices_where(
    ds: Seq<Option<Decision>>,
    f: spec_fn(Option<Decision>) -> bool,
    k: int,
) -> Seq<int>
    decreases k,
{
    if k <= 0 {
        Seq::empty()
    } else if f(ds[k - 1]) {
        indices_where(ds, f, k - 1).push(k - 1)
    } else {
        indices_where(ds, f, k - 1)
    }
}

/// The finding `offset` places after `cursor`, going round.
pub open spec fn round(cursor: int, offset: int, len: nat) -> int {
    (cursor + offset) % (len as int)
}

/// The smallest offset, from `offset` on, at which a finding without a
/// decision comes after `cursor`, going round once.
pub open spec fn next_undecided_offset(
    ds: Seq<Option<Decision>>,
    cursor: int,
    offset: int,
) -> Option<int>
    decreases ds.len() + 1 - offset,
{
    if offset > ds.len() {
        None
    } else if ds[round(cursor, offset, ds.len())] is None {
        Some(offset)
    } else {
        next_undecided_offset(ds, cursor, offset + 1)
    }
}

/// The integers of a list of indices.
pub open spec fn as_ints(v: Seq<usize>) -> Seq<int> {
    v.map_values(|i: usize| i as int)
}

/// A copy of an optional decision.
pub fn clone_decision(d: &Option<Decision>) -> (r: Option<Decision>)
    ensures
        r == *d,
{
    match d {
        Some(x) => Some(x.clone()),
        None => None,
    }
}

impl Clone for Session {
    fn clone(&self) -> (r: Self)
        ensures
            order::views(r.findings@) == order::views(self.findings@),
            r.decisions@ == self.decisions@,
            r.cursor == self.cursor,
            r.commit == self.commit,
    {
        let mut findings: Vec<Finding> = Vec::new();
        let mut i: usize = 0;
        while i < self.findings.len()
            invariant
                i <= self.findings.len(),
                order::views(findings@) == order::views(self.findings@).take(i as int),
            decreases self.findings.len() - i,
        {
            let ghost before = order::views(findings@);
            let f = self.findings[i].clone();
            findings.push(f);
            proof {
                assert(order::views(findings@) == before.push(f@));
                assert(order::views(self.findings@)[i as int] == f@);
            }
            i += 1;
        }
        assert(order::views(self.findings@).take(self.findings.len() as int) == order::views(
            self.findings@,
        ));
        let mut decisions: Vec<Option<Decision>> = Vec::new();
        let mut k: usize = 0;
        while k < self.decisions.len()
            invariant
                k <= self.decisions.len(),
                decisions@ == self.decisions@.take(k as int),
            decreases self.decisions.len() - k,
        {
            decisions.push(clone_decision(&self.decisions[k]));
            k += 1;
        }
        assert(self.decisions@.take(self.decisions.len() as int) == self.decisions@);
        Session { findings, decisions, cursor: self.cursor, commit: self.commit.clone() }
    }
}

impl Session {
    /// Whether every finding has a decision slot and the cursor is on a
    /// finding (or at zero in an empty session).
    pub open spec fn wf(self) -> bool {
        &&& self.decisions@.len() == self.findings@.len()
        &&& self.findings@.len() > 0 ==> self.cursor < self.findings@.len()
        &&& self.findings@.len() == 0 ==> self.cursor == 0
    }

    /// The same session apart from cursor and decisions.
    pub open spec fn same_findings(self, other: Session) -> bool {
        self.findings == other.findings && self.commit == other.commit
    }

    /// Creates a session over `findings` with no decisions.
    pub fn new(findings: Vec<Finding>, commit: String) -> (r: Self)
        ensures
            r.wf(),
            r.findings == findings,
            r.commit == commit,
            r.cursor == 0,
            r.decisions@ == Seq::new(findings@.len(), |i: int| None::<Decision>),
    {
        let mut decisions: Vec<Option<Decision>> = Vec::new();
        let mut i: usize = 0;
        while i < findings.len()
            invariant
                i <= findings.len(),
                decisions@ == Seq::new(i as nat, |j: int| None::<Decision>),
            decreases findings.len() - i,
        {
            decisions.push(None);
            i += 1;
        }
        Session { findings, decisions, cursor: 0, commit }
    }

    /// The finding currently shown, or `None` when the session is empty.
    pub fn current(&self) -> (r: Option<&Finding>)
        ensures
            match r {
                Some(f) => self.cursor < self.findings@.len() && *f
                    == self.findings@[self.cursor as int],
                None => self.cursor >= self.findings@.len(),
            },
    {
        if self.cursor < self.findings.len() {
            Some(&self.findings[self.cursor])
        } else {
            None
        }
    }

    /// The current cursor position.
    pub fn cursor(&self) -> (r: usize)
        ensures
            r == self.cursor,
    {
        self.cursor
    }

    /// The number of findings in the session.
    pub fn len(&self) -> (r: usize)
        ensures
            r == self.findings@.len(),
    {
        self.findings.len()
    }

    /// Whether the session has no findings.
    pub fn is_empty(&self) -> (r: bool)
        ensures
            r == (self.findings@.len() == 0),
    {
        self.findings.len() == 0
    }

    /// The decision for the finding at `index`, if any.
    pub fn decision(&self, index: usize) -> (r: Option<&Decision>)
        ensures
            match r {
                Some(d) => index < self.decisions@.len() && self.decisions@[index as int] == Some(
                    *d,
                ),
                None => index >= self.decisions@.len() || self.decisions@[index as int] is None,
            },
    {
        if index < self.decisions.len() {
            match &self.decisions[index] {
                Some(d) => Some(d),
                None => None,
            }
        } else {
            None
        }
    }

    /// The decision for the current finding, if any.
    pub fn current_decision(&self) -> (r: Option<&Decision>)
        ensures
            match r {
                Some(d) => self.cursor < self.decisions@.len()
                    && self.decisions@[self.cursor as int] == Some(*d),
                None => self.cursor >= self.decisions@.len()
                    || self.decisions@[self.cursor as int] is None,
            },
    {
        self.decision(self.cursor)
    }

    /// Records the decision for the finding at `index`.
    pub fn set_decision(&mut self, index: usize, decision: Decision)
        ensures
            final(self).same_findings(*old(self)),
            final(self).cursor == old(self).cursor,
            final(self).decisions@ == (if index < old(self).decisions@.len() {
                old(self).decisions@.update(index as int, Some(decision))
            } else {
                old(self).decisions@
            }),
            old(self).wf() ==> final(self).wf(),
    {
        if index < self.decisions.len() {
            self.decisions.set(index, Some(decision));
        }
    }

    /// Removes the decision for the finding at `index`.
    pub fn clear_decision(&mut self, index: usize)
        ensures
            final(self).same_findings(*old(self)),
            final(self).cursor == old(self).cursor,
            final(self).decisions@ == (if index < old(self).decisions@.len() {
                old(self).decisions@.update(index as int, None)
            } else {
                old(self).decisions@
            }),
            old(self).wf() ==> final(self).wf(),
    {
        if index < self.decisions.len() {
            self.decisions.set(index, None);
        }
    }

    /// Records the decision for the current finding.
    pub fn set_current_decision(&mut self, decision: Decision)
        ensures
            final(self).same_findings(*old(self)),
            final(self).cursor == old(self).cursor,
            final(self).decisions@ == (if old(self).cursor < old(self).decisions@.len() {
                old(self).decisions@.update(old(self).cursor as int, Some(decision))
            } else {
                old(self).decisions@
            }),
            old(self).wf() ==> final(self).wf(),
    {
        self.set_decision(self.cursor, decision);
    }

    /// Moves the cursor by `delta` findings, clamping at the edges.
    pub fn navigate(&mut self, delta: isize)
        ensures
            final(self).same_findings(*old(self)),
            final(self).decisions == old(self).decisions,
            final(self).cursor == (if old(self).findings@.len() == 0 {
                0
            } else {
                model::larger(
                    0,
                    model::smaller(old(self).cursor + delta, old(self).findings@.len() - 1),
                )
            }),
            old(self).wf() ==> final(self).wf(),
    {
        let len: usize = self.findings.len();
        if len == 0 {
            self.cursor = 0;
            return ;
        }
        let target: i128 = self.cursor as i128 + delta as i128;
        if target < 0 {
            self.cursor = 0;
        } else if target > (len - 1) as i128 {
            self.cursor = len - 1;
        } else {
            self.cursor = target as usize;
        }
    }

    /// Jumps to the finding at `index`, clamped.
    pub fn goto(&mut self, index: usize)
        ensures
            final(self).same_findings(*old(self)),
            final(self).decisions == old(self).decisions,
            final(self).cursor == (if old(self).findings@.len() == 0 {
                0
            } else {
                model::smaller(index as int, old(self).findings@.len() - 1)
            }),
            old(self).wf() ==> final(self).wf(),
    {
        let len: usize = self.findings.len();
        if len == 0 {
            self.cursor = 0;
        } else if index > len - 1 {
            self.cursor = len - 1;
        } else {
            self.cursor = index;
        }
    }

    /// Whether every finding has a decision.
    pub fn all_decided(&self) -> (r: bool)
        ensures
            r == (forall|i: int|
                0 <= i < self.decisions@.len() ==> (#[trigger] self.decisions@[i]) is Some),
    {
        let mut i: usize = 0;
        while i < self.decisions.len()
            invariant
                i <= self.decisions.len(),
                forall|k: int| 0 <= k < i ==> (#[trigger] self.decisions@[k]) is Some,
            decreases self.decisions.len() - i,
        {
            if self.decisions[i].is_none() {
                return false;
            }
            i += 1;
        }
        true
    }

    /// The number of findings without a decision.
    pub fn undecided_count(&self) -> (r: usize)
        ensures
            r == undecided_in(self.decisions@, self.decisions@.len() as int),
            r <= self.decisions@.len(),
    {
        let mut n: usize = 0;
        let mut i: usize = 0;
        while i < self.decisions.len()
            invariant
                i <= self.decisions.len(),
                n == undecided_in(self.decisions@, i as int),
                n <= i,
            decreases self.decisions.len() - i,
        {
            if self.decisions[i].is_none() {
                n += 1;
            }
            i += 1;
        }
        n
    }

    /// Moves the cursor to the next finding without a decision and returns
    /// whether one was found.
    pub fn next_undecided(&mut self) -> (r: bool)
        ensures
            final(self).same_findings(*old(self)),
            final(self).decisions == old(self).decisions,
            ({
                let found = next_undecided_offset(old(self).decisions@, old(self).cursor as int, 1);
                match found {
                    Some(offset) => r && final(self).cursor == round(
                        old(self).cursor as int,
                        offset,
                        old(self).decisions@.len(),
                    ) && final(self).cursor < old(self).decisions@.len(),
                    None => !r && final(self).cursor == old(self).cursor,
                }
            }),
            r ==> old(self).decisions@[final(self).cursor as int] is None,
            !r ==> forall|i: int|
                0 <= i < old(self).decisions@.len() ==> (#[trigger] old(self).decisions@[i]) is Some,
            old(self).wf() ==> final(self).wf(),
    {
        let len: usize = self.decisions.len();
        if len == 0 {
            return false;
        }
        let base: usize = self.cursor % len;
        let mut offset: usize = 1;
        let mut i: usize = 0;
        while i < len
            invariant
                i <= len,
                offset == i + 1 || i == len,
                len == self.decisions@.len(),
                len > 0,
                base < len,
                base == self.cursor as int % (len as int),
                *self == *old(self),
                next_undecided_offset(self.decisions@, self.cursor as int, 1)
                    == next_undecided_offset(self.decisions@, self.cursor as int, i + 1),
                forall|k: int|
                    1 <= k <= i ==> (#[trigger] self.decisions@[round(
                        self.cursor as int,
                        k,
                        len as nat,
                    )]) is Some,
            decreases len - i,
        {
            let index: usize = if offset >= len - base {
                offset - (len - base)
            } else {
                base + offset
            };
            proof {
                lemma_round(self.cursor as int, offset as int, len as int);
            }
            if self.decisions[index].is_none() {
                self.cursor = index;
                return true;
            }
            i += 1;
            if i < len {
                offset += 1;
            }
        }
        proof {
            assert forall|j: int| 0 <= j < len implies (#[trigger] self.decisions@[j]) is Some by {
                lemma_round_covers(self.cursor as int, j, len as int);
                let k = if j > base {
                    j - base
                } else {
                    j - base + len
                };
                assert(self.decisions@[round(self.cursor as int, k, len as nat)] is Some);
            }
        }
        false
    }

    /// The confirm summary: every finding paired with its decision.
    pub fn items(&self) -> (r: Vec<SessionItem>)
        requires
            self.findings@.len() <= self.decisions@.len(),
        ensures
            r@.len() == self.findings@.len(),
            forall|i: int|
                0 <= i < r@.len() ==> (#[trigger] r@[i]).index == i && r@[i].finding@
                    == self.findings@[i]@ && r@[i].decision == self.decisions@[i],
    {
        let mut out: Vec<SessionItem> = Vec::new();
        let mut i: usize = 0;
        while i < self.findings.len()
            invariant
                i <= self.findings.len(),
                self.findings@.len() <= self.decisions@.len(),
                out@.len() == i,
                forall|k: int|
                    0 <= k < i ==> (#[trigger] out@[k]).index == k && out@[k].finding@
                        == self.findings@[k]@ && out@[k].decision == self.decisions@[k],
            decreases self.findings.len() - i,
        {
            out.push(
                SessionItem {
                    index: i,
                    finding: self.findings[i].clone(),
                    decision: clone_decision(&self.decisions[i]),
                },
            );
            i += 1;
        }
        out
    }

    /// The indices of findings the user wants to port (in scan order).
    pub fn ports(&self) -> (r: Vec<usize>)
        ensures
            as_ints(r@) == indices_where(
                self.decisions@,
                |d: Option<Decision>| is_port(d),
                self.decisions@.len() as int,
            ),
    {
        let ghost f = |d: Option<Decision>| is_port(d);
        let mut out: Vec<usize> = Vec::new();
        let mut i: usize = 0;
        while i < self.decisions.len()
            invariant
                i <= self.decisions.len(),
                f == (|d: Option<Decision>| is_port(d)),
                as_ints(out@) == indices_where(self.decisions@, f, i as int),
            decreases self.decisions.len() - i,
        {
            let ghost before = as_ints(out@);
            if let Some(Decision::Port(_)) = &self.decisions[i] {
                out.push(i);
                assert(as_ints(out@) == before.push(i as int));
            }
            i += 1;
        }
        out
    }

    /// The indices of findings the user wants to delete (in scan order).
    pub fn deletes(&self) -> (r: Vec<usize>)
        ensures
            as_ints(r@) == indices_where(
                self.decisions@,
                |d: Option<Decision>| is_delete(d),
                self.decisions@.len() as int,
            ),
    {
        let ghost f = |d: Option<Decision>| is_delete(d);
        let mut out: Vec<usize> = Vec::new();
        let mut i: usize = 0;
        while i < self.decisions.len()
            invariant
                i <= self.decisions.len(),
                f == (|d: Option<Decision>| is_delete(d)),
                as_ints(out@) == indices_where(self.decisions@, f, i as int),
            decreases self.decisions.len() - i,
        {
            let ghost before = as_ints(out@);
            if let Some(Decision::Delete) = &self.decisions[i] {
                out.push(i);
                assert(as_ints(out@) == before.push(i as int));
            }
            i += 1;
        }
        out
    }

    /// The drafts to create, paired with their finding index (in scan
    /// order).
    pub fn draft_tasks(&self) -> (r: Vec<(usize, &IssueDraft)>)
        ensures
            task_indices(r@) == indices_where(
                self.decisions@,
                |d: Option<Decision>| is_port(d),
                self.decisions@.len() as int,
            ),
            forall|k: int|
                0 <= k < r@.len() ==> (#[trigger] r@[k]).0 < self.decisions@.len()
                    && self.decisions@[r@[k].0 as int] == Some(Decision::Port(*r@[k].1)),
    {
        let ghost f = |d: Option<Decision>| is_port(d);
        let mut out: Vec<(usize, &IssueDraft)> = Vec::new();
        let mut i: usize = 0;
        while i < self.decisions.len()
            invariant
                i <= self.decisions.len(),
                f == (|d: Option<Decision>| is_port(d)),
                task_indices(out@) == indices_where(self.decisions@, f, i as int),
                forall|k: int|
                    0 <= k < out@.len() ==> (#[trigger] out@[k]).0 < self.decisions@.len()
                        && self.decisions@[out@[k].0 as int] == Some(Decision::Port(*out@[k].1)),
            decreases self.decisions.len() - i,
        {
            let ghost before = task_indices(out@);
            if let Some(Decision::Port(draft)) = &self.decisions[i] {
                out.push((i, draft));
                assert(task_indices(out@) == before.push(i as int));
            }
            i += 1;
        }
        out
    }
}

/// The finding indices of a list of tasks.
pub open spec fn task_indices(v: Seq<(usize, &IssueDraft)>) -> Seq<int> {
    v.map_values(|t: (usize, &IssueDraft)| t.0 as int)
}

proof fn lemma_round(cursor: int, offset: int, len: int)
    requires
        0 <= cursor,
        1 <= offset <= len,
        len > 0,
    ensures
        ({
            let base = cursor % len;
            round(cursor, offset, len as nat) == (if offset >= len - base {
                offset - (len - base)
            } else {
                base + offset
            })
        }),
        0 <= round(cursor, offset, len as nat) < len,
{
    let base = cursor % len;
    let q = cursor / len;
    vstd::arithmetic::div_mod::lemma_fundamental_div_mod(cursor, len);
    if offset >= len - base {
        let r = offset - (len - base);
        assert(cursor + offset == (q + 1) * len + r) by (nonlinear_arith)
            requires
                cursor == len * q + base,
                r == offset - (len - base),
        ;
        if r < len {
            vstd::arithmetic::div_mod::lemma_fundamental_div_mod_converse(
                cursor + offset,
                len,
                q + 1,
                r,
            );
        }
    } else {
        let r = base + offset;
        assert(cursor + offset == q * len + r) by (nonlinear_arith)
            requires
                cursor == len * q + base,
                r == base + offset,
        ;
        vstd::arithmetic::div_mod::lemma_fundamental_div_mod_converse(cursor + offset, len, q, r);
    }
}

proof fn lemma_round_covers(cursor: int, j: int, len: int)
    requires
        0 <= cursor,
        0 <= j < len,
    ensures
        ({
            let base = cursor % len;
            let k = if j > base {
                j - base
            } else {
                j - base + len
            };
            1 <= k <= len && round(cursor, k, len as nat) == j
        }),
{
    let base = cursor % len;
    let k = if j > base {
        j - base
    } else {
        j - base + len
    };
    lemma_round(cursor, k, len);
}

/// Every finding has a decision exactly when none is counted as undecided.
pub proof fn law_all_decided(ds: Seq<Option<Decision>>)
    ensures
        undecided_in(ds, ds.len() as int) == 0 <==> forall|i: int|
            0 <= i < ds.len() ==> (#[trigger] ds[i]) is Some,
{
    lemma_undecided_zero(ds, ds.len() as int);
}

/// Going round from the cursor, the next finding without a decision is the
/// first one after it: it has none, and every finding passed on the way has
/// one. Where none is found, every finding has a decision.
pub proof fn law_the_next_undecided_is_the_first(ds: Seq<Option<Decision>>, cursor: int)
    requires
        0 <= cursor < ds.len(),
    ensures
        match next_undecided_offset(ds, cursor, 1) {
            Some(n) => {
                &&& 1 <= n <= ds.len()
                &&& ds[(cursor + n) % (ds.len() as int)] is None
                &&& forall|k: int|
                    1 <= k < n ==> (#[trigger] ds[(cursor + k) % (ds.len() as int)]) is Some
            },
            None => forall|i: int| 0 <= i < ds.len() ==> (#[trigger] ds[i]) is Some,
        },
        match next_undecided_offset(ds, cursor, 1) {
            Some(n) => round(cursor, n, ds.len()) == (cursor + n) % (ds.len() as int) && 0 <= round(
                cursor,
                n,
                ds.len(),
            ) < ds.len(),
            None => true,
        },
{
    lemma_next_offset(ds, cursor, 1);
    match next_undecided_offset(ds, cursor, 1) {
        Some(n) => {
            lemma_round(cursor, n, ds.len() as int);
        },
        None => {
            assert forall|i: int| 0 <= i < ds.len() implies (#[trigger] ds[i]) is Some by {
                lemma_round_covers(cursor, i, ds.len() as int);
                let base = cursor % (ds.len() as int);
                let k = if i > base {
                    i - base
                } else {
                    i - base + ds.len()
                };
                assert(ds[(cursor + k) % (ds.len() as int)] is Some);
            }
        },
    }
}

proof fn lemma_next_offset(ds: Seq<Option<Decision>>, cursor: int, offset: int)
    requires
        1 <= offset,
    ensures
        match next_undecided_offset(ds, cursor, offset) {
            Some(n) => {
                &&& offset <= n <= ds.len()
                &&& ds[(cursor + n) % (ds.len() as int)] is None
                &&& forall|k: int|
                    offset <= k < n ==> (#[trigger] ds[(cursor + k) % (ds.len() as int)]) is Some
            },
            None => forall|k: int|
                offset <= k <= ds.len() ==> (#[trigger] ds[(cursor + k) % (ds.len() as int)])
                    is Some,
        },
    decreases ds.len() + 1 - offset,
{
    if offset <= ds.len() && ds[round(cursor, offset, ds.len())] is Some {
        lemma_next_offset(ds, cursor, offset + 1);
    }
}

/// A decision lowers the count of undecided findings by one where there was
/// none, and clearing one raises it by one.
pub proof fn law_decisions_are_counted(ds: Seq<Option<Decision>>, i: int, d: Option<Decision>)
    requires
        0 <= i < ds.len(),
    ensures
        undecided_in(ds.update(i, d), ds.len() as int) == undecided_in(ds, ds.len() as int) + (if d
            is None {
            1int
        } else {
            0
        }) - (if ds[i] is None {
            1int
        } else {
            0
        }),
        0 <= undecided_in(ds, ds.len() as int) <= ds.len(),
{
    lemma_undecided_update(ds, i, d, ds.len() as int);
}

proof fn lemma_undecided_update(
    ds: Seq<Option<Decision>>,
    i: int,
    d: Option<Decision>,
    k: int,
)
    requires
        0 <= i < ds.len(),
        0 <= k <= ds.len(),
    ensures
        undecided_in(ds, k) <= k,
        undecided_in(ds.update(i, d), k) == undecided_in(ds, k) + (if i < k && d is None {
            1int
        } else {
            0
        }) - (if i < k && ds[i] is None {
            1int
        } else {
            0
        }),
    decreases k,
{
    if k > 0 {
        lemma_undecided_update(ds, i, d, k - 1);
    }
}

/// The label of a decision names what is done.
pub proof fn law_labels_name_the_decision(d: Decision)
    ensures
        d is Skip ==> label_of(d) == "skip"@,
        d is Delete ==> label_of(d) == "delete"@,
        d is Port ==> label_of(d) == "port"@,
{
}

proof fn lemma_undecided_zero(ds: Seq<Option<Decision>>, k: int)
    requires
        0 <= k <= ds.len(),
    ensures
        undecided_in(ds, k) == 0 <==> forall|i: int| 0 <= i < k ==> (#[trigger] ds[i]) is Some,
    decreases k,
{
    if k > 0 {
        lemma_undecided_zero(ds, k - 1);
        if undecided_in(ds, k) == 0 {
            assert forall|i: int| 0 <= i < k implies (#[trigger] ds[i]) is Some by {}
        } else if forall|i: int| 0 <= i < k ==> (#[trigger] ds[i]) is Some {
            assert(ds[k - 1] is Some);
        }
    }
}

/// The listed indices are in scan order and are exactly those of the
/// decisions asked for.
pub proof fn law_indices_where(
    ds: Seq<Option<Decision>>,
    f: spec_fn(Option<Decision>) -> bool,
    k: int,
)
    requires
        0 <= k <= ds.len(),
    ensures
        forall|i: int| 0 <= i < k ==> (indices_where(ds, f, k).contains(i) <==> f(#[trigger] ds[i])),
        forall|a: int, b: int|
            0 <= a < b < indices_where(ds, f, k).len() ==> (#[trigger] indices_where(ds, f, k)[a]) < (
            #[trigger] indices_where(ds, f, k)[b]),
        forall|a: int|
            0 <= a < indices_where(ds, f, k).len() ==> 0 <= (#[trigger] indices_where(ds, f, k)[a])
                < k,
    decreases k,
{
    if k > 0 {
        law_indices_where(ds, f, k - 1);
        let before = indices_where(ds, f, k - 1);
        let after = indices_where(ds, f, k);
        assert forall|i: int| 0 <= i < k implies (after.contains(i) <==> f(#[trigger] ds[i])) by {
            if i == k - 1 {
                if f(ds[k - 1]) {
                    assert(after.last() == k - 1);
                }
            } else {
                if before.contains(i) {
                    let a = choose|a: int| 0 <= a < before.len() && before[a] == i;
                    assert(after[a] == i);
                }
                if after.contains(i) {
                    let a = choose|a: int| 0 <= a < after.len() && after[a] == i;
                    assert(before[a] == i);
                }
            }
        }
    }
}

} // verus!
