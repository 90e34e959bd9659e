//! Per-scenario scorecard rows.
//!
//! Every row is either a GATE or a RECORD, and the distinction is
//! structural rather than naming: gate rows feed the process exit code,
//! record rows never do. A row that cannot fail is not a gate.

use vstd::prelude::*;

verus! {

/// Whether a row can fail the run.
#[derive(Clone, Copy, PartialEq, Eq, Structural, Debug)]
pub enum Kind {
    /// Contributes to the exit code when it fails.
    Gate,
    /// Measured and printed, never fails the run.
    Record,
}

/// One measured quantity within a scenario.
pub struct Row {
    pub metric: &'static str,
    pub kind: Kind,
    /// Printed value.
    pub value: String,
    /// None when the metric is unavailable for this scenario.
    pub ok: Option<bool>,
    /// Why it failed, or what the record means.
    pub note: String,
}

/// What the verdict column of a row shows.
#[derive(Clone, Copy, PartialEq, Eq, Structural, Debug)]
pub enum Shown {
    /// A gate that passed: "ok".
    Pass,
    /// A gate that failed: "FAIL" and the note.
    Fail,
    /// Anything else: the note alone, so a record never reads as checked.
    Note,
}

impl Row {
    /// A gate row that passed or failed.
    pub fn gate(metric: &'static str, ok: bool, value: String) -> (r: Row)
        ensures
            r.metric == metric,
            r.kind == Kind::Gate,
            r.value@ == value@,
            r.ok == Some(ok),
            r.note@ == Seq::<char>::empty(),
    {
        Row { metric, kind: Kind::Gate, value, ok: Some(ok), note: String::new() }
    }

    /// A recorded row: measured, never fatal.
    pub fn record(metric: &'static str, value: String) -> (r: Row)
        ensures
            r.metric == metric,
            r.kind == Kind::Record,
            r.value@ == value@,
            r.ok == None::<bool>,
            r.note@ == Seq::<char>::empty(),
    {
        Row { metric, kind: Kind::Record, value, ok: None, note: String::new() }
    }

    /// A metric this scenario cannot supply.
    pub fn absent(metric: &'static str, why: String) -> (r: Row)
        ensures
            r.metric == metric,
            r.kind == Kind::Record,
            r.value@ == "n/a"@,
            r.ok == None::<bool>,
            r.note@ == why@,
    {
        Row { metric, kind: Kind::Record, value: "n/a".to_owned(), ok: None, note: why }
    }

    /// The same row with its note replaced.
    pub fn with_note(self, note: String) -> (r: Row)
        ensures
            r.metric == self.metric,
            r.kind == self.kind,
            r.value == self.value,
            r.ok == self.ok,
            r.note@ == note@,
    {
        Row { note, ..self }
    }

    /// Only a gate that failed is a fault.
    pub open spec fn is_fault(self) -> bool {
        self.kind == Kind::Gate && self.ok == Some(false)
    }

    /// What the verdict column shows for this row.
    pub fn shown(&self) -> (v: Shown)
        ensures
            v == if self.kind == Kind::Gate && self.ok == Some(true) {
                Shown::Pass
            } else if self.is_fault() {
                Shown::Fail
            } else {
                Shown::Note
            },
    {
        match (self.kind, self.ok) {
            (Kind::Gate, Some(true)) => Shown::Pass,
            (Kind::Gate, Some(false)) => Shown::Fail,
            _ => Shown::Note,
        }
    }
}

/// Gate faults among `rows`.
pub open spec fn faults(rows: Seq<Row>) -> nat
    decreases rows.len(),
{
    if rows.len() == 0 {
        0
    } else {
        faults(rows.drop_last()) + if rows.last().is_fault() { 1nat } else { 0nat }
    }
}

/// A scenario's gate-fault count: gate rows whose check failed. Record
/// rows never count.
pub fn fault_count(rows: &[Row]) -> (n: usize)
    ensures
        n == faults(rows@),
{
    let mut n: usize = 0;
    let mut i: usize = 0;
    while i < rows.len()
        invariant
            i <= rows@.len(),
            n == faults(rows@.subrange(0, i as int)),
            n <= i,
        decreases rows.len() - i,
    {
        assert(rows@.subrange(0, i + 1).drop_last() =~= rows@.subrange(0, i as int));
        if rows[i].shown() == Shown::Fail {
            n = n + 1;
        }
        i = i + 1;
    }
    assert(rows@.subrange(0, rows@.len() as int) =~= rows@);
    n
}

/// Record rows never fail a run: the faults of a table are the faults of
/// its gate rows alone, and a table with no gate rows has none.
pub proof fn lemma_records_never_fail(rows: Seq<Row>)
    requires
        forall|i: int| 0 <= i < rows.len() ==> (#[trigger] rows[i]).kind == Kind::Record,
    ensures
        faults(rows) == 0,
    decreases rows.len(),
{
    if rows.len() > 0 {
        lemma_records_never_fail(rows.drop_last());
    }
}

} // verus!
