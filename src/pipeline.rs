use vstd::prelude::*;
use crate::ranking::{WorldResult, is_ranked, ranked, sort_by_ping, process_world, lemma_ranked_is_ordered};
use crate::summary::{avg_fields, latencies_of, extract_latencies};

verus! {

/// A probe's output held a summary line whose `<avg>` field is not a number.
#[derive(Clone, Copy, Debug, PartialEq, Eq, Structural)]
pub enum ProbeError {
    MalformedLatency,
}

/// The records that one probe of `world_id` contributes.
pub open spec fn records_for(world_id: i64, ls: Seq<u64>) -> Seq<WorldResult> {
    Seq::new(ls.len(), |i: int| WorldResult { world_id, average_ping: ls[i] })
}

/// How many leading records the final report shows for `n` records and a
/// requested count `c`.
pub open spec fn display_count_spec(n: nat, c: nat) -> nat {
    if n == 0 {
        0
    } else if c == 0 {
        1
    } else if c < n {
        c
    } else {
        n
    }
}

/// The number of lines of the final report: `max(1, min(n, count))` for a
/// non-empty result set, none for an empty one.
pub fn display_count(n: usize, count: usize) -> (r: usize)
    ensures
        r == display_count_spec(n as nat, count as nat),
        n > 0 ==> r == if count < n { if count > 1 { count } else { 1 } } else { n },
        n == 0 ==> r == 0,
{
    if n == 0 {
        0
    } else {
        let m = if n < count { n } else { count };
        if m > 1 { m } else { 1 }
    }
}

/// The measurements accumulated over a run, kept in ranked order.
pub struct ResultSet {
    records: Vec<WorldResult>,
}

impl View for ResultSet {
    type V = Seq<WorldResult>;

    closed spec fn view(&self) -> Seq<WorldResult> {
        self.records@
    }
}

impl ResultSet {
    /// Records are in ascending latency order.
    pub open spec fn wf(&self) -> bool {
        is_ranked(self@)
    }

    pub fn new() -> (r: ResultSet)
        ensures
            r@ == Seq::<WorldResult>::empty(),
            r.wf(),
    {
        ResultSet { records: Vec::new() }
    }

    pub fn len(&self) -> (r: usize)
        ensures
            r == self@.len(),
    {
        self.records.len()
    }

    /// The record at rank `i` (0 is the lowest latency).
    pub fn get(&self, i: usize) -> (r: WorldResult)
        requires
            i < self@.len(),
        ensures
            r == self@[i as int],
    {
        self.records[i]
    }

    /// One step of the pipeline: appends a record for every summary line of
    /// the output of the probe of `world_id`, in order, then ranks the whole
    /// set again. When a summary's `<avg>` field does not read as a latency,
    /// nothing is added and the error is returned.
    pub fn record_probe(&mut self, world_id: i64, output: &[u8]) -> (r: Result<(), ProbeError>)
        requires
            old(self).wf(),
        ensures
            final(self).wf(),
            match latencies_of(avg_fields(output@, 0)) {
                Some(ls) => r is Ok && final(self)@ == ranked(old(self)@ + records_for(world_id, ls))
                    && final(self)@.len() == old(self)@.len() + ls.len(),
                None => r == Err::<(), ProbeError>(ProbeError::MalformedLatency) && final(self)@
                    == old(self)@,
            },
    {
        match extract_latencies(output) {
            None => Err(ProbeError::MalformedLatency),
            Some(ls) => {
                let ghost start = self@;
                let mut i: usize = 0;
                while i < ls.len()
                    invariant
                        i <= ls@.len(),
                        self.records@ == start + records_for(world_id, ls@.take(i as int)),
                    decreases ls@.len() - i,
                {
                    self.records.push(process_world(world_id, ls[i]));
                    i = i + 1;
                    assert(self.records@ =~= start + records_for(world_id, ls@.take(i as int)));
                }
                assert(ls@.take(ls@.len() as int) =~= ls@);
                sort_by_ping(&mut self.records);
                Ok(())
            },
        }
    }

    /// The lowest-latency record and the number of records so far, or `None`
    /// while no record has been found.
    pub fn current_best(&self) -> (r: Option<(WorldResult, usize)>)
        ensures
            self@.len() == 0 ==> r is None,
            self@.len() > 0 ==> r == Some((self@[0], self@.len() as usize)),
    {
        if self.records.len() == 0 {
            None
        } else {
            Some((self.records[0], self.records.len()))
        }
    }

    /// The final report: the set ranked once more, and its leading
    /// `display_count(len, count)` records.
    pub fn final_report(&mut self, count: usize) -> (r: Vec<WorldResult>)
        requires
            old(self).wf(),
        ensures
            final(self).wf(),
            final(self)@ == ranked(old(self)@),
            r@ == final(self)@.take(display_count_spec(old(self)@.len(), count as nat) as int),
    {
        sort_by_ping(&mut self.records);
        let k = display_count(self.records.len(), count);
        let mut out: Vec<WorldResult> = Vec::new();
        let mut i: usize = 0;
        while i < k
            invariant
                k <= self.records@.len(),
                i <= k,
                out@ == self.records@.take(i as int),
            decreases k - i,
        {
            out.push(self.records[i]);
            i = i + 1;
            assert(out@ =~= self.records@.take(i as int));
        }
        out
    }
}

} // verus!
