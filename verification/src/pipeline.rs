//! The three-stage concurrent pipeline over one input stream: a source that
//! tags and hands out raw records, a projector, and a sink, connected by two
//! bounded FIFO queues.  The model makes every interleaving of the three
//! stages a sequence of `step` calls, so the ordering and backpressure
//! guarantees are proved for any schedule and any queue capacity: whenever a
//! run finishes, the sink has written exactly the reference projection of the
//! whole input, in input order.

use vstd::prelude::*;

use crate::bytes::{clone_bytes, views_of};
use crate::depth::Depth;
use crate::project::{process_record, spec_process};
use crate::stream::spec_outputs;

verus! {

/// One of the three independently scheduled stages.
#[derive(Clone, Copy, PartialEq, Eq, Structural, Debug)]
pub enum Stage {
    /// Reads records and tags each with its sequence index.
    Source,
    /// Parses, selects and reassembles, under the depth gate.
    Projector,
    /// Writes projected lines in the order received.
    Sink,
}

/// A run of the pipeline over one input stream, with its two bounded queues.
/// A scheduler drives it by calling `step` with any stage in any order; a
/// stage at a full or empty queue simply makes no progress, which is the
/// model of blocking.
pub struct Pipeline {
    /// The input records of this stream, fixed for the run.
    pub input: Vec<Vec<u8>>,
    /// The selected field names, immutable for the run and shared by every stage.
    pub fields: Vec<Vec<u8>>,
    /// The depth gate, fixed for the run.
    pub depth: Depth,
    /// Capacity bound of both queues.
    pub cap: usize,
    /// How many records the source has read so far.
    pub next_read: usize,
    /// Queue between source and projector: (sequence index, raw record).
    pub raw_queue: Vec<(usize, Vec<u8>)>,
    /// The source has signalled end-of-sequence.
    pub source_done: bool,
    /// Queue between projector and sink: projected lines, indices dropped.
    pub line_queue: Vec<Vec<u8>>,
    /// The projector has signalled end-of-sequence.
    pub projector_done: bool,
    /// The lines written, in the order received.
    pub output: Vec<Vec<u8>>,
    /// The sink has drained its queue after the projector finished.
    pub sink_done: bool,
}

impl Pipeline {
    /// Number of input records the projector has fully consumed.
    pub open spec fn processed(self) -> int {
        self.next_read - self.raw_queue@.len()
    }

    /// The lines the whole run owes: the reference projection of the input.
    pub open spec fn goal(self) -> Seq<Seq<u8>> {
        spec_outputs(views_of(self.input@), views_of(self.fields@), self.depth)
    }

    /// The lines owed for the first `n` input records.
    pub open spec fn goal_prefix(self, n: int) -> Seq<Seq<u8>> {
        spec_outputs(views_of(self.input@).take(n), views_of(self.fields@), self.depth)
    }

    /// The state invariant, preserved by every step of every stage under any
    /// schedule.  The raw queue holds exactly the records read but not yet
    /// processed, each under its sequence index — the indices the projector
    /// sees are consecutive and ascending, with no gap and no duplicate — and
    /// everything past the projector, queued or written, is the projection of
    /// the processed prefix, in order.
    pub open spec fn inv(self) -> bool {
        &&& self.cap >= 1
        &&& self.next_read <= self.input@.len()
        &&& self.raw_queue@.len() <= self.next_read
        &&& self.raw_queue@.len() <= self.cap
        &&& self.line_queue@.len() <= self.cap
        &&& forall|i: int|
            0 <= i < self.raw_queue@.len() ==> (#[trigger] self.raw_queue@[i]).0 == self.processed()
                + i && self.raw_queue@[i].1@ == self.input@[self.processed() + i]@
        &&& views_of(self.output@) + views_of(self.line_queue@) == self.goal_prefix(
            self.processed(),
        )
        &&& self.source_done ==> self.next_read == self.input@.len()
        &&& self.projector_done ==> self.source_done && self.raw_queue@.len() == 0
        &&& self.sink_done ==> self.projector_done && self.line_queue@.len() == 0
    }

    /// True when all three stages have finished.
    pub open spec fn finished(self) -> bool {
        self.sink_done
    }

    /// Decreases with every productive step: a termination measure for any
    /// scheduler that keeps offering steps to unblocked stages.
    pub open spec fn measure(self) -> int {
        7 * (self.input@.len() - self.next_read) + (if self.source_done {
            0int
        } else {
            1int
        }) + 5 * self.raw_queue@.len() + (if self.projector_done {
            0int
        } else {
            1int
        }) + 4 * self.line_queue@.len() + (if self.sink_done {
            0int
        } else {
            1int
        })
    }

    /// The run's fixed configuration: what no step may change.
    pub open spec fn same_run(self, other: Pipeline) -> bool {
        &&& self.input@ == other.input@
        &&& self.fields@ == other.fields@
        &&& self.depth == other.depth
        &&& self.cap == other.cap
    }

    /// A fresh pipeline over one input stream, both queues empty and bounded
    /// by `cap`.
    pub fn new(input: Vec<Vec<u8>>, fields: Vec<Vec<u8>>, depth: Depth, cap: usize) -> (p: Pipeline)
        requires
            cap >= 1,
        ensures
            p.inv(),
            !p.finished(),
            p.input@ == input@,
            p.fields@ == fields@,
            p.depth == depth,
            p.cap == cap,
            p.output@.len() == 0,
    {
        let p = Pipeline {
            input,
            fields,
            depth,
            cap,
            next_read: 0,
            raw_queue: Vec::new(),
            source_done: false,
            line_queue: Vec::new(),
            projector_done: false,
            output: Vec::new(),
            sink_done: false,
        };
        proof {
            assert(views_of(p.input@).take(0) =~= Seq::<Seq<u8>>::empty());
            assert(p.goal_prefix(0) =~= Seq::<Seq<u8>>::empty());
            assert(views_of(p.output@) + views_of(p.line_queue@) =~= Seq::<Seq<u8>>::empty());
        }
        p
    }

    /// One scheduling step of the given stage.  Returns whether the stage
    /// made progress; a finished stage, or one blocked on a full or empty
    /// queue, returns false and changes nothing.
    pub fn step(&mut self, stage: Stage) -> (progressed: bool)
        requires
            old(self).inv(),
        ensures
            final(self).inv(),
            old(self).same_run(*final(self)),
            !progressed ==> *final(self) == *old(self),
            final(self).measure() <= old(self).measure(),
            progressed ==> final(self).measure() < old(self).measure(),
            !progressed ==> match stage {
                Stage::Source => old(self).source_done || old(self).raw_queue@.len() == old(
                    self,
                ).cap,
                Stage::Projector => old(self).projector_done || (old(self).raw_queue@.len() == 0
                    && !old(self).source_done) || (old(self).raw_queue@.len() > 0 && old(
                    self,
                ).depth.level() >= 6 && old(self).line_queue@.len() == old(self).cap),
                Stage::Sink => old(self).sink_done || (old(self).line_queue@.len() == 0 && !old(
                    self,
                ).projector_done),
            },
    {
        match stage {
            Stage::Source => self.step_source(),
            Stage::Projector => self.step_projector(),
            Stage::Sink => self.step_sink(),
        }
    }

    /// The source: reads the next record, tags it with its sequence index and
    /// enqueues it, suspending while the raw queue is full; at end of input
    /// it signals end-of-sequence.
    fn step_source(&mut self) -> (progressed: bool)
        requires
            old(self).inv(),
        ensures
            final(self).inv(),
            old(self).same_run(*final(self)),
            !progressed ==> *final(self) == *old(self),
            final(self).measure() <= old(self).measure(),
            progressed ==> final(self).measure() < old(self).measure(),
            !progressed ==> old(self).source_done || old(self).raw_queue@.len() == old(self).cap,
    {
        if self.source_done {
            return false;
        }
        if self.raw_queue.len() == self.cap {
            return false;
        }
        if self.next_read < self.input.len() {
            let rec = clone_bytes(&self.input[self.next_read]);
            self.raw_queue.push((self.next_read, rec));
            self.next_read = self.next_read + 1;
            proof {
                assert forall|i: int| 0 <= i < self.raw_queue@.len() implies (
                #[trigger] self.raw_queue@[i]).0 == self.processed() + i && self.raw_queue@[i].1@
                    == self.input@[self.processed() + i]@ by {
                    if i < self.raw_queue@.len() - 1 {
                        assert(self.raw_queue@[i] == old(self).raw_queue@[i]);
                    }
                }
            }
            true
        } else {
            self.source_done = true;
            true
        }
    }

    /// The projector: dequeues the next tagged record, runs the depth-gated
    /// stages on it, and enqueues the projected line when the depth emits
    /// one, suspending while its input is empty or its output is full; when
    /// the source has finished and the raw queue is drained it signals
    /// end-of-sequence.
    fn step_projector(&mut self) -> (progressed: bool)
        requires
            old(self).inv(),
        ensures
            final(self).inv(),
            old(self).same_run(*final(self)),
            !progressed ==> *final(self) == *old(self),
            final(self).measure() <= old(self).measure(),
            progressed ==> final(self).measure() < old(self).measure(),
            !progressed ==> old(self).projector_done || (old(self).raw_queue@.len() == 0 && !old(
                self,
            ).source_done) || (old(self).raw_queue@.len() > 0 && old(self).depth.level() >= 6 && old(
                self,
            ).line_queue@.len() == old(self).cap),
    {
        if self.projector_done {
            return false;
        }
        if self.raw_queue.len() == 0 {
            if self.source_done {
                self.projector_done = true;
                return true;
            }
            return false;
        }
        let emits = self.depth.stage() >= 6;
        if emits && self.line_queue.len() == self.cap {
            return false;
        }
        let ghost p = self.processed();
        let (idx, rec) = self.raw_queue.remove(0);
        proof {
            assert(old(self).raw_queue@[0].1@ == self.input@[p]@);
            assert forall|i: int| 0 <= i < self.raw_queue@.len() implies (
            #[trigger] self.raw_queue@[i]).0 == self.processed() + i && self.raw_queue@[i].1@
                == self.input@[self.processed() + i]@ by {
                assert(self.raw_queue@[i] == old(self).raw_queue@[i + 1]);
            }
        }
        let r = process_record(&rec, &self.fields, self.depth);
        match r {
            Some(line) => {
                let ghost linev = line@;
                self.line_queue.push(line);
                proof {
                    assert(views_of(self.line_queue@) =~= views_of(old(self).line_queue@).push(
                        linev,
                    ));
                    assert(views_of(self.input@).take(p + 1) =~= views_of(self.input@).take(
                        p,
                    ).push(self.input@[p]@));
                    assert(self.goal_prefix(p + 1) =~= self.goal_prefix(p).push(linev));
                    assert(views_of(self.output@) + views_of(self.line_queue@) =~= self.goal_prefix(
                        p + 1,
                    ));
                }
            }
            None => {
                proof {
                    assert(self.goal_prefix(p + 1) =~= self.goal_prefix(p));
                }
            }
        }
        true
    }

    /// The sink: dequeues the next projected line and writes it, in the order
    /// received, suspending while its queue is empty; when the projector has
    /// finished and the line queue is drained it finishes.
    fn step_sink(&mut self) -> (progressed: bool)
        requires
            old(self).inv(),
        ensures
            final(self).inv(),
            old(self).same_run(*final(self)),
            !progressed ==> *final(self) == *old(self),
            final(self).measure() <= old(self).measure(),
            progressed ==> final(self).measure() < old(self).measure(),
            !progressed ==> old(self).sink_done || (old(self).line_queue@.len() == 0 && !old(
                self,
            ).projector_done),
    {
        if self.sink_done {
            return false;
        }
        if self.line_queue.len() == 0 {
            if self.projector_done {
                self.sink_done = true;
                return true;
            }
            return false;
        }
        let line = self.line_queue.remove(0);
        let ghost linev = line@;
        self.output.push(line);
        proof {
            assert(views_of(self.output@) =~= views_of(old(self).output@).push(linev));
            assert(views_of(old(self).line_queue@) =~= seq![linev] + views_of(self.line_queue@));
            assert(views_of(self.output@) + views_of(self.line_queue@) =~= views_of(
                old(self).output@,
            ) + views_of(old(self).line_queue@));
        }
        true
    }

    /// Whether the run has finished.
    pub fn is_finished(&self) -> (b: bool)
        ensures
            b == self.finished(),
    {
        self.sink_done
    }

    /// The lines written, in the order the sink received them.
    pub fn into_output(self) -> (out: Vec<Vec<u8>>)
        ensures
            out@ == self.output@,
    {
        self.output
    }

    /// A finished run has written exactly the reference projection of its
    /// whole input, in input order — however the three stages were
    /// interleaved, and whatever the queue capacity.
    pub proof fn lemma_finished_output(self)
        requires
            self.inv(),
            self.finished(),
        ensures
            views_of(self.output@) == self.goal(),
    {
        assert(self.processed() == self.input@.len());
        assert(views_of(self.input@).take(self.input@.len() as int) =~= views_of(self.input@));
        assert(views_of(self.line_queue@) =~= Seq::<Seq<u8>>::empty());
        assert(views_of(self.output@) =~= views_of(self.output@) + views_of(self.line_queue@));
    }

    /// Queue capacity does not change what a run produces: two finished runs
    /// over the same input, fields and depth have written identical output,
    /// whatever each one's queue bound or schedule was.  Bounding the queues
    /// affects only how often stages suspend, never the lines written.
    pub proof fn lemma_capacity_independent(self, other: Pipeline)
        requires
            self.inv(),
            self.finished(),
            other.inv(),
            other.finished(),
            views_of(self.input@) == views_of(other.input@),
            views_of(self.fields@) == views_of(other.fields@),
            self.depth == other.depth,
        ensures
            views_of(self.output@) == views_of(other.output@),
    {
        self.lemma_finished_output();
        other.lemma_finished_output();
    }

    /// At every point of every schedule, the lines written so far are a
    /// prefix of the reference projection: output order is input order, and
    /// no record is written early, late or twice.
    pub proof fn lemma_output_prefix(self)
        requires
            self.inv(),
        ensures
            views_of(self.output@).is_prefix_of(self.goal()),
    {
        let outv = views_of(self.output@);
        let p = self.processed();
        assert(outv.len() + views_of(self.line_queue@).len() == self.goal_prefix(p).len());
        if self.depth.level() >= 6 {
            assert(self.goal_prefix(p) =~= self.goal().take(p));
            assert forall|i: int| 0 <= i < outv.len() implies outv[i] == self.goal()[i] by {
                assert(outv[i] == (views_of(self.output@) + views_of(self.line_queue@))[i]);
                assert(self.goal_prefix(p)[i] == self.goal().take(p)[i]);
            }
            assert(outv =~= self.goal().subrange(0, outv.len() as int));
        } else {
            assert(self.goal_prefix(p).len() == 0);
            assert(outv =~= self.goal().subrange(0, 0));
        }
    }
}

/// Drives one pipeline run to completion with a round-robin schedule and
/// returns what the sink wrote: the reference projection of every input
/// record, in input order — the same lines whatever `cap` is, so a queue
/// bound of 1 and of 64 produce identical output.
pub fn run_pipeline(input: Vec<Vec<u8>>, fields: Vec<Vec<u8>>, depth: Depth, cap: usize) -> (out:
    Vec<Vec<u8>>)
    requires
        cap >= 1,
    ensures
        views_of(out@) == spec_outputs(views_of(input@), views_of(fields@), depth),
{
    let ghost iv = views_of(input@);
    let ghost fv = views_of(fields@);
    let mut p = Pipeline::new(input, fields, depth, cap);
    while !p.is_finished()
        invariant
            p.inv(),
            p.input@.map_values(|t: Vec<u8>| t@) == iv,
            p.fields@.map_values(|t: Vec<u8>| t@) == fv,
            p.depth == depth,
        decreases p.measure(),
    {
        let s1 = p.step(Stage::Source);
        let s2 = p.step(Stage::Projector);
        let s3 = p.step(Stage::Sink);
        proof {
            if !s1 && !s2 && !s3 {
                assert(p.raw_queue@.len() == 0 && !p.source_done);
                assert(p.raw_queue@.len() == p.cap);
                assert(false);
            }
        }
    }
    proof {
        p.lemma_finished_output();
    }
    p.into_output()
}

} // verus!
