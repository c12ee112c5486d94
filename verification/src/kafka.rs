//! Reading a live stream up to where it stood when reading began.
//!
//! For every partition of interest the high watermark is taken once, at the
//! start. The controller then tells its driver, turn by turn, whether to poll
//! the source once more or to stop: it stops cleanly when the source's read
//! position has reached the watermark on every partition, and gives up when
//! too many polls in a row have come back empty-handed. The driver does the
//! polling; every decision is taken here.

use crate::error::Error;
use crate::msg::{Msg, ParsedKey};
use vstd::prelude::*;
use vstd::slice::slice_to_vec;

verus! {

/// How many polls in a row may come back empty before the controller stops.
pub const MAX_RETRIES: usize = 10;

/// How long one poll may wait for a record, in seconds.
pub const POLL_TIMEOUT_SECS: u64 = 1;

/// An offset as a source reports it.
#[derive(Debug, Clone, Copy, PartialEq, Eq, Structural)]
pub enum Offset {
    Beginning,
    End,
    Stored,
    Invalid,
    Offset(i64),
    OffsetTail(i64),
}

/// The offset a source reports for one partition of a topic.
#[derive(Debug, Clone)]
pub struct Topic {
    pub name: String,
    pub partition: i32,
    pub end_offset: Offset,
}

/// The bounds of a partition when reading began, and the number of records
/// received from it since.
#[derive(Debug, Clone, Copy, PartialEq, Eq, Structural)]
pub struct Watermark {
    pub lo: i64,
    pub hi: i64,
    pub received: i64,
}

/// A partition that the controller tracks.
#[derive(Debug)]
pub struct PartitionMark {
    pub topic: String,
    pub partition: i32,
    pub watermark: Watermark,
}

/// Why the controller stopped.
#[derive(Debug, Clone, Copy, PartialEq, Eq, Structural)]
pub enum Completion {
    /// Every tracked partition has been read up to its high watermark.
    Clean,
    /// The retry budget ran out while partitions were still behind.
    RetryExhausted,
    /// The source failed; nothing more can be read from it.
    Failed,
}

/// Where the controller stands.
#[derive(Debug, Clone, Copy, PartialEq, Eq, Structural)]
pub enum Phase {
    /// Watermarks are being collected.
    Initializing,
    /// The driver has been told to poll.
    Polling,
    /// The last poll brought a record.
    Delivering,
    /// The last poll brought nothing, and the budget is not spent.
    RetryWait,
    /// The controller has stopped for good.
    Done(Completion),
}

/// What the driver is to do next.
#[derive(Debug, Clone, Copy, PartialEq, Eq, Structural)]
pub enum Action {
    /// Poll the source once, with the fixed timeout.
    Poll,
    /// Stop: no more records will be produced.
    Stop,
}

/// What a poll of the source brought.
#[derive(Debug)]
pub enum Polled {
    /// A record of the given partition.
    Record { topic: String, partition: i32 },
    /// Nothing within the timeout.
    Idle,
    /// An error of the source itself.
    Failure,
}

/// What the controller makes of a poll.
#[derive(Debug, Clone, Copy, PartialEq, Eq, Structural)]
pub enum Outcome {
    /// Hand the record to the consumer, then go on.
    Deliver,
    /// Nothing came; go on.
    Retry,
    /// The controller has stopped.
    Finished,
}

/// The controller as the contracts see it.
pub ghost struct Model {
    pub phase: Phase,
    pub retries: nat,
    pub marks: Seq<PartitionMark>,
}

/// Whether `t` is the partition `partition` of the topic `topic`.
pub open spec fn is_partition(t: PartitionMark, topic: Seq<char>, partition: i32) -> bool {
    t.topic@ == topic && t.partition == partition
}

/// Whether some partition in `marks` is the given one.
pub open spec fn tracks(marks: Seq<PartitionMark>, topic: Seq<char>, partition: i32) -> bool {
    exists|i: int| 0 <= i < marks.len() && is_partition(#[trigger] marks[i], topic, partition)
}

/// Whether some partition in `marks` is of the topic `name`.
pub open spec fn has_topic(marks: Seq<PartitionMark>, name: Seq<char>) -> bool {
    exists|k: int| 0 <= k < marks.len() && (#[trigger] marks[k]).topic@ == name
}

/// Whether `name` is one of `names`.
pub open spec fn lists(names: Seq<String>, name: Seq<char>) -> bool {
    exists|i: int| 0 <= i < names.len() && (#[trigger] names[i])@ == name
}

/// Whether the given partition is in `marks` with the watermark `w`.
pub open spec fn marked(marks: Seq<PartitionMark>, topic: Seq<char>, partition: i32, w: Watermark) -> bool {
    exists|i: int|
        0 <= i < marks.len() && is_partition(#[trigger] marks[i], topic, partition)
            && marks[i].watermark == w
}

/// Whether no partition occurs twice in `marks`.
pub open spec fn distinct(marks: Seq<PartitionMark>) -> bool {
    forall|i: int, j: int|
        0 <= i < j < marks.len() ==> !is_partition(
            #[trigger] marks[i],
            (#[trigger] marks[j]).topic@,
            marks[j].partition,
        )
}

/// Whether some report says that the source's read position on the
/// partition of `t` has got to its high watermark.
pub open spec fn reached(reports: Seq<Topic>, t: PartitionMark) -> bool {
    exists|i: int|
        0 <= i < reports.len() && says_reached(#[trigger] reports[i], t)
}

/// Whether `report` is about the partition of `t` and gives a position at or
/// past its high watermark.
pub open spec fn says_reached(report: Topic, t: PartitionMark) -> bool {
    &&& is_partition(t, report.name@, report.partition)
    &&& report.end_offset matches Offset::Offset(o)
    &&& o >= t.watermark.hi
}

/// How many of `marks` the source has not read up to their high watermark.
pub open spec fn remaining(marks: Seq<PartitionMark>, reports: Seq<Topic>) -> nat
    decreases marks.len(),
{
    if marks.len() == 0 {
        0
    } else {
        remaining(marks.drop_last(), reports) + if reached(reports, marks.last()) {
            0nat
        } else {
            1nat
        }
    }
}

/// One more record received, as far as the counter goes.
pub open spec fn one_more(w: Watermark) -> Watermark {
    Watermark {
        lo: w.lo,
        hi: w.hi,
        received: if w.received < i64::MAX {
            (w.received + 1) as i64
        } else {
            w.received
        },
    }
}

/// `marks` after a record of the given partition: its counter is one higher,
/// and nothing else has changed.
pub open spec fn credited(marks: Seq<PartitionMark>, topic: Seq<char>, partition: i32) -> Seq<PartitionMark> {
    Seq::new(
        marks.len(),
        |i: int|
            if is_partition(marks[i], topic, partition) {
                PartitionMark {
                    topic: marks[i].topic,
                    partition: marks[i].partition,
                    watermark: one_more(marks[i].watermark),
                }
            } else {
                marks[i]
            },
    )
}

impl Model {
    /// The budget is within its bounds, and positive while the controller runs;
    /// no partition is tracked twice.
    pub open spec fn wf(self) -> bool {
        &&& self.retries <= MAX_RETRIES
        &&& !(self.phase is Done) ==> self.retries >= 1
        &&& distinct(self.marks)
    }

    /// A controller that tracks nothing yet.
    pub open spec fn fresh() -> Model {
        Model { phase: Phase::Initializing, retries: MAX_RETRIES as nat, marks: Seq::empty() }
    }

    /// The controller after it has been told the watermarks of a partition.
    /// They are taken while watermarks are being collected and at no other
    /// time; a partition told twice keeps what was told last.
    pub open spec fn track(self, t: PartitionMark) -> Model {
        if self.phase != Phase::Initializing {
            self
        } else if tracks(self.marks, t.topic@, t.partition) {
            Model {
                marks: Seq::new(
                    self.marks.len(),
                    |i: int|
                        if is_partition(self.marks[i], t.topic@, t.partition) {
                            t
                        } else {
                            self.marks[i]
                        },
                ),
                ..self
            }
        } else {
            Model { marks: self.marks.push(t), ..self }
        }
    }

    /// The decision before a poll. A stopped controller stays stopped. One
    /// that runs stops cleanly when no partition is behind, and asks for a
    /// poll otherwise.
    pub open spec fn plan(self, reports: Seq<Topic>) -> (Model, Action) {
        if self.phase is Done {
            (self, Action::Stop)
        } else if remaining(self.marks, reports) == 0 {
            (Model { phase: Phase::Done(Completion::Clean), ..self }, Action::Stop)
        } else {
            (Model { phase: Phase::Polling, ..self }, Action::Poll)
        }
    }

    /// The decision after a poll. A record of a tracked partition refills the
    /// budget and is counted; nothing at all costs one retry, and the last
    /// retry stops the controller; an error of the source, or a record of a
    /// partition that is not tracked, ends everything.
    pub open spec fn observe(self, polled: Polled) -> (Model, Result<Outcome, Error>) {
        if self.phase is Done {
            (self, Ok(Outcome::Finished))
        } else {
            match polled {
                Polled::Record { topic, partition } => {
                    if tracks(self.marks, topic@, partition) {
                        (
                            Model {
                                phase: Phase::Delivering,
                                retries: MAX_RETRIES as nat,
                                marks: credited(self.marks, topic@, partition),
                            },
                            Ok(Outcome::Deliver),
                        )
                    } else {
                        (
                            Model { phase: Phase::Done(Completion::Failed), ..self },
                            Err(Error::SourceDeliveryFailed),
                        )
                    }
                },
                Polled::Idle => {
                    if self.retries <= 1 {
                        (
                            Model {
                                phase: Phase::Done(Completion::RetryExhausted),
                                retries: 0,
                                ..self
                            },
                            Ok(Outcome::Finished),
                        )
                    } else {
                        (
                            Model {
                                phase: Phase::RetryWait,
                                retries: (self.retries - 1) as nat,
                                ..self
                            },
                            Ok(Outcome::Retry),
                        )
                    }
                },
                Polled::Failure => (
                    Model { phase: Phase::Done(Completion::Failed), ..self },
                    Err(Error::SourceDeliveryFailed),
                ),
            }
        }
    }

    /// One turn of the driver: the decision, and the poll if one was asked
    /// for.
    pub open spec fn turn(self, reports: Seq<Topic>, polled: Polled) -> Model {
        let (planned, action) = self.plan(reports);
        if action == Action::Poll {
            planned.observe(polled).0
        } else {
            planned
        }
    }
}

/// Taking watermarks keeps the controller well formed.
pub proof fn lemma_track_keeps_wf(m: Model, t: PartitionMark)
    requires
        m.wf(),
    ensures
        m.track(t).wf(),
{
    let after = m.track(t).marks;
    assert forall|i: int, j: int| 0 <= i < j < after.len() implies !is_partition(
        #[trigger] after[i],
        (#[trigger] after[j]).topic@,
        after[j].partition,
    ) by {
        if m.phase == Phase::Initializing {
            if tracks(m.marks, t.topic@, t.partition) {
                assert(!is_partition(m.marks[i], m.marks[j].topic@, m.marks[j].partition));
            } else if j == m.marks.len() {
                assert(!is_partition(m.marks[i], t.topic@, t.partition));
            } else {
                assert(!is_partition(m.marks[i], m.marks[j].topic@, m.marks[j].partition));
            }
        } else {
            assert(!is_partition(m.marks[i], m.marks[j].topic@, m.marks[j].partition));
        }
    }
}

/// A decision before a poll keeps the controller well formed.
pub proof fn lemma_plan_keeps_wf(m: Model, reports: Seq<Topic>)
    requires
        m.wf(),
    ensures
        m.plan(reports).0.wf(),
{
}

/// A decision after a poll keeps the controller well formed.
pub proof fn lemma_observe_keeps_wf(m: Model, polled: Polled)
    requires
        m.wf(),
    ensures
        m.observe(polled).0.wf(),
{
    let after = m.observe(polled).0.marks;
    assert forall|i: int, j: int| 0 <= i < j < after.len() implies !is_partition(
        #[trigger] after[i],
        (#[trigger] after[j]).topic@,
        after[j].partition,
    ) by {
        assert(!is_partition(m.marks[i], m.marks[j].topic@, m.marks[j].partition));
    }
}

/// The controller after `n` turns in a row in which the source reports
/// `reports` and the poll brings nothing.
pub open spec fn idle_turns(m: Model, reports: Seq<Topic>, n: nat) -> Model
    decreases n,
{
    if n == 0 {
        m
    } else {
        idle_turns(m, reports, (n - 1) as nat).turn(reports, Polled::Idle)
    }
}

proof fn lemma_idle_turns(m: Model, reports: Seq<Topic>, n: nat)
    requires
        m.wf(),
        !(m.phase is Done),
        m.retries == MAX_RETRIES,
        remaining(m.marks, reports) > 0,
        n <= MAX_RETRIES,
    ensures
        idle_turns(m, reports, n).marks == m.marks,
        idle_turns(m, reports, n).retries == MAX_RETRIES - n,
        n < MAX_RETRIES ==> !(idle_turns(m, reports, n).phase is Done),
        n == MAX_RETRIES ==> idle_turns(m, reports, n).phase == Phase::Done(
            Completion::RetryExhausted,
        ),
    decreases n,
{
    if n > 0 {
        lemma_idle_turns(m, reports, (n - 1) as nat);
    }
}

/// A source that has records outstanding and delivers none makes the
/// controller give up after exactly `MAX_RETRIES` polls in a row that
/// brought nothing: not before, and with no poll after.
pub proof fn stalled_source_exhausts_the_budget(m: Model, reports: Seq<Topic>)
    requires
        m.wf(),
        !(m.phase is Done),
        m.retries == MAX_RETRIES,
        remaining(m.marks, reports) > 0,
    ensures
        forall|n: nat| n < MAX_RETRIES ==> !(#[trigger] idle_turns(m, reports, n).phase is Done),
        idle_turns(m, reports, MAX_RETRIES as nat).phase == Phase::Done(
            Completion::RetryExhausted,
        ),
        idle_turns(m, reports, MAX_RETRIES as nat).plan(reports).1 == Action::Stop,
{
    assert forall|n: nat| n < MAX_RETRIES implies !(#[trigger] idle_turns(m, reports, n).phase
        is Done) by {
        lemma_idle_turns(m, reports, n);
    }
    lemma_idle_turns(m, reports, MAX_RETRIES as nat);
}

/// Every record delivered refills the retry budget, so pauses that end in a
/// delivery never add up.
pub proof fn delivery_refills_the_budget(m: Model, topic: String, partition: i32)
    requires
        m.wf(),
        !(m.phase is Done),
        tracks(m.marks, topic@, partition),
    ensures
        m.observe(Polled::Record { topic, partition }).0.retries == MAX_RETRIES,
        m.observe(Polled::Record { topic, partition }).0.phase == Phase::Delivering,
{
}

/// A stopped controller stays stopped, whatever it is told.
pub proof fn done_is_terminal(m: Model, reports: Seq<Topic>, polled: Polled, t: PartitionMark)
    requires
        m.phase is Done,
    ensures
        m.plan(reports) == (m, Action::Stop),
        m.observe(polled) == (m, Ok::<Outcome, Error>(Outcome::Finished)),
        m.turn(reports, polled) == m,
        m.track(t) == m,
{
}

/// What the source says of its one partition when its read position is `at`.
pub open spec fn position_report(topic: String, partition: i32, at: int) -> Seq<Topic> {
    seq![Topic { name: topic, partition, end_offset: Offset::Offset(at as i64) }]
}

/// The controller after the source has delivered `n` records of one
/// partition in a row, its read position being `from` before the first.
pub open spec fn deliveries(m: Model, topic: String, partition: i32, from: int, n: nat) -> Model
    decreases n,
{
    if n == 0 {
        m
    } else {
        deliveries(m, topic, partition, from, (n - 1) as nat).turn(
            position_report(topic, partition, from + n - 1),
            Polled::Record { topic, partition },
        )
    }
}

/// A controller that has just taken the watermarks of one partition.
pub open spec fn following(topic: String, partition: i32, lo: i64, hi: i64) -> Model {
    Model::fresh().track(
        PartitionMark { topic, partition, watermark: Watermark { lo, hi, received: 0 } },
    )
}

proof fn lemma_one_partition(topic: String, partition: i32, w: Watermark, at: int)
    requires
        i64::MIN <= at <= i64::MAX,
    ensures
        remaining(
            seq![PartitionMark { topic, partition, watermark: w }],
            position_report(topic, partition, at),
        ) == if at >= w.hi {
            0nat
        } else {
            1nat
        },
        tracks(seq![PartitionMark { topic, partition, watermark: w }], topic@, partition),
{
    let t = PartitionMark { topic, partition, watermark: w };
    let marks = seq![t];
    let reports = position_report(topic, partition, at);
    assert(marks.drop_last() =~= Seq::<PartitionMark>::empty());
    assert(remaining(marks.drop_last(), reports) == 0);
    assert(marks.last() == t);
    assert(is_partition(marks[0], topic@, partition));
    if at >= w.hi {
        assert(says_reached(reports[0], t));
    }
}

proof fn lemma_deliveries(topic: String, partition: i32, lo: i64, hi: i64, n: nat)
    requires
        lo <= hi,
        n <= hi - lo,
    ensures
        deliveries(following(topic, partition, lo, hi), topic, partition, lo as int, n).retries
            == MAX_RETRIES,
        deliveries(following(topic, partition, lo, hi), topic, partition, lo as int, n).phase == if n
            == 0 {
            Phase::Initializing
        } else {
            Phase::Delivering
        },
        deliveries(following(topic, partition, lo, hi), topic, partition, lo as int, n).marks
            =~= seq![
            PartitionMark {
                topic,
                partition,
                watermark: Watermark {
                    lo,
                    hi,
                    received: if n <= i64::MAX {
                        n as i64
                    } else {
                        i64::MAX
                    },
                },
            },
        ],
    decreases n,
{
    let start = following(topic, partition, lo, hi);
    if n == 0 {
        assert(!tracks(Model::fresh().marks, topic@, partition));
    } else {
        lemma_deliveries(topic, partition, lo, hi, (n - 1) as nat);
        let before = deliveries(start, topic, partition, lo as int, (n - 1) as nat);
        let w = before.marks[0].watermark;
        lemma_one_partition(topic, partition, w, lo + n - 1);
        let after = before.turn(
            position_report(topic, partition, lo + n - 1),
            Polled::Record { topic, partition },
        );
        assert(after.marks =~= credited(before.marks, topic@, partition));
    }
}

/// A source whose one partition stood between `lo` and `hi` when reading
/// began, and which delivers its `hi - lo` records one after the other, is
/// polled for each of them and then no more: the controller stops cleanly,
/// with nothing remaining and every record counted.
pub proof fn source_read_to_the_end_stops_cleanly(topic: String, partition: i32, lo: i64, hi: i64)
    requires
        lo <= hi,
    ensures
        forall|n: nat|
            n < hi - lo ==> (#[trigger] deliveries(
                following(topic, partition, lo, hi),
                topic,
                partition,
                lo as int,
                n,
            )).plan(position_report(topic, partition, lo + n)).1 == Action::Poll,
        ({
            let end = deliveries(
                following(topic, partition, lo, hi),
                topic,
                partition,
                lo as int,
                (hi - lo) as nat,
            );
            let reports = position_report(topic, partition, hi as int);
            &&& remaining(end.marks, reports) == 0
            &&& end.plan(reports).1 == Action::Stop
            &&& end.plan(reports).0.phase == Phase::Done(Completion::Clean)
            &&& end.marks.len() == 1
            &&& hi - lo <= i64::MAX ==> end.marks[0].watermark.received == hi - lo
        }),
{
    let start = following(topic, partition, lo, hi);
    assert forall|n: nat| n < hi - lo implies (#[trigger] deliveries(
        start,
        topic,
        partition,
        lo as int,
        n,
    )).plan(position_report(topic, partition, lo + n)).1 == Action::Poll by {
        lemma_deliveries(topic, partition, lo, hi, n);
        let at = deliveries(start, topic, partition, lo as int, n);
        lemma_one_partition(topic, partition, at.marks[0].watermark, lo + n);
    }
    lemma_deliveries(topic, partition, lo, hi, (hi - lo) as nat);
    let end = deliveries(start, topic, partition, lo as int, (hi - lo) as nat);
    lemma_one_partition(topic, partition, end.marks[0].watermark, hi as int);
}

/// The state of one bounded read: the phase, what is left of the retry
/// budget, and the partitions with their watermarks.
pub struct Controller {
    phase: Phase,
    retries: usize,
    watermarks: Vec<PartitionMark>,
}

impl View for Controller {
    type V = Model;

    closed spec fn view(&self) -> Model {
        Model { phase: self.phase, retries: self.retries as nat, marks: self.watermarks@ }
    }
}

/// Whether `report` says that the partition of `t` has been read up to its
/// high watermark.
fn report_says_reached(report: &Topic, t: &PartitionMark) -> (r: bool)
    ensures
        r == says_reached(*report, *t),
{
    if t.partition == report.partition && t.topic == report.name {
        match report.end_offset {
            Offset::Offset(o) => o >= t.watermark.hi,
            _ => false,
        }
    } else {
        false
    }
}

/// Whether some report says that the partition of `t` has been read up to
/// its high watermark.
fn is_reached(reports: &Vec<Topic>, t: &PartitionMark) -> (r: bool)
    ensures
        r == reached(reports@, *t),
{
    let mut i: usize = 0;
    while i < reports.len()
        invariant
            i <= reports.len(),
            forall|j: int| 0 <= j < i ==> !says_reached(#[trigger] reports@[j], *t),
        decreases reports.len() - i,
    {
        if report_says_reached(&reports[i], t) {
            return true;
        }
        i = i + 1;
    }
    false
}

/// Where in `marks` the given partition stands, if it is there.
fn position(marks: &Vec<PartitionMark>, topic: &String, partition: i32) -> (r: Option<usize>)
    ensures
        match r {
            Some(i) => i < marks@.len() && is_partition(marks@[i as int], topic@, partition),
            None => !tracks(marks@, topic@, partition),
        },
{
    let mut i: usize = 0;
    while i < marks.len()
        invariant
            i <= marks.len(),
            forall|j: int| 0 <= j < i ==> !is_partition(#[trigger] marks@[j], topic@, partition),
        decreases marks.len() - i,
    {
        if marks[i].partition == partition && marks[i].topic == *topic {
            return Some(i);
        }
        i = i + 1;
    }
    None
}

impl Controller {
    /// A controller that collects watermarks and tracks nothing yet.
    pub fn new() -> (c: Self)
        ensures
            c@ == Model::fresh(),
            c@.wf(),
    {
        Controller { phase: Phase::Initializing, retries: MAX_RETRIES, watermarks: Vec::new() }
    }

    /// Where the controller stands.
    pub fn phase(&self) -> (p: Phase)
        ensures
            p == self@.phase,
    {
        self.phase
    }

    /// How many more empty polls in a row the controller will put up with.
    pub fn retries(&self) -> (n: usize)
        ensures
            n == self@.retries,
    {
        self.retries
    }

    /// The watermarks of a partition and the count of records received from
    /// it, where the partition is tracked.
    pub fn watermark(&self, topic: &String, partition: i32) -> (r: Option<Watermark>)
        ensures
            match r {
                Some(w) => marked(self@.marks, topic@, partition, w),
                None => !tracks(self@.marks, topic@, partition),
            },
    {
        match position(&self.watermarks, topic, partition) {
            Some(i) => {
                assert(is_partition(self@.marks[i as int], topic@, partition));
                Some(self.watermarks[i].watermark)
            },
            None => None,
        }
    }

    /// Takes the watermarks of a partition, with no record received yet.
    /// Says whether they were taken: they are as long as the controller is
    /// collecting watermarks.
    pub fn track(&mut self, topic: String, partition: i32, lo: i64, hi: i64) -> (taken: bool)
        requires
            old(self)@.wf(),
        ensures
            final(self)@ == old(self)@.track(
                PartitionMark { topic, partition, watermark: Watermark { lo, hi, received: 0 } },
            ),
            final(self)@.wf(),
            taken == (old(self)@.phase == Phase::Initializing),
    {
        if self.phase != Phase::Initializing {
            return false;
        }
        let ghost before = self.watermarks@;
        let found = position(&self.watermarks, &topic, partition);
        let t = PartitionMark { topic, partition, watermark: Watermark { lo, hi, received: 0 } };
        match found {
            Some(i) => {
                self.watermarks.set(i, t);
                assert(self.watermarks@ =~= Seq::new(
                    before.len(),
                    |j: int|
                        if is_partition(before[j], t.topic@, t.partition) {
                            t
                        } else {
                            before[j]
                        },
                ));
            },
            None => {
                self.watermarks.push(t);
            },
        }
        proof {
            let after = old(self)@.track(t);
            assert(self@.marks =~= after.marks);
            lemma_track_keeps_wf(old(self)@, t);
        }
        true
    }

    /// The topics of the tracked partitions, each of them once.
    pub fn topics(&self) -> (names: Vec<String>)
        ensures
            forall|i: int, j: int| 0 <= i < j < names@.len() ==> names@[i]@ != names@[j]@,
            forall|i: int| 0 <= i < names@.len() ==> has_topic(self@.marks, (#[trigger] names@[i])@),
            forall|k: int|
                0 <= k < self@.marks.len() ==> lists(names@, (#[trigger] self@.marks[k]).topic@),
    {
        let mut names: Vec<String> = Vec::new();
        let mut k: usize = 0;
        while k < self.watermarks.len()
            invariant
                k <= self.watermarks.len(),
                forall|i: int, j: int| 0 <= i < j < names@.len() ==> names@[i]@ != names@[j]@,
                forall|i: int|
                    0 <= i < names@.len() ==> has_topic(self.watermarks@, (#[trigger] names@[i])@),
                forall|m: int|
                    0 <= m < k ==> lists(names@, (#[trigger] self.watermarks@[m]).topic@),
            decreases self.watermarks.len() - k,
        {
            let ghost topic = self.watermarks@[k as int].topic@;
            let mut seen = false;
            let mut i: usize = 0;
            while i < names.len()
                invariant
                    i <= names.len(),
                    k < self.watermarks.len(),
                    topic == self.watermarks@[k as int].topic@,
                    seen == lists(names@.take(i as int), topic),
                decreases names.len() - i,
            {
                let same = names[i] == self.watermarks[k].topic;
                proof {
                    let shorter = names@.take(i as int);
                    let longer = names@.take(i + 1);
                    assert(forall|j: int| 0 <= j < i ==> shorter[j] == longer[j]);
                    assert(longer[i as int] == names@[i as int]);
                    if lists(shorter, topic) {
                        let j = choose|j: int| 0 <= j < shorter.len() && (#[trigger] shorter[j])@ == topic;
                        assert(longer[j]@ == topic);
                    }
                    if lists(longer, topic) && !same {
                        let j = choose|j: int| 0 <= j < longer.len() && (#[trigger] longer[j])@ == topic;
                        assert(shorter[j]@ == topic);
                    }
                }
                if same {
                    seen = true;
                }
                i = i + 1;
            }
            assert(names@.take(i as int) =~= names@);
            let ghost earlier = names@;
            if !seen {
                names.push(self.watermarks[k].topic.clone());
                assert(names@[earlier.len() as int]@ == topic);
            }
            proof {
                assert(forall|i: int| 0 <= i < earlier.len() ==> names@[i] == earlier[i]);
                assert(has_topic(self.watermarks@, topic));
                assert forall|m: int| 0 <= m < k + 1 implies lists(
                    names@,
                    (#[trigger] self.watermarks@[m]).topic@,
                ) by {
                    let name = self.watermarks@[m].topic@;
                    if m < k || seen {
                        assert(lists(earlier, name));
                        let j = choose|j: int| 0 <= j < earlier.len() && (#[trigger] earlier[j])@ == name;
                        assert(names@[j]@ == name);
                    }
                }
                assert forall|i: int| 0 <= i < names@.len() implies has_topic(
                    self.watermarks@,
                    (#[trigger] names@[i])@,
                ) by {
                    if i < earlier.len() {
                        assert(has_topic(self.watermarks@, earlier[i]@));
                    }
                }
                assert forall|i: int, j: int| 0 <= i < j < names@.len() implies names@[i]@
                    != names@[j]@ by {
                    if j == earlier.len() {
                        if names@[i]@ == topic {
                            assert(earlier[i]@ == topic);
                            assert(lists(earlier, topic));
                        }
                    }
                }
            }
            k = k + 1;
        }
        names
    }

    /// How many tracked partitions the source, by its own reports, has not
    /// read up to their high watermark.
    pub fn count_missing(&self, reports: &Vec<Topic>) -> (missing: usize)
        ensures
            missing == remaining(self@.marks, reports@),
    {
        let mut missing: usize = 0;
        let mut i: usize = 0;
        while i < self.watermarks.len()
            invariant
                i <= self.watermarks.len(),
                missing <= i,
                missing == remaining(self.watermarks@.take(i as int), reports@),
            decreases self.watermarks.len() - i,
        {
            assert(self.watermarks@.take(i + 1).drop_last() =~= self.watermarks@.take(i as int));
            if !is_reached(reports, &self.watermarks[i]) {
                missing = missing + 1;
            }
            i = i + 1;
        }
        assert(self.watermarks@.take(i as int) =~= self.watermarks@);
        missing
    }

    /// Decides, before a poll, whether there is to be one.
    pub fn next_action(&mut self, reports: &Vec<Topic>) -> (action: Action)
        requires
            old(self)@.wf(),
        ensures
            (final(self)@, action) == old(self)@.plan(reports@),
            final(self)@.wf(),
    {
        match self.phase {
            Phase::Done(_) => Action::Stop,
            _ => {
                if self.count_missing(reports) == 0 {
                    self.phase = Phase::Done(Completion::Clean);
                    Action::Stop
                } else {
                    self.phase = Phase::Polling;
                    Action::Poll
                }
            },
        }
    }

    /// Takes in what a poll brought and says what to make of it.
    pub fn on_poll(&mut self, polled: Polled) -> (r: Result<Outcome, Error>)
        requires
            old(self)@.wf(),
        ensures
            (final(self)@, r) == old(self)@.observe(polled),
            final(self)@.wf(),
    {
        if let Phase::Done(_) = self.phase {
            return Ok(Outcome::Finished);
        }
        match polled {
            Polled::Record { topic, partition } => {
                match position(&self.watermarks, &topic, partition) {
                    Some(i) => {
                        let ghost before = self.watermarks@;
                        let w = self.watermarks[i].watermark;
                        let received = if w.received < i64::MAX {
                            w.received + 1
                        } else {
                            w.received
                        };
                        self.retries = MAX_RETRIES;
                        self.phase = Phase::Delivering;
                        self.watermarks[i].watermark = Watermark { lo: w.lo, hi: w.hi, received };
                        assert(self.watermarks@ =~= credited(before, topic@, partition));
                        proof {
                            lemma_observe_keeps_wf(old(self)@, polled);
                        }
                        Ok(Outcome::Deliver)
                    },
                    None => {
                        self.phase = Phase::Done(Completion::Failed);
                        Err(Error::SourceDeliveryFailed)
                    },
                }
            },
            Polled::Idle => {
                if self.retries <= 1 {
                    self.phase = Phase::Done(Completion::RetryExhausted);
                    self.retries = 0;
                    Ok(Outcome::Finished)
                } else {
                    self.retries = self.retries - 1;
                    self.phase = Phase::RetryWait;
                    Ok(Outcome::Retry)
                }
            },
            Polled::Failure => {
                self.phase = Phase::Done(Completion::Failed);
                Err(Error::SourceDeliveryFailed)
            },
        }
    }
}

/// Makes a record of what a source delivered. A key that is there is
/// classified by trying to read it as UTF-8, and only a key that is not there
/// is absent; the lengths are those of the key and of the payload. A payload
/// that is not there counts as empty.
pub fn parse(
    topic: String,
    partition: i32,
    offset: i64,
    ts: i64,
    key: Option<&[u8]>,
    payload: Option<&[u8]>,
) -> (m: Msg)
    ensures
        m.topic == topic,
        m.partition == partition,
        m.offset == offset,
        m.ts == ts,
        match key {
            Some(bytes) => m.key.is_key_of(bytes@) && m.key.bytes() == bytes@,
            None => m.key is Absent,
        },
        m.key_len == m.key.bytes().len(),
        match payload {
            Some(bytes) => m.msg@ == bytes@,
            None => m.msg@.len() == 0,
        },
        m.msg_len == m.msg@.len(),
{
    let key = match key {
        Some(bytes) => ParsedKey::new(bytes),
        None => ParsedKey::Absent,
    };
    let msg = match payload {
        Some(bytes) => slice_to_vec(bytes),
        None => Vec::new(),
    };
    let key_len = key.len();
    let msg_len = msg.len();
    Msg { topic, partition: partition as i64, offset, ts, key, key_len, msg, msg_len }
}

} // verus!
