//! The configuration and registry documents as sequences of records.
//!
//! A configuration is written device by device: a device line, then for
//! each of its jobs a job line, a destination line, one line per source and,
//! once the job has run, a last-run line. A registry is written entry by
//! entry: a backup line with the name, then a location line with the path.
use vstd::prelude::*;

use crate::error::{BackupError, BackupErrorView};
use crate::model::{strings_view, Configuration, Device, DeviceView, SyncJob, SyncJobView};
use crate::registry::{Registry, RegistryEntry};
use crate::text::{
    lemma_records_round_trip, parse_records, read_records, records_text, records_view,
    write_records, Record, RecordView,
};

verus! {

/// The records of one sync job.
pub open spec fn job_records(j: SyncJobView) -> Seq<RecordView> {
    seq![RecordView::Job(j.name), RecordView::Destination(j.destination)] + j.sources.map_values(
        |s: Seq<char>| RecordView::Source(s),
    ) + match j.last_run {
        Some(t) => seq![RecordView::LastRun(t)],
        None => Seq::empty(),
    }
}

/// The records of a device's jobs, in order.
pub open spec fn jobs_records(js: Seq<SyncJobView>) -> Seq<RecordView>
    decreases js.len(),
{
    if js.len() == 0 {
        Seq::empty()
    } else {
        jobs_records(js.drop_last()) + job_records(js.last())
    }
}

/// The records of a configuration.
pub open spec fn config_records(c: Seq<DeviceView>) -> Seq<RecordView>
    decreases c.len(),
{
    if c.len() == 0 {
        Seq::empty()
    } else {
        config_records(c.drop_last()) + seq![RecordView::Device(c.last().name)] + jobs_records(
            c.last().sync_jobs,
        )
    }
}

/// Where reading a configuration stands: what the next record may be.
#[derive(PartialEq, Eq, Structural, Clone, Copy)]
pub enum Phase {
    /// Nothing read yet: a device must come first.
    Start,
    /// A device line was read.
    InDevice,
    /// A job line was read: its destination must follow.
    AfterJob,
    /// A destination or source line was read.
    AfterDestination,
    /// A last-run line was read.
    AfterLastRun,
}

/// The configuration with the last job of the last device replaced.
pub open spec fn with_last_job(c: Seq<DeviceView>, j: SyncJobView) -> Seq<DeviceView> {
    let d = c.last();
    c.update(
        c.len() - 1,
        DeviceView { name: d.name, sync_jobs: d.sync_jobs.update(d.sync_jobs.len() - 1, j) },
    )
}

/// Whether the last device has a job.
pub open spec fn has_last_job(c: Seq<DeviceView>) -> bool {
    c.len() > 0 && c.last().sync_jobs.len() > 0
}

/// Reading one record of a configuration.
pub open spec fn step(c: Seq<DeviceView>, ph: Phase, r: RecordView) -> Option<
    (Seq<DeviceView>, Phase),
> {
    match r {
        RecordView::Device(n) => if ph != Phase::AfterJob {
            Some((c.push(DeviceView { name: n, sync_jobs: Seq::empty() }), Phase::InDevice))
        } else {
            None
        },
        RecordView::Job(n) => if ph != Phase::Start && ph != Phase::AfterJob && c.len() > 0 {
            let d = c.last();
            let j = SyncJobView {
                name: n,
                destination: Seq::empty(),
                sources: Seq::empty(),
                last_run: None,
            };
            Some(
                (
                    c.update(
                        c.len() - 1,
                        DeviceView { name: d.name, sync_jobs: d.sync_jobs.push(j) },
                    ),
                    Phase::AfterJob,
                ),
            )
        } else {
            None
        },
        RecordView::Destination(p) => if ph == Phase::AfterJob && has_last_job(c) {
            let j = c.last().sync_jobs.last();
            Some((with_last_job(c, SyncJobView { destination: p, ..j }), Phase::AfterDestination))
        } else {
            None
        },
        RecordView::Source(p) => if ph == Phase::AfterDestination && has_last_job(c) {
            let j = c.last().sync_jobs.last();
            Some(
                (
                    with_last_job(c, SyncJobView { sources: j.sources.push(p), ..j }),
                    Phase::AfterDestination,
                ),
            )
        } else {
            None
        },
        RecordView::LastRun(t) => if ph == Phase::AfterDestination && has_last_job(c) {
            let j = c.last().sync_jobs.last();
            Some((with_last_job(c, SyncJobView { last_run: Some(t), ..j }), Phase::AfterLastRun))
        } else {
            None
        },
        _ => None,
    }
}

/// Reading records one after the other.
pub open spec fn run(c: Seq<DeviceView>, ph: Phase, rs: Seq<RecordView>) -> Option<
    (Seq<DeviceView>, Phase),
>
    decreases rs.len(),
{
    if rs.len() == 0 {
        Some((c, ph))
    } else {
        match step(c, ph, rs[0]) {
            None => None,
            Some((c2, ph2)) => run(c2, ph2, rs.drop_first()),
        }
    }
}

/// The configuration that a sequence of records describes, if any: every
/// record in its place, and no job left without a destination.
pub open spec fn config_of_records(rs: Seq<RecordView>) -> Option<Seq<DeviceView>> {
    match run(Seq::empty(), Phase::Start, rs) {
        Some((c, ph)) => if ph != Phase::AfterJob {
            Some(c)
        } else {
            None
        },
        None => None,
    }
}

/// The text of a configuration.
pub open spec fn config_text(c: Seq<DeviceView>) -> Seq<char> {
    records_text(config_records(c))
}

/// The configuration that a text describes, if it is well formed.
pub open spec fn parse_config(t: Seq<char>) -> Option<Seq<DeviceView>> {
    match parse_records(t) {
        Some(rs) => config_of_records(rs),
        None => None,
    }
}

proof fn lemma_run_append(c: Seq<DeviceView>, ph: Phase, a: Seq<RecordView>, b: Seq<RecordView>)
    ensures
        run(c, ph, a + b) == match run(c, ph, a) {
            Some((c2, ph2)) => run(c2, ph2, b),
            None => None,
        },
    decreases a.len(),
{
    if a.len() == 0 {
        assert(a + b =~= b);
    } else {
        assert((a + b)[0] == a[0]);
        assert((a + b).drop_first() =~= a.drop_first() + b);
        match step(c, ph, a[0]) {
            Some((c2, ph2)) => {
                lemma_run_append(c2, ph2, a.drop_first(), b);
            },
            None => {},
        }
    }
}

proof fn lemma_run_one(c: Seq<DeviceView>, ph: Phase, r: RecordView)
    ensures
        run(c, ph, seq![r]) == step(c, ph, r),
{
    assert(seq![r].drop_first() =~= Seq::<RecordView>::empty());
    match step(c, ph, r) {
        Some((c2, ph2)) => {
            assert(run(c2, ph2, Seq::empty()) == Some((c2, ph2)));
        },
        None => {},
    }
}

proof fn lemma_last_job_same(c: Seq<DeviceView>)
    requires
        has_last_job(c),
    ensures
        with_last_job(c, c.last().sync_jobs.last()) == c,
{
    let d = c.last();
    assert(d.sync_jobs.update(d.sync_jobs.len() - 1, d.sync_jobs.last()) =~= d.sync_jobs);
    assert(c.update(c.len() - 1, DeviceView { name: d.name, sync_jobs: d.sync_jobs }) =~= c);
}

proof fn lemma_last_job_twice(c: Seq<DeviceView>, a: SyncJobView, b: SyncJobView)
    requires
        has_last_job(c),
    ensures
        has_last_job(with_last_job(c, a)),
        with_last_job(c, a).last().sync_jobs.last() == a,
        with_last_job(with_last_job(c, a), b) == with_last_job(c, b),
{
    let d = c.last();
    let k = d.sync_jobs.len() - 1;
    assert(d.sync_jobs.update(k, a).update(k, b) =~= d.sync_jobs.update(k, b));
    assert(with_last_job(with_last_job(c, a), b) =~= with_last_job(c, b));
}

proof fn lemma_appended_then_last(c: Seq<DeviceView>, a: SyncJobView, b: SyncJobView)
    requires
        c.len() > 0,
    ensures
        has_last_job(with_job_appended(c, a)),
        with_job_appended(c, a).last().sync_jobs.last() == a,
        with_last_job(with_job_appended(c, a), b) == with_job_appended(c, b),
{
    let d = c.last();
    assert(d.sync_jobs.push(a).update(d.sync_jobs.len() as int, b) =~= d.sync_jobs.push(b));
    assert(with_last_job(with_job_appended(c, a), b) =~= with_job_appended(c, b));
}

/// Reading the source lines of a job appends them to its sources.
proof fn lemma_run_sources(c: Seq<DeviceView>, ss: Seq<Seq<char>>)
    requires
        has_last_job(c),
    ensures
        run(c, Phase::AfterDestination, ss.map_values(|s: Seq<char>| RecordView::Source(s)))
            == Some(
            (
                with_last_job(
                    c,
                    SyncJobView {
                        sources: c.last().sync_jobs.last().sources + ss,
                        ..c.last().sync_jobs.last()
                    },
                ),
                Phase::AfterDestination,
            ),
        ),
    decreases ss.len(),
{
    let j = c.last().sync_jobs.last();
    if ss.len() == 0 {
        assert(j.sources + ss =~= j.sources);
        assert(SyncJobView { sources: j.sources + ss, ..j } == j);
        lemma_last_job_same(c);
        assert(ss.map_values(|s: Seq<char>| RecordView::Source(s)) =~= Seq::<RecordView>::empty());
    } else {
        let rs = ss.map_values(|s: Seq<char>| RecordView::Source(s));
        let front = ss.drop_last();
        assert(rs =~= front.map_values(|s: Seq<char>| RecordView::Source(s)) + seq![
            RecordView::Source(ss.last()),
        ]);
        lemma_run_sources(c, front);
        lemma_run_append(
            c,
            Phase::AfterDestination,
            front.map_values(|s: Seq<char>| RecordView::Source(s)),
            seq![RecordView::Source(ss.last())],
        );
        let c2 = with_last_job(c, SyncJobView { sources: j.sources + front, ..j });
        lemma_run_one(c2, Phase::AfterDestination, RecordView::Source(ss.last()));
        lemma_last_job_twice(
            c,
            SyncJobView { sources: j.sources + front, ..j },
            SyncJobView { sources: j.sources + ss, ..j },
        );
        assert((j.sources + front).push(ss.last()) =~= j.sources + ss);
    }
}

/// Whether a job may start after this phase.
pub open spec fn job_may_follow(ph: Phase) -> bool {
    ph == Phase::InDevice || ph == Phase::AfterDestination || ph == Phase::AfterLastRun
}

/// The configuration with a job appended to the last device.
pub open spec fn with_job_appended(c: Seq<DeviceView>, j: SyncJobView) -> Seq<DeviceView> {
    c.update(c.len() - 1, DeviceView { name: c.last().name, sync_jobs: c.last().sync_jobs.push(j) })
}

proof fn lemma_run_job(c: Seq<DeviceView>, ph: Phase, j: SyncJobView)
    requires
        c.len() > 0,
        job_may_follow(ph),
    ensures
        run(c, ph, job_records(j)) matches Some((c2, ph2)) && c2 == with_job_appended(c, j)
            && job_may_follow(ph2),
{
    let empty_job = SyncJobView {
        name: j.name,
        destination: Seq::empty(),
        sources: Seq::empty(),
        last_run: None,
    };
    let head = seq![RecordView::Job(j.name), RecordView::Destination(j.destination)];
    let srcs = j.sources.map_values(|s: Seq<char>| RecordView::Source(s));
    let tail: Seq<RecordView> = match j.last_run {
        Some(t) => seq![RecordView::LastRun(t)],
        None => Seq::empty(),
    };
    let c1 = with_job_appended(c, empty_job);
    let with_dest = SyncJobView { destination: j.destination, ..empty_job };
    let c2 = with_last_job(c1, with_dest);
    lemma_appended_then_last(c, empty_job, with_dest);
    assert(head.drop_first() =~= seq![RecordView::Destination(j.destination)]);
    lemma_run_one(c1, Phase::AfterJob, RecordView::Destination(j.destination));
    assert(run(c, ph, head) == Some((c2, Phase::AfterDestination)));
    lemma_run_append(c, ph, head, srcs);
    lemma_run_sources(c2, j.sources);
    assert(Seq::<Seq<char>>::empty() + j.sources =~= j.sources);
    let no_run = SyncJobView { last_run: None, ..j };
    let c3 = with_last_job(c2, no_run);
    lemma_appended_then_last(c, with_dest, no_run);
    lemma_appended_then_last(c, empty_job, no_run);
    assert(c3 == with_job_appended(c, no_run));
    lemma_run_append(c, ph, head + srcs, tail);
    assert(job_records(j) =~= head + srcs + tail);
    match j.last_run {
        Some(t) => {
            lemma_run_one(c3, Phase::AfterDestination, RecordView::LastRun(t));
            lemma_appended_then_last(c, no_run, j);
            assert(SyncJobView { last_run: Some(t), ..no_run } == j);
        },
        None => {
            assert(no_run == j);
            assert(run(c3, Phase::AfterDestination, tail) == Some((c3, Phase::AfterDestination)));
        },
    }
}

proof fn lemma_run_jobs(c: Seq<DeviceView>, name: Seq<char>, js: Seq<SyncJobView>)
    ensures
        run(
            c.push(DeviceView { name, sync_jobs: Seq::empty() }),
            Phase::InDevice,
            jobs_records(js),
        ) matches Some((c2, ph2)) && c2 == c.push(DeviceView { name, sync_jobs: js })
            && job_may_follow(ph2),
    decreases js.len(),
{
    let start = c.push(DeviceView { name, sync_jobs: Seq::empty() });
    if js.len() == 0 {
        assert(js =~= Seq::<SyncJobView>::empty());
    } else {
        lemma_run_jobs(c, name, js.drop_last());
        lemma_run_append(start, Phase::InDevice, jobs_records(js.drop_last()), job_records(js.last()));
        let (c1, ph1) = run(start, Phase::InDevice, jobs_records(js.drop_last()))->0;
        lemma_run_job(c1, ph1, js.last());
        assert(js.drop_last().push(js.last()) =~= js);
        assert(with_job_appended(c1, js.last()) =~= c.push(DeviceView { name, sync_jobs: js }));
    }
}

proof fn lemma_run_config(c: Seq<DeviceView>)
    ensures
        run(Seq::empty(), Phase::Start, config_records(c)) matches Some((c2, ph2)) && c2 == c && (
        ph2 == Phase::Start || job_may_follow(ph2)),
    decreases c.len(),
{
    if c.len() == 0 {
        assert(c =~= Seq::<DeviceView>::empty());
    } else {
        let front = c.drop_last();
        let d = c.last();
        lemma_run_config(front);
        let a = config_records(front);
        let b = seq![RecordView::Device(d.name)];
        let js = jobs_records(d.sync_jobs);
        lemma_run_append(Seq::empty(), Phase::Start, a + b, js);
        lemma_run_append(Seq::empty(), Phase::Start, a, b);
        let (c1, ph1) = run(Seq::empty(), Phase::Start, a)->0;
        lemma_run_one(c1, ph1, RecordView::Device(d.name));
        lemma_run_jobs(front, d.name, d.sync_jobs);
        assert(front.push(DeviceView { name: d.name, sync_jobs: d.sync_jobs }) =~= c);
    }
}

/// Reading the text of a configuration gives that configuration back.
pub proof fn lemma_config_round_trip(c: Seq<DeviceView>)
    ensures
        parse_config(config_text(c)) == Some(c),
{
    lemma_records_round_trip(config_records(c));
    lemma_run_config(c);
}

/// What reading records from this state leads to, as the outcome of a whole
/// document.
pub open spec fn finish(o: Option<(Seq<DeviceView>, Phase)>) -> Option<Seq<DeviceView>> {
    match o {
        Some((c, ph)) => if ph != Phase::AfterJob {
            Some(c)
        } else {
            None
        },
        None => None,
    }
}

impl Device {
    fn set_last_destination(&mut self, p: String)
        requires
            old(self).sync_jobs@.len() > 0,
        ensures
            final(self)@ == (DeviceView {
                name: old(self)@.name,
                sync_jobs: old(self)@.sync_jobs.update(
                    old(self)@.sync_jobs.len() - 1,
                    SyncJobView { destination: p@, ..old(self)@.sync_jobs.last() },
                ),
            }),
    {
        let k = self.sync_jobs.len() - 1;
        self.sync_jobs[k].destination = p;
        assert(final(self)@.sync_jobs =~= old(self)@.sync_jobs.update(
            k as int,
            SyncJobView { destination: p@, ..old(self)@.sync_jobs.last() },
        ));
    }

    fn push_last_source(&mut self, p: String)
        requires
            old(self).sync_jobs@.len() > 0,
        ensures
            final(self)@ == (DeviceView {
                name: old(self)@.name,
                sync_jobs: old(self)@.sync_jobs.update(
                    old(self)@.sync_jobs.len() - 1,
                    SyncJobView {
                        sources: old(self)@.sync_jobs.last().sources.push(p@),
                        ..old(self)@.sync_jobs.last()
                    },
                ),
            }),
    {
        let k = self.sync_jobs.len() - 1;
        let ghost before = self.sync_jobs@[k as int].sources@;
        self.sync_jobs[k].sources.push(p);
        assert(strings_view(self.sync_jobs@[k as int].sources@) =~= strings_view(before).push(p@));
        assert(final(self)@.sync_jobs =~= old(self)@.sync_jobs.update(
            k as int,
            SyncJobView {
                sources: old(self)@.sync_jobs.last().sources.push(p@),
                ..old(self)@.sync_jobs.last()
            },
        ));
    }

    fn set_last_run(&mut self, t: u64)
        requires
            old(self).sync_jobs@.len() > 0,
        ensures
            final(self)@ == (DeviceView {
                name: old(self)@.name,
                sync_jobs: old(self)@.sync_jobs.update(
                    old(self)@.sync_jobs.len() - 1,
                    SyncJobView { last_run: Some(t), ..old(self)@.sync_jobs.last() },
                ),
            }),
    {
        let k = self.sync_jobs.len() - 1;
        self.sync_jobs[k].last_run = Some(t);
        assert(final(self)@.sync_jobs =~= old(self)@.sync_jobs.update(
            k as int,
            SyncJobView { last_run: Some(t), ..old(self)@.sync_jobs.last() },
        ));
    }

    fn push_job(&mut self, j: SyncJob)
        ensures
            final(self)@ == (DeviceView {
                name: old(self)@.name,
                sync_jobs: old(self)@.sync_jobs.push(j@),
            }),
    {
        self.sync_jobs.push(j);
        assert(final(self)@.sync_jobs =~= old(self)@.sync_jobs.push(j@));
    }
}

/// The configuration that a sequence of records describes, if any.
fn config_from_records(rs: &Vec<Record>) -> (r: Option<Configuration>)
    ensures
        r is None <==> config_of_records(records_view(rs@)) is None,
        r matches Some(c) ==> config_of_records(records_view(rs@)) == Some(c@),
{
    let ghost rv = records_view(rs@);
    let mut config = Configuration::new();
    let mut ph = Phase::Start;
    let n = rs.len();
    assert(rv.skip(0) =~= rv);
    for i in 0..n
        invariant
            n == rs@.len(),
            rv == records_view(rs@),
            config_of_records(rv) == finish(run(config@, ph, rv.skip(i as int))),
            ph != Phase::Start && ph != Phase::InDevice ==> has_last_job(config@),
            ph != Phase::Start ==> config@.len() > 0,
    {
        let ghost c0 = config@;
        let ghost u = rv.skip(i as int);
        assert(u[0] == rs@[i as int]@);
        assert(u.drop_first() =~= rv.skip(i + 1));
        match &rs[i] {
            Record::Device(name) => {
                if ph == Phase::AfterJob {
                    return None;
                }
                config.devices.push(Device::new(name.clone()));
                assert(config@ =~= c0.push(DeviceView { name: name@, sync_jobs: Seq::empty() }));
                ph = Phase::InDevice;
            },
            Record::Job(name) => {
                if ph == Phase::Start || ph == Phase::AfterJob {
                    return None;
                }
                let last = config.devices.len() - 1;
                config.devices[last].push_job(SyncJob::new(name.clone(), String::new(), Vec::new()));
                proof {
                    let j = SyncJobView {
                        name: name@,
                        destination: Seq::empty(),
                        sources: Seq::empty(),
                        last_run: None,
                    };
                    assert(strings_view(Seq::<String>::empty()) =~= Seq::<Seq<char>>::empty());
                    assert(config@ =~= c0.update(
                        c0.len() - 1,
                        DeviceView { name: c0.last().name, sync_jobs: c0.last().sync_jobs.push(j) },
                    ));
                }
                ph = Phase::AfterJob;
            },
            Record::Destination(p) => {
                if ph != Phase::AfterJob {
                    return None;
                }
                let last = config.devices.len() - 1;
                config.devices[last].set_last_destination(p.clone());
                assert(config@ =~= with_last_job(
                    c0,
                    SyncJobView { destination: p@, ..c0.last().sync_jobs.last() },
                ));
                ph = Phase::AfterDestination;
            },
            Record::Source(p) => {
                if ph != Phase::AfterDestination {
                    return None;
                }
                let last = config.devices.len() - 1;
                config.devices[last].push_last_source(p.clone());
                assert(config@ =~= with_last_job(
                    c0,
                    SyncJobView {
                        sources: c0.last().sync_jobs.last().sources.push(p@),
                        ..c0.last().sync_jobs.last()
                    },
                ));
            },
            Record::LastRun(t) => {
                if ph != Phase::AfterDestination {
                    return None;
                }
                let last = config.devices.len() - 1;
                config.devices[last].set_last_run(*t);
                assert(config@ =~= with_last_job(
                    c0,
                    SyncJobView { last_run: Some(*t), ..c0.last().sync_jobs.last() },
                ));
                ph = Phase::AfterLastRun;
            },
            Record::Backup(_) => {
                return None;
            },
            Record::Location(_) => {
                return None;
            },
        }
    }
    assert(rv.skip(n as int) =~= Seq::<RecordView>::empty());
    if ph == Phase::AfterJob {
        return None;
    }
    Some(config)
}

/// The records of a configuration.
fn config_to_records(config: &Configuration) -> (r: Vec<Record>)
    ensures
        records_view(r@) == config_records(config@),
{
    let mut out: Vec<Record> = Vec::new();
    let ghost c = config@;
    let n = config.devices.len();
    assert(c.take(0) =~= Seq::<DeviceView>::empty());
    assert(records_view(out@) =~= Seq::<RecordView>::empty());
    for i in 0..n
        invariant
            n == config.devices@.len(),
            c == config@,
            records_view(out@) == config_records(c.take(i as int)),
    {
        let d = &config.devices[i];
        assert(c.take(i + 1).drop_last() =~= c.take(i as int));
        assert(c.take(i + 1).last() == d@);
        let ghost base = records_view(out@) + seq![RecordView::Device(d.name@)];
        out.push(Record::Device(d.name.clone()));
        assert(records_view(out@) =~= base);
        let jn = d.sync_jobs.len();
        let ghost js = d@.sync_jobs;
        assert(js.take(0) =~= Seq::<SyncJobView>::empty());
        assert(base + jobs_records(js.take(0)) =~= base);
        for k in 0..jn
            invariant
                jn == d.sync_jobs@.len(),
                js == d@.sync_jobs,
                records_view(out@) == base + jobs_records(js.take(k as int)),
        {
            let j = &d.sync_jobs[k];
            assert(js.take(k + 1).drop_last() =~= js.take(k as int));
            assert(js.take(k + 1).last() == j@);
            let ghost before = records_view(out@);
            out.push(Record::Job(j.name.clone()));
            out.push(Record::Destination(j.destination.clone()));
            let sn = j.sources.len();
            let ghost sv = j@.sources;
            let ghost mid = before + seq![
                RecordView::Job(j.name@),
                RecordView::Destination(j.destination@),
            ];
            assert(records_view(out@) =~= mid);
            assert(sv.take(0).map_values(|s: Seq<char>| RecordView::Source(s))
                =~= Seq::<RecordView>::empty());
            assert(mid + Seq::<RecordView>::empty() =~= mid);
            for m in 0..sn
                invariant
                    sn == j.sources@.len(),
                    sv == j@.sources,
                    records_view(out@) == mid + sv.take(m as int).map_values(
                        |s: Seq<char>| RecordView::Source(s),
                    ),
            {
                let ghost prev = records_view(out@);
                out.push(Record::Source(j.sources[m].clone()));
                assert(sv[m as int] == j.sources@[m as int]@);
                assert(sv.take(m + 1).map_values(|s: Seq<char>| RecordView::Source(s))
                    =~= sv.take(m as int).map_values(|s: Seq<char>| RecordView::Source(s)).push(
                    RecordView::Source(sv[m as int]),
                ));
                assert(records_view(out@) =~= prev.push(RecordView::Source(sv[m as int])));
            }
            assert(sv.take(sn as int) =~= sv);
            let ghost after_sources = records_view(out@);
            match j.last_run {
                Some(t) => {
                    out.push(Record::LastRun(t));
                    assert(records_view(out@) =~= after_sources.push(RecordView::LastRun(t)));
                },
                None => {},
            }
            assert(records_view(out@) =~= before + job_records(j@));
            assert(base + jobs_records(js.take(k + 1)) =~= base + jobs_records(js.take(k as int))
                + job_records(j@));
        }
        assert(js.take(jn as int) =~= js);
        assert(config_records(c.take(i + 1)) =~= config_records(c.take(i as int)) + seq![
            RecordView::Device(d.name@),
        ] + jobs_records(js));
    }
    assert(c.take(n as int) =~= c);
    out
}

/// The text of a configuration document.
pub fn config_to_text(config: &Configuration) -> (r: String)
    ensures
        r@ == config_text(config@),
{
    let rs = config_to_records(config);
    write_records(&rs)
}

/// Reads a configuration document.
///
/// Fails with `ConfigNotReadable` exactly when the text is not a well
/// formed configuration. An empty text holds no devices.
pub fn config_from_text(text: &str) -> (r: Result<Configuration, BackupError>)
    ensures
        parse_config(text@) matches Some(c) ==> (r matches Ok(x) && x@ == c),
        parse_config(text@) is None ==> (r matches Err(e) && e@
            == BackupErrorView::ConfigNotReadable),
{
    match read_records(text) {
        None => Err(BackupError::ConfigNotReadable),
        Some(rs) => match config_from_records(&rs) {
            Some(c) => Ok(c),
            None => Err(BackupError::ConfigNotReadable),
        },
    }
}

/// The records of a registry.
pub open spec fn registry_records(r: Seq<(Seq<char>, Seq<char>)>) -> Seq<RecordView>
    decreases r.len(),
{
    if r.len() == 0 {
        Seq::empty()
    } else {
        seq![RecordView::Backup(r[0].0), RecordView::Location(r[0].1)] + registry_records(
            r.drop_first(),
        )
    }
}

/// The registry that a sequence of records describes, if any: a backup
/// record and a location record for each entry.
pub open spec fn registry_of_records(rs: Seq<RecordView>) -> Option<Seq<(Seq<char>, Seq<char>)>>
    decreases rs.len(),
{
    if rs.len() == 0 {
        Some(Seq::empty())
    } else if rs.len() >= 2 && rs[0] is Backup && rs[1] is Location {
        match registry_of_records(rs.skip(2)) {
            Some(r) => Some(seq![(rs[0]->Backup_0, rs[1]->Location_0)] + r),
            None => None,
        }
    } else {
        None
    }
}

/// The text of a registry.
pub open spec fn registry_text(r: Seq<(Seq<char>, Seq<char>)>) -> Seq<char> {
    records_text(registry_records(r))
}

/// The registry that a text describes, if it is well formed.
pub open spec fn parse_registry(t: Seq<char>) -> Option<Seq<(Seq<char>, Seq<char>)>> {
    match parse_records(t) {
        Some(rs) => registry_of_records(rs),
        None => None,
    }
}

proof fn lemma_registry_records_push(r: Seq<(Seq<char>, Seq<char>)>, e: (Seq<char>, Seq<char>))
    ensures
        registry_records(r.push(e)) == registry_records(r) + seq![
            RecordView::Backup(e.0),
            RecordView::Location(e.1),
        ],
    decreases r.len(),
{
    if r.len() == 0 {
        assert(r.push(e).drop_first() =~= Seq::<(Seq<char>, Seq<char>)>::empty());
        assert(registry_records(r.push(e).drop_first()) =~= Seq::<RecordView>::empty());
        assert(r.push(e)[0] == e);
        assert(registry_records(r.push(e)) =~= seq![
            RecordView::Backup(e.0),
            RecordView::Location(e.1),
        ]);
        assert(registry_records(r) =~= Seq::<RecordView>::empty());
    } else {
        assert(r.push(e).drop_first() =~= r.drop_first().push(e));
        lemma_registry_records_push(r.drop_first(), e);
        assert(registry_records(r.push(e)) =~= registry_records(r) + seq![
            RecordView::Backup(e.0),
            RecordView::Location(e.1),
        ]);
    }
}

proof fn lemma_registry_records_round_trip(r: Seq<(Seq<char>, Seq<char>)>)
    ensures
        registry_of_records(registry_records(r)) == Some(r),
    decreases r.len(),
{
    if r.len() == 0 {
        assert(r =~= Seq::<(Seq<char>, Seq<char>)>::empty());
    } else {
        let rs = registry_records(r);
        assert(rs.skip(2) =~= registry_records(r.drop_first()));
        lemma_registry_records_round_trip(r.drop_first());
        assert(seq![r[0]] + r.drop_first() =~= r);
    }
}

/// Reading the text of a registry gives that registry back.
pub proof fn lemma_registry_round_trip(r: Seq<(Seq<char>, Seq<char>)>)
    ensures
        parse_registry(registry_text(r)) == Some(r),
{
    lemma_records_round_trip(registry_records(r));
    lemma_registry_records_round_trip(r);
}

/// The text of the registry document.
pub fn registry_to_text(registry: &Registry) -> (r: String)
    ensures
        r@ == registry_text(registry@),
{
    let mut out: Vec<Record> = Vec::new();
    let ghost g = registry@;
    let n = registry.entries.len();
    assert(g.take(0) =~= Seq::<(Seq<char>, Seq<char>)>::empty());
    assert(records_view(out@) =~= registry_records(g.take(0)));
    for i in 0..n
        invariant
            n == registry.entries@.len(),
            g == registry@,
            records_view(out@) == registry_records(g.take(i as int)),
    {
        let e = &registry.entries[i];
        assert(g.take(i + 1) =~= g.take(i as int).push(e@));
        proof {
            lemma_registry_records_push(g.take(i as int), e@);
        }
        let ghost before = records_view(out@);
        out.push(Record::Backup(e.name.clone()));
        out.push(Record::Location(e.path.clone()));
        assert(records_view(out@) =~= before + seq![
            RecordView::Backup(e.name@),
            RecordView::Location(e.path@),
        ]);
    }
    assert(g.take(n as int) =~= g);
    write_records(&out)
}

/// Reads the registry document.
///
/// Fails with `RegistryNotReadable` exactly when the text is not a well
/// formed registry. An empty text holds no entries.
pub fn registry_from_text(text: &str) -> (r: Result<Registry, BackupError>)
    ensures
        parse_registry(text@) matches Some(g) ==> (r matches Ok(x) && x@ == g),
        parse_registry(text@) is None ==> (r matches Err(e) && e@
            == BackupErrorView::RegistryNotReadable),
{
    let rs = match read_records(text) {
        Some(rs) => rs,
        None => {
            return Err(BackupError::RegistryNotReadable);
        },
    };
    let ghost rv = records_view(rs@);
    let mut registry = Registry::new();
    let n = rs.len();
    let mut i: usize = 0;
    assert(rv.skip(0) =~= rv);
    while i < n
        invariant
            i <= n == rs@.len(),
            rv == records_view(rs@),
            parse_registry(text@) == match registry_of_records(rv.skip(i as int)) {
                Some(g) => Some(registry@ + g),
                None => None,
            },
        decreases n - i,
    {
        let ghost u = rv.skip(i as int);
        if i + 1 >= n {
            return Err(BackupError::RegistryNotReadable);
        }
        assert(u[0] == rs@[i as int]@);
        assert(u[1] == rs@[i + 1]@);
        let name = match &rs[i] {
            Record::Backup(s) => s.clone(),
            _ => {
                return Err(BackupError::RegistryNotReadable);
            },
        };
        let path = match &rs[i + 1] {
            Record::Location(s) => s.clone(),
            _ => {
                return Err(BackupError::RegistryNotReadable);
            },
        };
        let ghost before = registry@;
        registry.entries.push(RegistryEntry { name, path });
        assert(registry@ =~= before.push((name@, path@)));
        assert(u.skip(2) =~= rv.skip(i + 2));
        assert(forall|g: Seq<(Seq<char>, Seq<char>)>|
            before + (seq![(name@, path@)] + g) =~= registry@ + g);
        i += 2;
    }
    assert(rv.skip(n as int) =~= Seq::<RecordView>::empty());
    assert(registry@ + Seq::<(Seq<char>, Seq<char>)>::empty() =~= registry@);
    Ok(registry)
}

} // verus!
