use vstd::prelude::*;

use crate::error::{outcome_view, BackupError, BackupErrorView};
use crate::model::{
    config_well_formed, job_well_formed, strings_view, Configuration, Device, DeviceView, SyncJob,
    SyncJobView,
};
use crate::paths::{
    destination_valid, is_valid_destination, path_starts_with, paths_nested, starts_with_path,
};

verus! {

/// Whether some device of the configuration has this name.
pub open spec fn has_device(c: Seq<DeviceView>, device: Seq<char>) -> bool {
    exists|i: int| 0 <= i < c.len() && (#[trigger] c[i]).name == device
}

/// Whether the device holds a sync job of this name.
pub open spec fn device_has_job(d: DeviceView, job: Seq<char>) -> bool {
    exists|k: int| 0 <= k < d.sync_jobs.len() && (#[trigger] d.sync_jobs[k]).name == job
}

/// Whether a device of this name holds a sync job of that name.
pub open spec fn has_job(c: Seq<DeviceView>, device: Seq<char>, job: Seq<char>) -> bool {
    exists|i: int| 0 <= i < c.len() && (#[trigger] c[i]).name == device && device_has_job(c[i], job)
}

/// Whether position `i` holds the first device of this name.
pub open spec fn is_first_device(c: Seq<DeviceView>, device: Seq<char>, i: int) -> bool {
    0 <= i < c.len() && c[i].name == device && forall|m: int|
        0 <= m < i ==> (#[trigger] c[m]).name != device
}

/// The position of the first device of this name.
pub open spec fn first_device(c: Seq<DeviceView>, device: Seq<char>) -> int {
    choose|i: int| is_first_device(c, device, i)
}

/// What adding a device returns.
pub open spec fn add_device_outcome(c: Seq<DeviceView>, name: Seq<char>) -> Result<
    (),
    BackupErrorView,
> {
    if has_device(c, name) {
        Err(BackupErrorView::DuplicateDevice { device: name })
    } else {
        Ok(())
    }
}

/// What adding a sync job returns: the lookup of its device first, then the
/// refusal of its destination.
pub open spec fn add_job_outcome(
    c: Seq<DeviceView>,
    device: Seq<char>,
    name: Seq<char>,
    sources: Seq<Seq<char>>,
    destination: Seq<char>,
) -> Result<(), BackupErrorView> {
    if !has_device(c, device) {
        Err(BackupErrorView::DeviceNotFound { device })
    } else if !destination_valid(destination, sources) {
        Err(BackupErrorView::InvalidDestination { device, job: name, path: destination })
    } else {
        Ok(())
    }
}

/// The configuration with the job appended to the first device of that name.
pub open spec fn with_job(c: Seq<DeviceView>, device: Seq<char>, job: SyncJobView) -> Seq<
    DeviceView,
> {
    let i = first_device(c, device);
    c.update(i, DeviceView { name: c[i].name, sync_jobs: c[i].sync_jobs.push(job) })
}

/// One change to a sync job, as the edit operations apply it.
#[derive(Clone, Debug)]
pub enum JobEdit {
    Rename(String),
    SetDestination(String),
    AddSource(String),
}

/// A `JobEdit` with its text as a character sequence.
pub enum JobEditView {
    Rename(Seq<char>),
    SetDestination(Seq<char>),
    AddSource(Seq<char>),
}

impl View for JobEdit {
    type V = JobEditView;

    open spec fn view(&self) -> JobEditView {
        match self {
            JobEdit::Rename(s) => JobEditView::Rename(s@),
            JobEdit::SetDestination(s) => JobEditView::SetDestination(s@),
            JobEdit::AddSource(s) => JobEditView::AddSource(s@),
        }
    }
}

/// The path that an edit brings into a job.
pub open spec fn edit_path(e: JobEditView) -> Seq<char> {
    match e {
        JobEditView::Rename(s) => s,
        JobEditView::SetDestination(s) => s,
        JobEditView::AddSource(s) => s,
    }
}

/// Whether the job keeps its destination apart from its sources under the edit.
pub open spec fn edit_allowed(j: SyncJobView, e: JobEditView) -> bool {
    match e {
        JobEditView::Rename(_) => true,
        JobEditView::SetDestination(d) => destination_valid(d, j.sources),
        JobEditView::AddSource(s) => !paths_nested(j.destination, s),
    }
}

/// Whether every job of this name on the device allows the edit.
pub open spec fn device_allows(d: DeviceView, job: Seq<char>, e: JobEditView) -> bool {
    forall|k: int|
        0 <= k < d.sync_jobs.len() && (#[trigger] d.sync_jobs[k]).name == job ==> edit_allowed(
            d.sync_jobs[k],
            e,
        )
}

/// Whether every job that the edit reaches allows it.
pub open spec fn matching_allowed(
    c: Seq<DeviceView>,
    device: Seq<char>,
    job: Seq<char>,
    e: JobEditView,
) -> bool {
    forall|i: int| 0 <= i < c.len() && (#[trigger] c[i]).name == device ==> device_allows(c[i], job, e)
}

/// The job after the edit.
pub open spec fn edited_job(j: SyncJobView, e: JobEditView) -> SyncJobView {
    match e {
        JobEditView::Rename(n) => SyncJobView { name: n, ..j },
        JobEditView::SetDestination(d) => SyncJobView { destination: d, ..j },
        JobEditView::AddSource(s) => SyncJobView { sources: j.sources.push(s), ..j },
    }
}

/// The device with the edit applied to every job of that name.
pub open spec fn edited_device(d: DeviceView, job: Seq<char>, e: JobEditView) -> DeviceView {
    DeviceView {
        name: d.name,
        sync_jobs: d.sync_jobs.map_values(
            |j: SyncJobView|
                if j.name == job {
                    edited_job(j, e)
                } else {
                    j
                },
        ),
    }
}

/// The configuration with the edit applied to every job of that name, on
/// every device of that name.
pub open spec fn edited_config(
    c: Seq<DeviceView>,
    device: Seq<char>,
    job: Seq<char>,
    e: JobEditView,
) -> Seq<DeviceView> {
    c.map_values(
        |d: DeviceView|
            if d.name == device {
                edited_device(d, job, e)
            } else {
                d
            },
    )
}

/// What an edit of the sync jobs named `job` on the devices named `device`
/// returns: the first lookup that fails, else the refusal of a path, else
/// success.
pub open spec fn edit_outcome(
    c: Seq<DeviceView>,
    device: Seq<char>,
    job: Seq<char>,
    e: JobEditView,
) -> Result<(), BackupErrorView> {
    if !has_device(c, device) {
        Err(BackupErrorView::DeviceNotFound { device })
    } else if !has_job(c, device, job) {
        Err(BackupErrorView::SyncJobNotFound { device, job })
    } else if !matching_allowed(c, device, job, e) {
        Err(BackupErrorView::InvalidDestination { device, job, path: edit_path(e) })
    } else {
        Ok(())
    }
}

impl SyncJob {
    fn apply_edit(&mut self, e: &JobEdit)
        ensures
            final(self)@ == edited_job(old(self)@, e@),
    {
        match e {
            JobEdit::Rename(n) => {
                self.name = n.clone();
            },
            JobEdit::SetDestination(d) => {
                self.destination = d.clone();
            },
            JobEdit::AddSource(s) => {
                let ghost before = self.sources@;
                self.sources.push(s.clone());
                assert(strings_view(self.sources@) =~= strings_view(before).push(s@));
            },
        }
    }

    /// Whether this job allows the edit.
    fn allows_edit(&self, e: &JobEdit) -> (r: bool)
        ensures
            r == edit_allowed(self@, e@),
    {
        match e {
            JobEdit::Rename(_) => true,
            JobEdit::SetDestination(d) => is_valid_destination(d, &self.sources),
            JobEdit::AddSource(s) => !(starts_with_path(&self.destination, s) || starts_with_path(
                s,
                &self.destination,
            )),
        }
    }
}

impl Device {
    /// Whether this device holds a job of that name, and whether all of
    /// them allow the edit.
    fn check_edit(&self, job: &String, e: &JobEdit) -> (r: (bool, bool))
        ensures
            r.0 == device_has_job(self@, job@),
            r.1 == device_allows(self@, job@, e@),
    {
        let mut found = false;
        let mut allowed = true;
        let n = self.sync_jobs.len();
        for k in 0..n
            invariant
                n == self.sync_jobs.len(),
                found == (exists|q: int| 0 <= q < k && (#[trigger] self@.sync_jobs[q]).name == job@),
                allowed == (forall|q: int|
                    0 <= q < k && (#[trigger] self@.sync_jobs[q]).name == job@ ==> edit_allowed(
                        self@.sync_jobs[q],
                        e@,
                    )),
        {
            let j = &self.sync_jobs[k];
            assert(self@.sync_jobs[k as int] == j@);
            if j.name == *job {
                found = true;
                if !j.allows_edit(e) {
                    allowed = false;
                }
            }
        }
        (found, allowed)
    }

    fn apply_edit(&mut self, job: &String, e: &JobEdit)
        ensures
            final(self)@ == edited_device(old(self)@, job@, e@),
    {
        let ghost start = self@;
        let n = self.sync_jobs.len();
        for k in 0..n
            invariant
                n == self.sync_jobs.len(),
                self.name@ == start.name,
                start.sync_jobs.len() == n,
                forall|m: int|
                    0 <= m < k ==> (#[trigger] self.sync_jobs@[m])@ == (if start.sync_jobs[m].name
                        == job@ {
                        edited_job(start.sync_jobs[m], e@)
                    } else {
                        start.sync_jobs[m]
                    }),
                forall|m: int| k <= m < n ==> (#[trigger] self.sync_jobs@[m])@ == start.sync_jobs[m],
        {
            if self.sync_jobs[k].name == *job {
                self.sync_jobs[k].apply_edit(e);
            }
        }
        assert(self@.sync_jobs =~= edited_device(start, job@, e@).sync_jobs);
    }
}

/// Adds a device without sync jobs at the end of the configuration.
///
/// Fails with `DuplicateDevice`, leaving the configuration as it was, when a
/// device of that name exists.
pub fn add_device(config: &mut Configuration, name: String) -> (r: Result<(), BackupError>)
    ensures
        outcome_view(r) == add_device_outcome(old(config)@, name@),
        r is Ok ==> final(config)@ == old(config)@.push(
            DeviceView { name: name@, sync_jobs: Seq::empty() },
        ),
        r is Err ==> final(config)@ == old(config)@,
        old(config).well_formed() ==> final(config).well_formed(),
{
    let ghost c = config@;
    let n = config.devices.len();
    for i in 0..n
        invariant
            n == config.devices.len(),
            c == config@,
            forall|m: int| 0 <= m < i ==> (#[trigger] c[m]).name != name@,
    {
        assert(c[i as int] == config.devices@[i as int]@);
        if config.devices[i].name == name {
            return Err(BackupError::DuplicateDevice { device: name });
        }
    }
    config.devices.push(Device::new(name));
    assert(config@ =~= c.push(DeviceView { name: name@, sync_jobs: Seq::empty() }));
    assert(config_well_formed(c) ==> config_well_formed(config@)) by {
        if config_well_formed(c) {
            assert forall|i: int, k: int| 0 <= i < k < config@.len() implies (
            #[trigger] config@[i]).name != (#[trigger] config@[k]).name by {
                if k == c.len() {
                    assert(config@[i] == c[i]);
                }
            }
            assert forall|i: int, k: int|
                0 <= i < config@.len() && 0 <= k < config@[i].sync_jobs.len() implies job_well_formed(
                #[trigger] config@[i].sync_jobs[k],
            ) by {
                assert(config@[i] == c[i]);
            }
        }
    }
    Ok(())
}

/// The position of the first device named `device`, if there is one.
pub fn find_device(config: &Configuration, device: &String) -> (r: Option<usize>)
    ensures
        r is None <==> !has_device(config@, device@),
        r matches Some(i) ==> is_first_device(config@, device@, i as int) && i == first_device(
            config@,
            device@,
        ),
{
    let n = config.devices.len();
    for i in 0..n
        invariant
            n == config.devices.len(),
            forall|m: int| 0 <= m < i ==> (#[trigger] config@[m]).name != device@,
    {
        assert(config@[i as int] == config.devices@[i as int]@);
        if config.devices[i].name == *device {
            assert(is_first_device(config@, device@, i as int));
            return Some(i);
        }
    }
    None
}

/// Whether the destinations of jobs `i` and `k` of the device lie inside
/// each other or are the same.
pub open spec fn destinations_overlap(d: DeviceView, i: int, k: int) -> bool {
    paths_nested(d.sync_jobs[i].destination, d.sync_jobs[k].destination)
}

/// The first pair of jobs of the device, in order, whose destinations lie
/// inside each other or are the same; such jobs would write the same files.
pub fn overlapping_jobs(device: &Device) -> (r: Option<(usize, usize)>)
    ensures
        r is None ==> forall|i: int, k: int|
            0 <= i < k < device@.sync_jobs.len() ==> !destinations_overlap(device@, i, k),
        r matches Some((i, k)) ==> i < k < device@.sync_jobs.len() && destinations_overlap(
            device@,
            i as int,
            k as int,
        ),
{
    let n = device.sync_jobs.len();
    for i in 0..n
        invariant
            n == device.sync_jobs.len(),
            forall|a: int, b: int| 0 <= a < i && a < b < n ==> !destinations_overlap(device@, a, b),
    {
        for k in i + 1..n
            invariant
                n == device.sync_jobs.len(),
                i < n,
                forall|a: int, b: int|
                    0 <= a < i && a < b < n ==> !destinations_overlap(device@, a, b),
                forall|b: int| i < b < k ==> !destinations_overlap(device@, i as int, b),
        {
            let a = &device.sync_jobs[i].destination;
            let b = &device.sync_jobs[k].destination;
            assert(device@.sync_jobs[i as int].destination == a@);
            assert(device@.sync_jobs[k as int].destination == b@);
            if starts_with_path(a, b) || starts_with_path(b, a) {
                return Some((i, k));
            }
        }
    }
    None
}

/// Adds a sync job that has never run to the first device named `device`.
///
/// Fails, leaving the configuration as it was, with `DeviceNotFound` when no
/// device has that name, else with `InvalidDestination` when the destination
/// equals a source, lies inside one or holds one.
pub fn add_sync_job(
    config: &mut Configuration,
    device: &String,
    name: String,
    sources: Vec<String>,
    destination: String,
) -> (r: Result<(), BackupError>)
    requires
        sources@.len() > 0,
    ensures
        outcome_view(r) == add_job_outcome(
            old(config)@,
            device@,
            name@,
            strings_view(sources@),
            destination@,
        ),
        has_device(old(config)@, device@) && (exists|i: int|
            0 <= i < sources@.len() && (#[trigger] sources@[i])@ == destination@) ==> outcome_view(r)
            == Err::<(), BackupErrorView>(
            BackupErrorView::InvalidDestination { device: device@, job: name@, path: destination@ },
        ),
        r is Ok ==> final(config)@ == with_job(
            old(config)@,
            device@,
            SyncJobView {
                name: name@,
                destination: destination@,
                sources: strings_view(sources@),
                last_run: None,
            },
        ),
        r is Err ==> final(config)@ == old(config)@,
        old(config).well_formed() ==> final(config).well_formed(),
{
    let ghost c = config@;
    let i = match find_device(config, device) {
        Some(i) => i,
        None => {
            return Err(BackupError::DeviceNotFound { device: device.clone() });
        },
    };
    if !is_valid_destination(&destination, &sources) {
        return Err(
            BackupError::InvalidDestination { device: device.clone(), job: name, path: destination },
        );
    }
    assert(first_device(c, device@) == i);
    let job = SyncJob::new(name, destination, sources);
    let ghost jv = job@;
    let ghost before = config.devices@[i as int].sync_jobs@;
    config.devices[i].sync_jobs.push(job);
    assert(config.devices@[i as int].sync_jobs@ == before.push(job));
    assert(config@ =~= with_job(c, device@, jv)) by {
        assert(config.devices@[i as int]@.sync_jobs =~= c[i as int].sync_jobs.push(jv));
    }
    assert(config_well_formed(c) ==> config_well_formed(config@)) by {
        if config_well_formed(c) {
            assert(job_well_formed(jv));
            assert forall|a: int, b: int| 0 <= a < b < config@.len() implies (
            #[trigger] config@[a]).name != (#[trigger] config@[b]).name by {
                assert(config@[a].name == c[a].name);
                assert(config@[b].name == c[b].name);
            }
            assert forall|a: int, k: int|
                0 <= a < config@.len() && 0 <= k < config@[a].sync_jobs.len() implies job_well_formed(
                #[trigger] config@[a].sync_jobs[k],
            ) by {
                if a == i && k == c[a].sync_jobs.len() {
                    assert(config@[a].sync_jobs[k] == jv);
                } else {
                    assert(config@[a].sync_jobs[k] == c[a].sync_jobs[k]);
                }
            }
        }
    }
    Ok(())
}

/// The configuration with every device named `current` renamed.
pub open spec fn renamed_devices(c: Seq<DeviceView>, current: Seq<char>, new_name: Seq<char>) -> Seq<
    DeviceView,
> {
    c.map_values(
        |d: DeviceView|
            if d.name == current {
                DeviceView { name: new_name, sync_jobs: d.sync_jobs }
            } else {
                d
            },
    )
}

/// What renaming a device returns.
pub open spec fn rename_device_outcome(
    c: Seq<DeviceView>,
    current: Seq<char>,
    new_name: Seq<char>,
) -> Result<(), BackupErrorView> {
    if !has_device(c, current) {
        Err(BackupErrorView::DeviceNotFound { device: current })
    } else if current != new_name && has_device(c, new_name) {
        Err(BackupErrorView::DuplicateDevice { device: new_name })
    } else {
        Ok(())
    }
}

/// Renames every device named `current`.
///
/// Fails, leaving the configuration as it was, with `DeviceNotFound` when no
/// device has that name, else with `DuplicateDevice` when another device
/// has the new name already.
pub fn rename_device(config: &mut Configuration, current: &String, new_name: String) -> (r: Result<
    (),
    BackupError,
>)
    ensures
        outcome_view(r) == rename_device_outcome(old(config)@, current@, new_name@),
        r is Ok ==> final(config)@ == renamed_devices(old(config)@, current@, new_name@),
        r is Err ==> final(config)@ == old(config)@,
        old(config).well_formed() ==> final(config).well_formed(),
{
    let ghost c = config@;
    let n = config.devices.len();
    let mut found = false;
    let mut taken = false;
    for i in 0..n
        invariant
            n == config.devices.len(),
            c == config@,
            found == (exists|m: int| 0 <= m < i && (#[trigger] c[m]).name == current@),
            taken == (exists|m: int| 0 <= m < i && (#[trigger] c[m]).name == new_name@),
    {
        assert(c[i as int] == config.devices@[i as int]@);
        if config.devices[i].name == *current {
            found = true;
        }
        if config.devices[i].name == new_name {
            taken = true;
        }
    }
    if !found {
        return Err(BackupError::DeviceNotFound { device: current.clone() });
    }
    if *current != new_name && taken {
        return Err(BackupError::DuplicateDevice { device: new_name });
    }
    for i in 0..n
        invariant
            n == config.devices.len(),
            c.len() == n,
            forall|m: int|
                0 <= m < i ==> (#[trigger] config.devices@[m])@ == (if c[m].name == current@ {
                    DeviceView { name: new_name@, sync_jobs: c[m].sync_jobs }
                } else {
                    c[m]
                }),
            forall|m: int| i <= m < n ==> (#[trigger] config.devices@[m])@ == c[m],
    {
        if config.devices[i].name == *current {
            config.devices[i].name = new_name.clone();
        }
    }
    assert(config@ =~= renamed_devices(c, current@, new_name@));
    assert(config_well_formed(c) ==> config_well_formed(config@)) by {
        if config_well_formed(c) {
            assert forall|a: int, b: int| 0 <= a < b < config@.len() implies (
            #[trigger] config@[a]).name != (#[trigger] config@[b]).name by {
                if c[a].name == current@ && c[b].name != current@ {
                    assert(c[b].name != new_name@ || current@ == new_name@);
                }
                if c[b].name == current@ && c[a].name != current@ {
                    assert(c[a].name != new_name@ || current@ == new_name@);
                }
            }
            assert forall|a: int, k: int|
                0 <= a < config@.len() && 0 <= k < config@[a].sync_jobs.len() implies job_well_formed(
                #[trigger] config@[a].sync_jobs[k],
            ) by {
                assert(config@[a].sync_jobs == c[a].sync_jobs);
            }
        }
    }
    Ok(())
}

/// Renames every sync job named `job` on every device named `device`.
///
/// Fails, leaving the configuration as it was, with `DeviceNotFound` when no
/// device has that name, else with `SyncJobNotFound` when none of them holds
/// such a job.
pub fn rename_sync_job(config: &mut Configuration, device: &String, job: &String, new_name: String) -> (r:
    Result<(), BackupError>)
    ensures
        outcome_view(r) == edit_outcome(
            old(config)@,
            device@,
            job@,
            JobEditView::Rename(new_name@),
        ),
        !has_device(old(config)@, device@) ==> r is Err,
        has_job(old(config)@, device@, job@) ==> r is Ok,
        r is Ok ==> final(config)@ == edited_config(
            old(config)@,
            device@,
            job@,
            JobEditView::Rename(new_name@),
        ),
        r is Err ==> final(config)@ == old(config)@,
        old(config).well_formed() ==> final(config).well_formed(),
{
    let r = edit_sync_jobs(config, device, job, JobEdit::Rename(new_name));
    proof {
        if has_job(old(config)@, device@, job@) {
            assert(has_device(old(config)@, device@));
        }
    }
    r
}

/// Points every sync job named `job` on every device named `device` at a
/// new destination.
///
/// Fails, leaving the configuration as it was, with `DeviceNotFound` when no
/// device has that name, else with `SyncJobNotFound` when none of them holds
/// such a job, else with `InvalidDestination` when the destination equals a
/// source of one of those jobs, lies inside one, or holds one.
pub fn set_destination(
    config: &mut Configuration,
    device: &String,
    job: &String,
    destination: String,
) -> (r: Result<(), BackupError>)
    ensures
        outcome_view(r) == edit_outcome(
            old(config)@,
            device@,
            job@,
            JobEditView::SetDestination(destination@),
        ),
        r is Ok ==> final(config)@ == edited_config(
            old(config)@,
            device@,
            job@,
            JobEditView::SetDestination(destination@),
        ),
        r is Err ==> final(config)@ == old(config)@,
        old(config).well_formed() ==> final(config).well_formed(),
{
    edit_sync_jobs(config, device, job, JobEdit::SetDestination(destination))
}

/// Appends a source to every sync job named `job` on every device named
/// `device`.
///
/// Fails, leaving the configuration as it was, with `DeviceNotFound` when no
/// device has that name, else with `SyncJobNotFound` when none of them holds
/// such a job, else with `InvalidDestination` when the source equals the
/// destination of one of those jobs, lies inside it, or holds it.
pub fn add_source(config: &mut Configuration, device: &String, job: &String, source: String) -> (r:
    Result<(), BackupError>)
    ensures
        outcome_view(r) == edit_outcome(
            old(config)@,
            device@,
            job@,
            JobEditView::AddSource(source@),
        ),
        r is Ok ==> final(config)@ == edited_config(
            old(config)@,
            device@,
            job@,
            JobEditView::AddSource(source@),
        ),
        r is Err ==> final(config)@ == old(config)@,
        old(config).well_formed() ==> final(config).well_formed(),
{
    edit_sync_jobs(config, device, job, JobEdit::AddSource(source))
}

proof fn lemma_edited_job_well_formed(j: SyncJobView, e: JobEditView)
    requires
        job_well_formed(j),
        edit_allowed(j, e),
    ensures
        job_well_formed(edited_job(j, e)),
{
    match e {
        JobEditView::AddSource(s) => {
            let srcs = j.sources.push(s);
            assert forall|i: int| 0 <= i < srcs.len() implies !paths_nested(
                j.destination,
                #[trigger] srcs[i],
            ) by {
                if i < j.sources.len() {
                    assert(srcs[i] == j.sources[i]);
                }
            }
        },
        _ => {},
    }
}

/// An allowed edit keeps a well formed configuration well formed.
proof fn lemma_edit_keeps_well_formed(
    c: Seq<DeviceView>,
    device: Seq<char>,
    job: Seq<char>,
    e: JobEditView,
)
    requires
        config_well_formed(c),
        matching_allowed(c, device, job, e),
    ensures
        config_well_formed(edited_config(c, device, job, e)),
{
    let c2 = edited_config(c, device, job, e);
    assert forall|i: int, k: int| 0 <= i < k < c2.len() implies (#[trigger] c2[i]).name != (
    #[trigger] c2[k]).name by {
        assert(c2[i].name == c[i].name);
        assert(c2[k].name == c[k].name);
    }
    assert forall|i: int, k: int|
        0 <= i < c2.len() && 0 <= k < c2[i].sync_jobs.len() implies job_well_formed(
        #[trigger] c2[i].sync_jobs[k],
    ) by {
        let j = c[i].sync_jobs[k];
        assert(job_well_formed(j));
        if c[i].name == device && j.name == job {
            assert(device_allows(c[i], job, e));
            lemma_edited_job_well_formed(j, e);
        }
    }
}

/// Applies `e` to every sync job named `job` on every device named `device`.
///
/// Fails, leaving the configuration as it was, with `DeviceNotFound` when no
/// device has that name, else with `SyncJobNotFound` when none of them holds
/// such a job, else with `InvalidDestination` when the edit would bring a
/// destination and a source of one of those jobs inside each other.
pub fn edit_sync_jobs(config: &mut Configuration, device: &String, job: &String, e: JobEdit) -> (r:
    Result<(), BackupError>)
    ensures
        outcome_view(r) == edit_outcome(old(config)@, device@, job@, e@),
        r is Ok ==> final(config)@ == edited_config(old(config)@, device@, job@, e@),
        r is Err ==> final(config)@ == old(config)@,
        old(config).well_formed() ==> final(config).well_formed(),
{
    let ghost c = config@;
    let n = config.devices.len();
    let mut found_device = false;
    let mut found_job = false;
    let mut allowed = true;
    for i in 0..n
        invariant
            n == config.devices.len(),
            c == config@,
            found_device == (exists|m: int| 0 <= m < i && (#[trigger] c[m]).name == device@),
            found_job == (exists|m: int|
                0 <= m < i && (#[trigger] c[m]).name == device@ && device_has_job(c[m], job@)),
            allowed == (forall|m: int|
                0 <= m < i && (#[trigger] c[m]).name == device@ ==> device_allows(c[m], job@, e@)),
    {
        let d = &config.devices[i];
        assert(c[i as int] == d@);
        if d.name == *device {
            found_device = true;
            let (has, ok) = d.check_edit(job, &e);
            if has {
                found_job = true;
            }
            if !ok {
                allowed = false;
            }
        }
    }
    if !found_device {
        return Err(BackupError::DeviceNotFound { device: device.clone() });
    }
    if !found_job {
        return Err(BackupError::SyncJobNotFound { device: device.clone(), job: job.clone() });
    }
    if !allowed {
        let path = match e {
            JobEdit::Rename(s) => s,
            JobEdit::SetDestination(s) => s,
            JobEdit::AddSource(s) => s,
        };
        return Err(
            BackupError::InvalidDestination { device: device.clone(), job: job.clone(), path },
        );
    }
    for i in 0..n
        invariant
            n == config.devices.len(),
            c.len() == n,
            forall|m: int|
                0 <= m < i ==> (#[trigger] config.devices@[m])@ == (if c[m].name == device@ {
                    edited_device(c[m], job@, e@)
                } else {
                    c[m]
                }),
            forall|m: int| i <= m < n ==> (#[trigger] config.devices@[m])@ == c[m],
    {
        if config.devices[i].name == *device {
            config.devices[i].apply_edit(job, &e);
        }
    }
    assert(config@ =~= edited_config(c, device@, job@, e@));
    proof {
        if config_well_formed(c) {
            lemma_edit_keeps_well_formed(c, device@, job@, e@);
        }
    }
    Ok(())
}

/// A sync job for an existing device whose destination is one of its
/// sources or lies inside one is refused as an invalid destination; the
/// configuration is then left as it was (see `add_sync_job`). Without such a
/// device the lookup fails first, with `DeviceNotFound`.
pub proof fn lemma_nested_destination_refused(
    c: Seq<DeviceView>,
    device: Seq<char>,
    name: Seq<char>,
    sources: Seq<Seq<char>>,
    destination: Seq<char>,
    i: int,
)
    requires
        has_device(c, device),
        0 <= i < sources.len(),
        path_starts_with(destination, sources[i]),
    ensures
        add_job_outcome(c, device, name, sources, destination) == Err::<(), BackupErrorView>(
            BackupErrorView::InvalidDestination { device, job: name, path: destination },
        ),
{
    assert(paths_nested(destination, sources[i]));
}

} // verus!
