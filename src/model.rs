use vstd::prelude::*;

use crate::paths::destination_valid;

verus! {

/// What a sync job is, as a mathematical value.
pub struct SyncJobView {
    pub name: Seq<char>,
    pub destination: Seq<char>,
    pub sources: Seq<Seq<char>>,
    pub last_run: Option<u64>,
}

/// What a device is, as a mathematical value.
pub struct DeviceView {
    pub name: Seq<char>,
    pub sync_jobs: Seq<SyncJobView>,
}

/// One mapping of source trees onto a destination tree, with its run history.
#[derive(Clone, Debug)]
pub struct SyncJob {
    pub name: String,
    pub destination: String,
    pub sources: Vec<String>,
    /// Start time of the last run that completed without a failure.
    pub last_run: Option<u64>,
}

/// A backup target grouping its sync jobs.
#[derive(Clone, Debug)]
pub struct Device {
    pub name: String,
    pub sync_jobs: Vec<SyncJob>,
}

/// The configuration document of one backup definition.
#[derive(Clone, Debug)]
pub struct Configuration {
    pub devices: Vec<Device>,
}

/// A list of strings, as character sequences.
pub open spec fn strings_view(v: Seq<String>) -> Seq<Seq<char>> {
    v.map_values(|s: String| s@)
}

impl View for SyncJob {
    type V = SyncJobView;

    open spec fn view(&self) -> SyncJobView {
        SyncJobView {
            name: self.name@,
            destination: self.destination@,
            sources: strings_view(self.sources@),
            last_run: self.last_run,
        }
    }
}

/// A list of sync jobs, as values.
pub open spec fn jobs_view(v: Seq<SyncJob>) -> Seq<SyncJobView> {
    v.map_values(|j: SyncJob| j@)
}

impl View for Device {
    type V = DeviceView;

    open spec fn view(&self) -> DeviceView {
        DeviceView { name: self.name@, sync_jobs: jobs_view(self.sync_jobs@) }
    }
}

/// A list of devices, as values.
pub open spec fn devices_view(v: Seq<Device>) -> Seq<DeviceView> {
    v.map_values(|d: Device| d@)
}

impl View for Configuration {
    type V = Seq<DeviceView>;

    open spec fn view(&self) -> Seq<DeviceView> {
        devices_view(self.devices@)
    }
}

/// A job that has something to copy and a destination apart from its sources.
pub open spec fn job_well_formed(j: SyncJobView) -> bool {
    j.sources.len() > 0 && destination_valid(j.destination, j.sources)
}

/// Device names are unique and every job is well formed. Job names are not
/// held unique: the edits reach every job of a name.
pub open spec fn config_well_formed(c: Seq<DeviceView>) -> bool {
    &&& forall|i: int, k: int| 0 <= i < k < c.len() ==> (#[trigger] c[i]).name != (#[trigger] c[k]).name
    &&& forall|i: int, k: int|
        0 <= i < c.len() && 0 <= k < c[i].sync_jobs.len() ==> job_well_formed(
            #[trigger] c[i].sync_jobs[k],
        )
}

impl SyncJob {
    /// A job that has never run.
    pub fn new(name: String, destination: String, sources: Vec<String>) -> (r: SyncJob)
        ensures
            r@ == (SyncJobView {
                name: name@,
                destination: destination@,
                sources: strings_view(sources@),
                last_run: None,
            }),
    {
        SyncJob { name, destination, sources, last_run: None }
    }
}

impl Device {
    /// A device without sync jobs.
    pub fn new(name: String) -> (r: Device)
        ensures
            r@ == (DeviceView { name: name@, sync_jobs: Seq::empty() }),
    {
        let r = Device { name, sync_jobs: Vec::new() };
        assert(r@.sync_jobs =~= Seq::empty());
        r
    }
}

impl Configuration {
    /// See `config_well_formed`.
    pub open spec fn well_formed(&self) -> bool {
        config_well_formed(self@)
    }

    /// The document of a path that does not exist yet: no devices.
    pub fn new() -> (r: Configuration)
        ensures
            r@ == Seq::<DeviceView>::empty(),
            r.well_formed(),
    {
        let r = Configuration { devices: Vec::new() };
        assert(r@ =~= Seq::<DeviceView>::empty());
        r
    }
}

} // verus!
