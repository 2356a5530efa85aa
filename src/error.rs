use vstd::prelude::*;

verus! {

/// Everything that can go wrong in an edit, a lookup, a load or a run.
#[derive(Clone, Debug)]
pub enum BackupError {
    /// A configuration document is malformed.
    ConfigNotReadable,
    /// The registry document is malformed.
    RegistryNotReadable,
    /// No device has this name.
    DeviceNotFound { device: String },
    /// The device exists but holds no sync job of this name.
    SyncJobNotFound { device: String, job: String },
    /// A device of this name exists already.
    DuplicateDevice { device: String },
    /// A backup of this name is registered already.
    DuplicateBackupName { name: String },
    /// This path was refused for the job on the device: with it the job's
    /// destination would equal a source, lie inside one, or hold one.
    InvalidDestination { device: String, job: String, path: String },
    /// A configured source path of the job does not exist at run time.
    SourceMissing { device: String, job: String, path: String },
    /// One file of the job could not be copied; the job went on.
    CopyFailed { device: String, job: String, path: String },
    /// The job finished with at least one file that failed to copy.
    RunFailed { device: String, job: String },
}

/// A `BackupError` with its texts as character sequences.
pub enum BackupErrorView {
    ConfigNotReadable,
    RegistryNotReadable,
    DeviceNotFound { device: Seq<char> },
    SyncJobNotFound { device: Seq<char>, job: Seq<char> },
    DuplicateDevice { device: Seq<char> },
    DuplicateBackupName { name: Seq<char> },
    InvalidDestination { device: Seq<char>, job: Seq<char>, path: Seq<char> },
    SourceMissing { device: Seq<char>, job: Seq<char>, path: Seq<char> },
    CopyFailed { device: Seq<char>, job: Seq<char>, path: Seq<char> },
    RunFailed { device: Seq<char>, job: Seq<char> },
}

impl View for BackupError {
    type V = BackupErrorView;

    open spec fn view(&self) -> BackupErrorView {
        match self {
            BackupError::ConfigNotReadable => BackupErrorView::ConfigNotReadable,
            BackupError::RegistryNotReadable => BackupErrorView::RegistryNotReadable,
            BackupError::DeviceNotFound { device } => BackupErrorView::DeviceNotFound {
                device: device@,
            },
            BackupError::SyncJobNotFound { device, job } => BackupErrorView::SyncJobNotFound {
                device: device@,
                job: job@,
            },
            BackupError::DuplicateDevice { device } => BackupErrorView::DuplicateDevice {
                device: device@,
            },
            BackupError::DuplicateBackupName { name } => BackupErrorView::DuplicateBackupName {
                name: name@,
            },
            BackupError::InvalidDestination { device, job, path } =>
                BackupErrorView::InvalidDestination { device: device@, job: job@, path: path@ },
            BackupError::SourceMissing { device, job, path } => BackupErrorView::SourceMissing {
                device: device@,
                job: job@,
                path: path@,
            },
            BackupError::CopyFailed { device, job, path } => BackupErrorView::CopyFailed {
                device: device@,
                job: job@,
                path: path@,
            },
            BackupError::RunFailed { device, job } => BackupErrorView::RunFailed {
                device: device@,
                job: job@,
            },
        }
    }
}

/// The view of a result that carries nothing on success.
pub open spec fn outcome_view(r: Result<(), BackupError>) -> Result<(), BackupErrorView> {
    match r {
        Ok(()) => Ok(()),
        Err(e) => Err(e@),
    }
}

} // verus!
