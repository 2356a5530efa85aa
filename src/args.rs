//! The commands of the command line, as plain values.
use vstd::prelude::*;

use crate::error::{outcome_view, BackupError};
use crate::model::Configuration;
use crate::ops::{add_source, edit_outcome, edited_config, rename_sync_job, set_destination, JobEditView};

verus! {

/// A parsed command line.
#[derive(Clone, Debug)]
pub struct Args {
    pub command: Command,
}

#[derive(Clone, Debug)]
pub enum Command {
    /// Manage configuration.
    Config { command: ConfigCommand },
    /// Run the backup of a device.
    Backup { path: String, device: String, dry_run: bool },
}

#[derive(Clone, Debug)]
pub enum ConfigCommand {
    /// Manage one backup configuration.
    Backups { command: BackupsCommand },
    /// Manage the registry.
    Registry { command: RegistryCommand },
}

#[derive(Clone, Debug)]
pub enum BackupsCommand {
    ListDevices { path: String },
    Init { path: String },
    AddDevice { path: String, device: String },
    AddBackup { path: String, device: String, name: String, dest: String, sources: Vec<String> },
    EditBackup { command: EditBackupCommand },
}

/// An edit of the sync jobs of one name on the devices of one name, in the
/// configuration at `path`.
#[derive(Clone, Debug)]
pub enum EditBackupCommand {
    RenameBackup { path: String, device: String, name: String, new_name: String },
    SetDest { path: String, device: String, name: String, dest: String },
    AddSource { path: String, device: String, name: String, source: String },
}

#[derive(Clone, Debug)]
pub enum RegistryCommand {
    Init,
    ListBackups,
    AddBackup { name: String, path: String },
}

/// The edit that a command applies to the jobs it names.
pub open spec fn command_edit(c: EditBackupCommand) -> JobEditView {
    match c {
        EditBackupCommand::RenameBackup { new_name, .. } => JobEditView::Rename(new_name@),
        EditBackupCommand::SetDest { dest, .. } => JobEditView::SetDestination(dest@),
        EditBackupCommand::AddSource { source, .. } => JobEditView::AddSource(source@),
    }
}

impl EditBackupCommand {
    pub open spec fn device(self) -> String {
        match self {
            EditBackupCommand::RenameBackup { device, .. } => device,
            EditBackupCommand::SetDest { device, .. } => device,
            EditBackupCommand::AddSource { device, .. } => device,
        }
    }

    pub open spec fn job(self) -> String {
        match self {
            EditBackupCommand::RenameBackup { name, .. } => name,
            EditBackupCommand::SetDest { name, .. } => name,
            EditBackupCommand::AddSource { name, .. } => name,
        }
    }

    /// The path of the configuration document that the command edits.
    pub fn path(&self) -> (r: &String)
        ensures
            r@ == match self {
                EditBackupCommand::RenameBackup { path, .. } => path@,
                EditBackupCommand::SetDest { path, .. } => path@,
                EditBackupCommand::AddSource { path, .. } => path@,
            },
    {
        match self {
            EditBackupCommand::RenameBackup { path, .. } => path,
            EditBackupCommand::SetDest { path, .. } => path,
            EditBackupCommand::AddSource { path, .. } => path,
        }
    }

    /// Applies the command to a loaded configuration: a rename, a new
    /// destination or a new source for every job it names.
    pub fn apply(self, config: &mut Configuration) -> (r: Result<(), BackupError>)
        ensures
            outcome_view(r) == edit_outcome(
                old(config)@,
                self.device()@,
                self.job()@,
                command_edit(self),
            ),
            r is Ok ==> final(config)@ == edited_config(
                old(config)@,
                self.device()@,
                self.job()@,
                command_edit(self),
            ),
            r is Err ==> final(config)@ == old(config)@,
            old(config).well_formed() ==> final(config).well_formed(),
    {
        match self {
            EditBackupCommand::RenameBackup { device, name, new_name, .. } => rename_sync_job(
                config,
                &device,
                &name,
                new_name,
            ),
            EditBackupCommand::SetDest { device, name, dest, .. } => set_destination(
                config,
                &device,
                &name,
                dest,
            ),
            EditBackupCommand::AddSource { device, name, source, .. } => add_source(
                config,
                &device,
                &name,
                source,
            ),
        }
    }
}

} // verus!
