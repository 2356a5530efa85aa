use smartsync::{
    add_device, add_source, add_sync_job, find_device, is_valid_destination, overlapping_jobs,
    rename_device, rename_sync_job, set_destination, BackupError, Configuration, Device,
    EditBackupCommand,
    SyncJob,
};

fn s(x: &str) -> String {
    x.to_string()
}

fn laptop_with_docs() -> Configuration {
    let mut cfg = Configuration::new();
    add_device(&mut cfg, s("laptop")).unwrap();
    add_sync_job(&mut cfg, &s("laptop"), s("docs"), vec![s("/home/u/docs")], s("/backup/docs"))
        .unwrap();
    cfg
}

#[test]
fn new_configuration_is_empty() {
    let cfg = Configuration::new();
    assert!(cfg.devices.is_empty());
}

#[test]
fn add_device_appends() {
    let mut cfg = Configuration::new();
    assert!(add_device(&mut cfg, s("laptop")).is_ok());
    assert!(add_device(&mut cfg, s("desktop")).is_ok());
    assert_eq!(cfg.devices.len(), 2);
    assert_eq!(cfg.devices[0].name, "laptop");
    assert_eq!(cfg.devices[1].name, "desktop");
    assert!(cfg.devices[1].sync_jobs.is_empty());
}

#[test]
fn add_device_rejects_duplicate() {
    let mut cfg = Configuration::new();
    add_device(&mut cfg, s("laptop")).unwrap();
    let r = add_device(&mut cfg, s("laptop"));
    assert!(matches!(r, Err(BackupError::DuplicateDevice { ref device }) if device == "laptop"));
    assert_eq!(cfg.devices.len(), 1);
}

#[test]
fn device_names_are_case_sensitive() {
    let mut cfg = Configuration::new();
    add_device(&mut cfg, s("laptop")).unwrap();
    assert!(add_device(&mut cfg, s("Laptop")).is_ok());
    assert_eq!(cfg.devices.len(), 2);
}

#[test]
fn add_sync_job_to_device() {
    let cfg = laptop_with_docs();
    let job = &cfg.devices[0].sync_jobs[0];
    assert_eq!(job.name, "docs");
    assert_eq!(job.destination, "/backup/docs");
    assert_eq!(job.sources, vec![s("/home/u/docs")]);
    assert_eq!(job.last_run, None);
}

#[test]
fn add_sync_job_unknown_device() {
    let mut cfg = Configuration::new();
    add_device(&mut cfg, s("laptop")).unwrap();
    let r = add_sync_job(&mut cfg, &s("phone"), s("docs"), vec![s("/a")], s("/b"));
    assert!(matches!(r, Err(BackupError::DeviceNotFound { ref device }) if device == "phone"));
    assert!(cfg.devices[0].sync_jobs.is_empty());
}

#[test]
fn add_sync_job_goes_to_first_device_of_the_name() {
    let mut cfg = Configuration::new();
    add_device(&mut cfg, s("laptop")).unwrap();
    cfg.devices.push(Device::new(s("laptop")));
    add_sync_job(&mut cfg, &s("laptop"), s("docs"), vec![s("/a")], s("/b")).unwrap();
    assert_eq!(cfg.devices[0].sync_jobs.len(), 1);
    assert!(cfg.devices[1].sync_jobs.is_empty());
}

#[test]
fn destination_equal_to_source_is_refused() {
    let mut cfg = Configuration::new();
    add_device(&mut cfg, s("laptop")).unwrap();
    let r = add_sync_job(&mut cfg, &s("laptop"), s("docs"), vec![s("/data")], s("/data"));
    assert!(matches!(
        r,
        Err(BackupError::InvalidDestination { ref device, ref job, ref path })
            if device == "laptop" && job == "docs" && path == "/data"
    ));
    assert!(cfg.devices[0].sync_jobs.is_empty());
}

#[test]
fn destination_inside_source_is_refused() {
    let mut cfg = Configuration::new();
    add_device(&mut cfg, s("laptop")).unwrap();
    let r = add_sync_job(
        &mut cfg,
        &s("laptop"),
        s("docs"),
        vec![s("/home/u/docs")],
        s("/home/u/docs/backup"),
    );
    assert!(matches!(r, Err(BackupError::InvalidDestination { .. })));
    assert!(cfg.devices[0].sync_jobs.is_empty());
}

#[test]
fn destination_holding_source_is_refused() {
    let mut cfg = Configuration::new();
    add_device(&mut cfg, s("laptop")).unwrap();
    let r = add_sync_job(&mut cfg, &s("laptop"), s("docs"), vec![s("/home/u/docs")], s("/home"));
    assert!(matches!(r, Err(BackupError::InvalidDestination { .. })));
}

#[test]
fn destination_check_is_by_whole_components() {
    assert!(is_valid_destination(&s("/home/u/docs2"), &vec![s("/home/u/docs")]));
    assert!(!is_valid_destination(&s("/home/u/docs/"), &vec![s("/home/u/docs")]));
    assert!(is_valid_destination(&s("/backup/docs"), &vec![s("/home/u/docs"), s("/srv")]));
    assert!(!is_valid_destination(&s("/srv/x"), &vec![s("/home/u/docs"), s("/srv")]));
}

#[test]
fn device_checked_before_destination() {
    let mut cfg = Configuration::new();
    let r = add_sync_job(&mut cfg, &s("nobody"), s("docs"), vec![s("/a")], s("/a/b"));
    assert!(matches!(r, Err(BackupError::DeviceNotFound { ref device }) if device == "nobody"));
}

#[test]
fn find_device_returns_first() {
    let mut cfg = Configuration::new();
    add_device(&mut cfg, s("a")).unwrap();
    add_device(&mut cfg, s("b")).unwrap();
    assert_eq!(find_device(&cfg, &s("b")), Some(1));
    assert_eq!(find_device(&cfg, &s("c")), None);
}

#[test]
fn rename_sync_job_renames() {
    let mut cfg = laptop_with_docs();
    assert!(rename_sync_job(&mut cfg, &s("laptop"), &s("docs"), s("papers")).is_ok());
    assert_eq!(cfg.devices[0].sync_jobs[0].name, "papers");
}

#[test]
fn rename_sync_job_errors() {
    let mut cfg = laptop_with_docs();
    let r = rename_sync_job(&mut cfg, &s("phone"), &s("docs"), s("x"));
    assert!(matches!(r, Err(BackupError::DeviceNotFound { .. })));
    let r = rename_sync_job(&mut cfg, &s("laptop"), &s("music"), s("x"));
    assert!(
        matches!(r, Err(BackupError::SyncJobNotFound { ref device, ref job }) if device == "laptop" && job == "music")
    );
    assert_eq!(cfg.devices[0].sync_jobs[0].name, "docs");
}

#[test]
fn edits_apply_to_every_match() {
    let mut cfg = laptop_with_docs();
    cfg.devices[0].sync_jobs.push(SyncJob::new(s("docs"), s("/b2"), vec![s("/s2")]));
    let mut second = Device::new(s("laptop"));
    second.sync_jobs.push(SyncJob::new(s("docs"), s("/b3"), vec![s("/s3")]));
    cfg.devices.push(second);
    set_destination(&mut cfg, &s("laptop"), &s("docs"), s("/mnt/backup")).unwrap();
    assert_eq!(cfg.devices[0].sync_jobs[0].destination, "/mnt/backup");
    assert_eq!(cfg.devices[0].sync_jobs[1].destination, "/mnt/backup");
    assert_eq!(cfg.devices[1].sync_jobs[0].destination, "/mnt/backup");
}

#[test]
fn set_destination_refuses_nested_path() {
    let mut cfg = laptop_with_docs();
    let r = set_destination(&mut cfg, &s("laptop"), &s("docs"), s("/home/u/docs/inner"));
    assert!(matches!(r, Err(BackupError::InvalidDestination { ref path, .. }) if path == "/home/u/docs/inner"));
    assert_eq!(cfg.devices[0].sync_jobs[0].destination, "/backup/docs");
}

#[test]
fn add_source_appends() {
    let mut cfg = laptop_with_docs();
    add_source(&mut cfg, &s("laptop"), &s("docs"), s("/home/u/notes")).unwrap();
    assert_eq!(cfg.devices[0].sync_jobs[0].sources, vec![s("/home/u/docs"), s("/home/u/notes")]);
}

#[test]
fn add_source_refuses_destination() {
    let mut cfg = laptop_with_docs();
    let r = add_source(&mut cfg, &s("laptop"), &s("docs"), s("/backup"));
    assert!(matches!(r, Err(BackupError::InvalidDestination { ref path, .. }) if path == "/backup"));
    assert_eq!(cfg.devices[0].sync_jobs[0].sources.len(), 1);
}

#[test]
fn edit_command_dispatches() {
    let mut cfg = laptop_with_docs();
    let cmd = EditBackupCommand::SetDest {
        path: s("/etc/backup.cfg"),
        device: s("laptop"),
        name: s("docs"),
        dest: s("/mnt/usb"),
    };
    assert_eq!(cmd.path(), "/etc/backup.cfg");
    cmd.apply(&mut cfg).unwrap();
    assert_eq!(cfg.devices[0].sync_jobs[0].destination, "/mnt/usb");
    let cmd = EditBackupCommand::RenameBackup {
        path: s("/etc/backup.cfg"),
        device: s("laptop"),
        name: s("nope"),
        new_name: s("x"),
    };
    assert!(matches!(cmd.apply(&mut cfg), Err(BackupError::SyncJobNotFound { .. })));
}

#[test]
fn overlapping_destinations_are_found() {
    let mut d = Device::new(s("laptop"));
    d.sync_jobs.push(SyncJob::new(s("a"), s("/backup/a"), vec![s("/x")]));
    d.sync_jobs.push(SyncJob::new(s("b"), s("/backup/b"), vec![s("/y")]));
    assert_eq!(overlapping_jobs(&d), None);
    d.sync_jobs.push(SyncJob::new(s("c"), s("/backup"), vec![s("/z")]));
    assert_eq!(overlapping_jobs(&d), Some((0, 2)));
}

#[test]
fn rename_device_renames_every_match() {
    let mut cfg = laptop_with_docs();
    cfg.devices.push(Device::new(s("laptop")));
    add_device(&mut cfg, s("desktop")).unwrap();
    rename_device(&mut cfg, &s("laptop"), s("notebook")).unwrap();
    assert_eq!(cfg.devices[0].name, "notebook");
    assert_eq!(cfg.devices[1].name, "notebook");
    assert_eq!(cfg.devices[2].name, "desktop");
    assert_eq!(cfg.devices[0].sync_jobs[0].name, "docs");
}

#[test]
fn rename_device_errors() {
    let mut cfg = laptop_with_docs();
    add_device(&mut cfg, s("desktop")).unwrap();
    let r = rename_device(&mut cfg, &s("phone"), s("x"));
    assert!(matches!(r, Err(BackupError::DeviceNotFound { ref device }) if device == "phone"));
    let r = rename_device(&mut cfg, &s("laptop"), s("desktop"));
    assert!(matches!(r, Err(BackupError::DuplicateDevice { ref device }) if device == "desktop"));
    assert_eq!(cfg.devices[0].name, "laptop");
    assert!(rename_device(&mut cfg, &s("laptop"), s("laptop")).is_ok());
}
