use smartsync::{
    add_device, add_sync_job, config_from_text, config_to_text, read_records, registry_from_text,
    registry_to_text, register_backup, write_records, BackupError, Configuration, Record, Registry,
};

fn s(x: &str) -> String {
    x.to_string()
}

fn sample() -> Configuration {
    let mut cfg = Configuration::new();
    add_device(&mut cfg, s("laptop")).unwrap();
    add_sync_job(
        &mut cfg,
        &s("laptop"),
        s("docs"),
        vec![s("/home/u/docs"), s("/home/u/more docs")],
        s("/backup/docs"),
    )
    .unwrap();
    add_sync_job(&mut cfg, &s("laptop"), s("odd\\name\nhere"), vec![s("/x")], s("/y")).unwrap();
    cfg.devices[0].sync_jobs[0].last_run = Some(1_700_000_000);
    add_device(&mut cfg, s("usb disk")).unwrap();
    cfg
}

#[test]
fn config_text_layout() {
    let mut cfg = Configuration::new();
    add_device(&mut cfg, s("laptop")).unwrap();
    add_sync_job(&mut cfg, &s("laptop"), s("docs"), vec![s("/a")], s("/b")).unwrap();
    cfg.devices[0].sync_jobs[0].last_run = Some(42);
    assert_eq!(config_to_text(&cfg), "D laptop\nJ docs\nT /b\nS /a\nL 42\n");
}

#[test]
fn escapes_are_written() {
    let mut cfg = Configuration::new();
    add_device(&mut cfg, s("a\\b\nc")).unwrap();
    assert_eq!(config_to_text(&cfg), "D a\\\\b\\nc\n");
}

#[test]
fn config_round_trip() {
    let cfg = sample();
    let text = config_to_text(&cfg);
    let back = config_from_text(&text).unwrap();
    assert_eq!(config_to_text(&back), text);
    assert_eq!(back.devices.len(), 2);
    assert_eq!(back.devices[0].sync_jobs[1].name, "odd\\name\nhere");
    assert_eq!(back.devices[0].sync_jobs[0].last_run, Some(1_700_000_000));
    assert_eq!(back.devices[0].sync_jobs[1].last_run, None);
    assert_eq!(back.devices[0].sync_jobs[0].sources[1], "/home/u/more docs");
    assert_eq!(back.devices[1].name, "usb disk");
}

#[test]
fn empty_text_is_empty_configuration() {
    let cfg = config_from_text("").unwrap();
    assert!(cfg.devices.is_empty());
    assert_eq!(config_to_text(&cfg), "");
}

#[test]
fn last_line_may_lack_line_break() {
    let cfg = config_from_text("D laptop\nJ docs\nT /b\nS /a").unwrap();
    assert_eq!(cfg.devices[0].sync_jobs[0].sources, vec![s("/a")]);
}

#[test]
fn largest_timestamp_round_trips() {
    let cfg = config_from_text("D d\nJ j\nT /b\nL 18446744073709551615\n").unwrap();
    assert_eq!(cfg.devices[0].sync_jobs[0].last_run, Some(u64::MAX));
}

#[test]
fn malformed_configurations_are_refused() {
    let bad = [
        "J docs\n",
        "D d\nJ j\n",
        "D d\nJ j\nS /a\n",
        "D d\nJ j\nT /b\nL 12x\n",
        "D d\nJ j\nT /b\nL 18446744073709551616\n",
        "D d\nJ j\nT /b\nL \n",
        "D d\nJ j\nT /b\nL 1\nS /a\n",
        "X d\n",
        "D\n",
        "D d\n\n",
        "Dd\n",
        "D a\\tb\n",
        "B name\nP /path\n",
    ];
    for text in bad.iter() {
        assert!(matches!(config_from_text(text), Err(BackupError::ConfigNotReadable)), "{}", text);
    }
}

#[test]
fn registry_round_trip() {
    let mut reg = Registry::new();
    reg.register(s("home"), s("/etc/home.cfg")).unwrap();
    reg.register(s("work"), s("/etc/work.cfg")).unwrap();
    let text = registry_to_text(&reg);
    assert_eq!(text, "B home\nP /etc/home.cfg\nB work\nP /etc/work.cfg\n");
    let back = registry_from_text(&text).unwrap();
    assert_eq!(back.list(), vec![(s("home"), s("/etc/home.cfg")), (s("work"), s("/etc/work.cfg"))]);
}

#[test]
fn malformed_registry_is_refused() {
    for text in ["B home\n", "P /x\nB home\n", "D laptop\n", "B home\nB x\n"].iter() {
        assert!(matches!(registry_from_text(text), Err(BackupError::RegistryNotReadable)));
    }
    assert!(registry_from_text("").unwrap().list().is_empty());
}

#[test]
fn records_round_trip() {
    let rs = vec![Record::Device(s("d")), Record::LastRun(0), Record::Source(s("\\n"))];
    let text = write_records(&rs);
    assert_eq!(text, "D d\nL 0\nS \\\\n\n");
    let back = read_records(&text).unwrap();
    assert_eq!(back.len(), 3);
    assert!(matches!(&back[1], Record::LastRun(0)));
    assert!(matches!(&back[2], Record::Source(x) if x == "\\n"));
}

#[test]
fn register_rejects_duplicate_name() {
    let mut reg = Registry::new();
    reg.register(s("home"), s("/a")).unwrap();
    assert!(reg.register(s("other"), s("/a")).is_ok());
    let r = reg.register(s("home"), s("/b"));
    assert!(matches!(r, Err(BackupError::DuplicateBackupName { ref name }) if name == "home"));
    assert_eq!(reg.list().len(), 2);
    assert_eq!(reg.path_of(&s("home")), Some(s("/a")));
    assert_eq!(reg.path_of(&s("none")), None);
}

#[test]
fn register_backup_adds_device_of_that_name() {
    let mut reg = Registry::new();
    let mut cfg = Configuration::new();
    register_backup(&mut reg, &mut cfg, s("home"), s("/etc/home.cfg")).unwrap();
    assert_eq!(reg.list(), vec![(s("home"), s("/etc/home.cfg"))]);
    assert_eq!(cfg.devices.len(), 1);
    assert_eq!(cfg.devices[0].name, "home");
    let mut other = Configuration::new();
    add_device(&mut other, s("work")).unwrap();
    register_backup(&mut reg, &mut other, s("work"), s("/etc/w.cfg")).unwrap();
    assert_eq!(other.devices.len(), 1);
    let r = register_backup(&mut reg, &mut cfg, s("home"), s("/x"));
    assert!(matches!(r, Err(BackupError::DuplicateBackupName { .. })));
    assert_eq!(cfg.devices.len(), 1);
    assert_eq!(reg.list().len(), 2);
}
