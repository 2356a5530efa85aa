use vstd::prelude::*;

use crate::error::{outcome_view, BackupError, BackupErrorView};
use crate::model::{Configuration, DeviceView};
use crate::ops::{add_device, has_device};

verus! {

/// One registered backup: its name and the path of its configuration document.
#[derive(Clone, Debug)]
pub struct RegistryEntry {
    pub name: String,
    pub path: String,
}

/// The global index from backup names to configuration paths, in the order
/// of registration.
#[derive(Clone, Debug)]
pub struct Registry {
    pub entries: Vec<RegistryEntry>,
}

impl View for RegistryEntry {
    type V = (Seq<char>, Seq<char>);

    open spec fn view(&self) -> (Seq<char>, Seq<char>) {
        (self.name@, self.path@)
    }
}

impl View for Registry {
    type V = Seq<(Seq<char>, Seq<char>)>;

    open spec fn view(&self) -> Seq<(Seq<char>, Seq<char>)> {
        self.entries@.map_values(|e: RegistryEntry| e@)
    }
}

/// Whether some entry has this name.
pub open spec fn has_name(r: Seq<(Seq<char>, Seq<char>)>, name: Seq<char>) -> bool {
    exists|i: int| 0 <= i < r.len() && (#[trigger] r[i]).0 == name
}

/// No two entries share a name.
pub open spec fn names_unique(r: Seq<(Seq<char>, Seq<char>)>) -> bool {
    forall|i: int, j: int| 0 <= i < r.len() && 0 <= j < r.len() && i != j ==> (#[trigger] r[i]).0
        != (#[trigger] r[j]).0
}

impl Registry {
    /// The registry before anything was registered.
    pub fn new() -> (r: Registry)
        ensures
            r@ == Seq::<(Seq<char>, Seq<char>)>::empty(),
    {
        let r = Registry { entries: Vec::new() };
        assert(r@ =~= Seq::<(Seq<char>, Seq<char>)>::empty());
        r
    }

    /// No two entries share a name.
    pub open spec fn well_formed(&self) -> bool {
        names_unique(self@)
    }

    /// Registers a backup under a new name. The same path may stand under
    /// several names.
    ///
    /// Fails with `DuplicateBackupName`, leaving the registry as it was, when
    /// the name is taken.
    pub fn register(&mut self, name: String, path: String) -> (r: Result<(), BackupError>)
        ensures
            outcome_view(r) == (if has_name(old(self)@, name@) {
                Err(BackupErrorView::DuplicateBackupName { name: name@ })
            } else {
                Ok(())
            }),
            r is Ok ==> final(self)@ == old(self)@.push((name@, path@)),
            r is Err ==> final(self)@ == old(self)@,
            old(self).well_formed() ==> final(self).well_formed(),
    {
        let ghost before = self@;
        let n = self.entries.len();
        for i in 0..n
            invariant
                n == self.entries.len(),
                before == self@,
                forall|m: int| 0 <= m < i ==> (#[trigger] before[m]).0 != name@,
        {
            assert(before[i as int] == self.entries@[i as int]@);
            if self.entries[i].name == name {
                return Err(BackupError::DuplicateBackupName { name });
            }
        }
        self.entries.push(RegistryEntry { name, path });
        assert(self@ =~= before.push((name@, path@)));
        Ok(())
    }

    /// The path registered under `name`, if any.
    pub fn path_of(&self, name: &String) -> (r: Option<String>)
        ensures
            r is None <==> !has_name(self@, name@),
            r matches Some(p) ==> exists|i: int|
                0 <= i < self@.len() && (#[trigger] self@[i]) == (name@, p@),
    {
        let n = self.entries.len();
        for i in 0..n
            invariant
                n == self.entries.len(),
                forall|m: int| 0 <= m < i ==> (#[trigger] self@[m]).0 != name@,
        {
            assert(self@[i as int] == self.entries@[i as int]@);
            if self.entries[i].name == *name {
                return Some(self.entries[i].path.clone());
            }
        }
        None
    }

    /// The (name, path) pairs in the order of registration.
    pub fn list(&self) -> (r: Vec<(String, String)>)
        ensures
            r@.len() == self@.len(),
            forall|i: int| 0 <= i < r@.len() ==> (#[trigger] r@[i]).0@ == self@[i].0 && r@[i].1@
                == self@[i].1,
    {
        let mut r: Vec<(String, String)> = Vec::new();
        let n = self.entries.len();
        for i in 0..n
            invariant
                n == self.entries.len(),
                r@.len() == i,
                forall|m: int| 0 <= m < i ==> (#[trigger] r@[m]).0@ == self@[m].0 && r@[m].1@
                    == self@[m].1,
        {
            let e = &self.entries[i];
            r.push((e.name.clone(), e.path.clone()));
        }
        r
    }
}

/// Registers a backup under `name` for the configuration `config` at
/// `path`, and gives that configuration a device of the same name unless it
/// has one.
///
/// Fails with `DuplicateBackupName`, leaving both as they were, when the
/// name is taken.
pub fn register_backup(
    registry: &mut Registry,
    config: &mut Configuration,
    name: String,
    path: String,
) -> (r: Result<(), BackupError>)
    ensures
        outcome_view(r) == (if has_name(old(registry)@, name@) {
            Err(BackupErrorView::DuplicateBackupName { name: name@ })
        } else {
            Ok(())
        }),
        r is Ok ==> final(registry)@ == old(registry)@.push((name@, path@)),
        r is Ok ==> final(config)@ == (if has_device(old(config)@, name@) {
            old(config)@
        } else {
            old(config)@.push(DeviceView { name: name@, sync_jobs: Seq::empty() })
        }),
        r is Err ==> final(registry)@ == old(registry)@ && final(config)@ == old(config)@,
        old(registry).well_formed() ==> final(registry).well_formed(),
        old(config).well_formed() ==> final(config).well_formed(),
{
    let device = name.clone();
    match registry.register(name, path) {
        Err(e) => Err(e),
        Ok(()) => {
            let _ = add_device(config, device);
            Ok(())
        },
    }
}

} // verus!
