//! The installation of override entries into the target directory.
use crate::clean::OverrideEntry;
use vstd::prelude::*;
use vstd::string::StringExecFns;

verus! {

/// What the source of an override entry turned out to be on disk.
#[derive(Clone, Copy, Debug, PartialEq, Eq, Structural)]
pub enum SourceKind {
    File,
    Directory,
    /// Neither a file nor a directory (it may have vanished).
    Other,
}

/// How an override entry is installed.
#[derive(Clone, Copy, Debug, PartialEq, Eq, Structural)]
pub enum InstallAction {
    /// Copy the file to `<target>/<name>`, overwriting.
    CopyFile,
    /// Copy the directory's contents into the target, overwriting.
    CopyDirectory,
}

/// An override entry whose source can be installed neither as a file nor as
/// a directory.
pub struct InstallError {
    pub name: String,
}

impl InstallError {
    /// A description of the failure that names the entry.
    pub fn message(&self) -> (r: String)
        ensures
            r@ == "cannot tell whether the override "@ + self.name@ + " is a file or a directory"@,
    {
        let mut r = String::from_str("cannot tell whether the override ");
        r.append(self.name.as_str());
        r.append(" is a file or a directory");
        r
    }
}

pub open spec fn install_action_for(kind: SourceKind) -> Option<InstallAction> {
    match kind {
        SourceKind::File => Some(InstallAction::CopyFile),
        SourceKind::Directory => Some(InstallAction::CopyDirectory),
        SourceKind::Other => None,
    }
}

/// Decides how to install `entry`, whose source is of the given kind.
pub fn install_step<P>(entry: &OverrideEntry<P>, kind: SourceKind) -> (r: Result<
    InstallAction,
    InstallError,
>)
    ensures
        match r {
            Ok(action) => install_action_for(kind) == Some(action),
            Err(e) => install_action_for(kind) is None && e.name@ == entry.name@,
        },
{
    match kind {
        SourceKind::File => Ok(InstallAction::CopyFile),
        SourceKind::Directory => Ok(InstallAction::CopyDirectory),
        SourceKind::Other => Err(InstallError { name: entry.name.clone() }),
    }
}

} // verus!
