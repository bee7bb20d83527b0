//! What the caller asks for, and what follows from it once a download is over.

use crate::archive::{Compression, ZipArchiver, ZipArchiverView};
use crate::descriptor::Directory;
use crate::fetch::{Fetch, Target};
use vstd::prelude::*;
use vstd::string::*;

verus! {

/// The wishes of the caller.
#[derive(Debug, PartialEq, Eq)]
pub struct Args {
    /// The URLs of the directories or files to download, one download each.
    pub urls: Vec<String>,
    /// The directory on disk to download into, where it is not to be named after
    /// the repository.
    pub path: Option<String>,
    /// Whether a downloaded directory is archived as well.
    pub zipped: bool,
    /// Whether only warnings are reported.
    pub quiet: bool,
}

impl Args {
    /// The number of stages that one download goes through: reading the URL and
    /// downloading, and archiving where that is asked for.
    pub fn steps(&self) -> (count: u8)
        ensures
            count == if self.zipped {
                3u8
            } else {
                2u8
            },
    {
        if self.zipped {
            3
        } else {
            2
        }
    }
}

/// The archiver for what a download put on disk: it archives the directory that
/// the download made into the file of the same name with `.zip` behind it.
pub open spec fn archiver_of(data: crate::descriptor::DirectoryView) -> ZipArchiverView {
    ZipArchiverView {
        src: data.root_dir(),
        dest: data.root_dir() + ".zip"@,
        compression: Compression::Deflated,
        unix_permissions: 0o755,
    }
}

/// Decides whether the download that `engine` ran for `data` is followed by
/// archiving.
///
/// It is where archives are asked for and the run has finished with a directory
/// on disk. A lone file has no directory to archive and is passed over.
pub fn zip_after(args: &Args, data: &Directory, engine: &Fetch) -> (archiver: Option<ZipArchiver>)
    ensures
        archiver is Some <==> args.zipped && engine@.finished() && engine@.target == Some(
            Target::Directory,
        ),
        archiver matches Some(found) ==> found@ == archiver_of(data@),
{
    let wanted = args.zipped && engine.finished() && match engine.target() {
        Some(Target::Directory) => true,
        _ => false,
    };
    if !wanted {
        return None;
    }
    let root = match &data.clone_path {
        Some(path) => path.clone(),
        None => data.root.clone(),
    };
    let mut dest = root.clone();
    dest.append(".zip");
    Some(ZipArchiver::new(root.as_str(), dest.as_str()))
}

} // verus!
