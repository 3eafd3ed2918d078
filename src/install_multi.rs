//! Progress reporting for many installs at once.
use crate::install::InstallEvent;
use vstd::prelude::*;

verus! {

/// Something that shows download progress: the total grows by each download's size and
/// the position by each chunk received.
pub trait ProgressBarExt {
    fn inc(&self, n: u64);

    fn inc_length(&self, n: u64);
}

/// Passes one download event on to a progress display: a size grows its total, a chunk
/// its position.
pub fn report<P: ProgressBarExt>(pb: &P, event: InstallEvent) {
    match event {
        InstallEvent::DownloadSize(size) => pb.inc_length(size),
        InstallEvent::Progress(chunk) => pb.inc(chunk),
    }
}

} // verus!
