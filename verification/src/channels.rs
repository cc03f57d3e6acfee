use vstd::prelude::*;

use crate::config::Config;
use crate::filesystem_map::FsView;
use crate::paths::HttmPath;
use crate::recursive::{RecursiveMainLoop, SelectionCandidate};
use crate::results::Never;

verus! {

/// Crossbeam's sending endpoint, declared opaquely so the stream can flow
/// through it.
#[verifier::external_type_specification]
#[verifier::external_body]
#[verifier::reject_recursive_types(T)]
pub struct ExSender<T>(crossbeam::channel::Sender<T>);

/// Crossbeam's receiving endpoint, declared opaquely: the hangup beacon.
#[verifier::external_type_specification]
#[verifier::external_body]
#[verifier::reject_recursive_types(T)]
pub struct ExReceiver<T>(crossbeam::channel::Receiver<T>);

/// Relies on crossbeam's `Receiver::try_recv`: a disconnected channel
/// reports `Disconnected`, an empty but connected one reports `Empty`.
/// Whether the consumer has hung up depends on another thread, so nothing
/// is promised of the outcome.
#[verifier::external_body]
pub fn is_channel_closed(chan: &crossbeam::channel::Receiver<Never>) -> bool {
    match chan.try_recv() {
        Ok(_) => false,
        Err(crossbeam::channel::TryRecvError::Disconnected) => true,
        Err(crossbeam::channel::TryRecvError::Empty) => false,
    }
}

/// Relies on crossbeam's `Sender::send`: delivery into the unbounded channel
/// fails exactly when every receiver has hung up.  Whether the consumer is
/// still there depends on another thread, so nothing is promised of the
/// outcome.
#[verifier::external_body]
pub(crate) fn channel_send(
    tx: &crossbeam::channel::Sender<SelectionCandidate>,
    item: SelectionCandidate,
) -> bool {
    tx.send(item).is_ok()
}

/// The detached search task: walks the tree from the requested directory,
/// streaming items into the sink.
pub struct RecursiveSearch;

impl RecursiveSearch {
    /// Drive the live walk within a step budget: stream the requested
    /// directory's items, then pop one directory per step, checking the
    /// hangup beacon first — a closed beacon, like a failed send, stops the
    /// walk within one directory of work.
    pub fn exec(
        config: &Config,
        fs_view: &FsView,
        requested_dir: &HttmPath,
        skim_tx: &crossbeam::channel::Sender<SelectionCandidate>,
        hangup_rx: &crossbeam::channel::Receiver<Never>,
        max_steps: usize,
    ) {
        let (mut walker, items) = RecursiveMainLoop::start(config, fs_view, requested_dir);
        if !Self::send_all(skim_tx, items) {
            return ;
        }
        if !config.opt_recursive {
            return ;
        }
        let mut steps: usize = 0;
        while steps < max_steps && !walker.is_done()
            invariant
                steps <= max_steps,
            decreases max_steps - steps,
        {
            let hangup = is_channel_closed(hangup_rx);
            let out = walker.step(config, fs_view, hangup);
            if !Self::send_all(skim_tx, out) {
                return ;
            }
            steps += 1;
        }
    }

    /// Send each item in turn; a send failure means the consumer is gone and
    /// is a signal to stop, not an error.
    fn send_all(
        skim_tx: &crossbeam::channel::Sender<SelectionCandidate>,
        items: Vec<SelectionCandidate>,
    ) -> bool {
        let mut items = items;
        while items.len() > 0
            decreases items@.len(),
        {
            let item = items.remove(0);
            if !channel_send(skim_tx, item) {
                return false;
            }
        }
        true
    }
}

} // verus!
