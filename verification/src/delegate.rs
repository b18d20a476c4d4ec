//! Fan-out plumbing: produce buffers serially or in parallel and hand
//! each to a channel sender.
//!
//! The channel and the worker pool are outside collaborators; the
//! library only guarantees that every closure call it makes is one the
//! closure's own contract admits.

use rayon::iter::{IntoParallelIterator, ParallelIterator};
use vstd::prelude::*;

verus! {

#[verifier::external_type_specification]
#[verifier::external_body]
#[verifier::reject_recursive_types(T)]
pub struct ExSender<T>(std::sync::mpsc::Sender<T>);

/// Relies on mpsc's `Sender::send`, which fails only when the receiving
/// end is gone; a worker whose consumer has left has nothing to deliver,
/// so that outcome is dropped rather than allowed to abort the producer.
#[verifier::external_body]
fn channel_send(sender: &std::sync::mpsc::Sender<Vec<u8>>, buffer: Vec<u8>) {
    let _ = sender.send(buffer);
}

/// Produce one buffer and hand it to the channel.
pub(crate) fn produce_and_send<F: Fn() -> Vec<u8>>(
    sender: &std::sync::mpsc::Sender<Vec<u8>>,
    closure: &F,
)
    requires
        call_requires(*closure, ()),
{
    let buffer = closure();
    channel_send(sender, buffer);
}

/// Produce one buffer with the closure and send it.
pub fn create_serial<F: FnOnce() -> Vec<u8>>(
    sender: std::sync::mpsc::Sender<Vec<u8>>,
    closure: F,
)
    requires
        call_requires(closure, ()),
{
    let buffer = closure();
    channel_send(&sender, buffer);
}

/// Relies on rayon's `into_par_iter`/`for_each` over `0..max`: each item
/// runs one library-verified produce-and-send call.
#[verifier::external_body]
fn par_send_all<F: Fn() -> Vec<u8> + Send + Sync>(
    sender: std::sync::mpsc::Sender<Vec<u8>>,
    max: usize,
    closure: F,
)
    requires
        call_requires(closure, ()),
{
    (0..max).into_par_iter().for_each(|_| produce_and_send(&sender, &closure));
}

/// Produce `count` buffers (one when unspecified) in parallel, sending
/// each as it completes.
pub fn create_parallel<F: Fn() -> Vec<u8> + Send + Sync>(
    sender: std::sync::mpsc::Sender<Vec<u8>>,
    count: Option<usize>,
    closure: F,
)
    requires
        call_requires(closure, ()),
{
    let max = match count {
        Some(c) => c,
        None => 1,
    };
    par_send_all(sender, max, closure);
}

} // verus!
