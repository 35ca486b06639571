//! The wall clock, and the record of its readings.
use vstd::prelude::*;

verus! {

/// The readings of the clock taken for one owner (such as a store), in order. The
/// field is ghost and private to this module, and only [`now_millis`] adds to it, so
/// the record holds exactly the values the clock gave. Being ghost, it costs nothing
/// at run time.
pub struct ClockReads {
    reads: Ghost<Seq<u128>>,
}

impl View for ClockReads {
    type V = Seq<u128>;

    closed spec fn view(&self) -> Seq<u128> {
        self.reads@
    }
}

impl ClockReads {
    /// A record of no readings.
    pub fn new() -> (r: ClockReads)
        ensures
            r@ == Seq::<u128>::empty(),
    {
        ClockReads { reads: Ghost(Seq::empty()) }
    }
}

/// The current time in milliseconds since the Unix epoch (`SystemTime::now`); zero
/// when the clock reads a time before the epoch. Nothing is promised of the value:
/// it is whatever the system clock says; the contract states only that this call
/// gave it, and it is recorded as such.
#[verifier::external_body]
#[allow(unused_variables)]
pub(crate) fn now_millis(reads: &mut ClockReads) -> (r: u128)
    ensures
        final(reads)@ == old(reads)@.push(r),
{
    match std::time::SystemTime::now().duration_since(std::time::UNIX_EPOCH) {
        Ok(d) => d.as_millis(),
        Err(_) => 0,
    }
}

} // verus!
