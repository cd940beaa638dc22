//! The decision core of a device-listening session.
//!
//! An event device delivers input events one at a time, and a report is
//! everything up to and including the next synchronization mark. The
//! blocking loop that waits on the device and reads each event is I/O
//! and lives in the surrounding program; it hands every event here, as
//! plain values, and this core decides when a complete report stands
//! ready to be sent on.

use vstd::prelude::*;

verus! {

/// Assembles device events into reports.
///
/// Each event's code is buffered; a synchronization mark completes the
/// report, which holds every buffered code — the mark's own included —
/// in arrival order.
pub struct EvdevReportIter {
    report_buffer: Vec<u16>,
}

impl EvdevReportIter {
    /// The codes buffered so far toward the next report.
    pub closed spec fn buffered(self) -> Seq<u16> {
        self.report_buffer@
    }

    /// A fresh assembler with nothing buffered.
    pub fn new() -> (r: Self)
        ensures
            r.buffered() == Seq::<u16>::empty(),
    {
        EvdevReportIter { report_buffer: Vec::new() }
    }

    /// Takes the next device event, given as its code and whether it is
    /// a synchronization mark. A mark completes and returns the report
    /// and empties the buffer; any other event only grows the buffer.
    pub fn push_event(&mut self, code: u16, is_syn_report: bool) -> (r: Option<Vec<u16>>)
        ensures
            is_syn_report ==> (r matches Some(report) && report@ == old(self).buffered().push(
                code,
            ) && final(self).buffered() == Seq::<u16>::empty()),
            !is_syn_report ==> (r is None && final(self).buffered() == old(self).buffered().push(
                code,
            )),
    {
        self.report_buffer.push(code);
        if is_syn_report {
            let report = self.report_buffer.split_off(0);
            proof {
                assert(report@ =~= old(self).buffered().push(code));
                assert(self.report_buffer@ =~= Seq::<u16>::empty());
            }
            Some(report)
        } else {
            None
        }
    }
}

/// The decision core of the device-listening event loop.
///
/// The listening loop alternates outside work — waiting on the device,
/// reading one event — with the decision of what to forward. The waiting
/// and reading live in the surrounding program; the decision lives here:
/// the loop hands each device event over in arrival order, and gets back
/// the completed reports, ready to send on.
pub struct EvdevListener {
    report_iter: EvdevReportIter,
}

impl EvdevListener {
    /// The codes buffered so far toward the next report.
    pub closed spec fn buffered(self) -> Seq<u16> {
        self.report_iter.buffered()
    }

    /// A listener session with nothing buffered yet.
    pub fn new() -> (r: Self)
        ensures
            r.buffered() == Seq::<u16>::empty(),
    {
        EvdevListener { report_iter: EvdevReportIter::new() }
    }

    /// One step of the listening loop: accepts the device event just
    /// read, and returns the completed report if this event — a
    /// synchronization mark — completes one.
    pub fn run(&mut self, code: u16, is_syn_report: bool) -> (r: Option<Vec<u16>>)
        ensures
            is_syn_report ==> (r matches Some(report) && report@ == old(self).buffered().push(
                code,
            ) && final(self).buffered() == Seq::<u16>::empty()),
            !is_syn_report ==> (r is None && final(self).buffered() == old(self).buffered().push(
                code,
            )),
    {
        self.report_iter.push_event(code, is_syn_report)
    }
}

} // verus!
