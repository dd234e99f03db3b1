//! The merged-stream reader: the verified state behind the pull-based
//! iteration protocol. It owns the two per-stream line fragments, the
//! first-in first-out queue of events awaiting delivery, and the flag that
//! records that the terminal event has been delivered.
//!
//! The reader is pure: an unverified driver performs the readiness wait, the
//! nonblocking pipe reads and the exit-status query, and feeds what it got
//! back in as plain values. `step` decides what the driver does next; the
//! bytes of each read go through `accept_chunk`; the child's exit goes
//! through `accept_exit`, which yields the terminal event.

use vstd::prelude::*;

use crate::event::{other, Out, OutView, Stream};
use crate::framer::{fragment_ok, frame, line_events, scan_chunk, views_of};

verus! {

/// What the pull protocol asks of its driver next.
#[derive(Clone, Debug, PartialEq, Eq)]
pub enum Step {
    /// An event is ready: deliver it to the consumer.
    Yield(Out),
    /// Nothing is queued and the child has not been seen to exit: block on
    /// the readiness wait, drain whatever became ready, then check the
    /// child's exit status if the queue is still empty.
    Wait,
    /// The terminal event has been delivered: the sequence is over and every
    /// further step yields nothing.
    Exhausted,
}

/// The verified state of the merged-stream reader.
pub struct ProcessReader {
    stdout_acc: Vec<u8>,
    stderr_acc: Vec<u8>,
    queue: Vec<Out>,
    done: bool,
}

impl ProcessReader {
    /// The line fragment of `which`, accumulated since its last line feed.
    pub closed spec fn pending(self, which: Stream) -> Seq<u8> {
        match which {
            Stream::Stdout => self.stdout_acc@,
            Stream::Stderr => self.stderr_acc@,
        }
    }

    /// The events queued for delivery, oldest first.
    pub closed spec fn events(self) -> Seq<OutView> {
        views_of(self.queue@)
    }

    /// Whether the terminal event has been delivered.
    pub closed spec fn done(self) -> bool {
        self.done
    }

    /// Well-formed: neither line fragment holds a line-feed or a
    /// carriage-return byte.
    pub open spec fn wf(self) -> bool {
        &&& fragment_ok(self.pending(Stream::Stdout))
        &&& fragment_ok(self.pending(Stream::Stderr))
    }

    /// A fresh reader: nothing queued, empty fragments, not finished.
    pub fn new() -> (r: ProcessReader)
        ensures
            r.wf(),
            !r.done(),
            r.events() == Seq::<OutView>::empty(),
            r.pending(Stream::Stdout) == Seq::<u8>::empty(),
            r.pending(Stream::Stderr) == Seq::<u8>::empty(),
    {
        let r = ProcessReader {
            stdout_acc: Vec::new(),
            stderr_acc: Vec::new(),
            queue: Vec::new(),
            done: false,
        };
        proof {
            assert(r.events() =~= Seq::<OutView>::empty());
        }
        r
    }

    /// One decision of the pull protocol. Once the terminal event has been
    /// delivered every step is `Exhausted` and nothing changes; otherwise the
    /// oldest queued event is yielded, or the driver is told to wait for more
    /// bytes when the queue is empty.
    pub fn step(&mut self) -> (r: Step)
        requires
            old(self).wf(),
        ensures
            final(self).wf(),
            old(self).done() ==> r is Exhausted && *final(self) == *old(self),
            !old(self).done() && old(self).events().len() == 0 ==> r is Wait && *final(self)
                == *old(self),
            !old(self).done() && old(self).events().len() > 0 ==> {
                &&& r matches Step::Yield(e) && e@ == old(self).events().first()
                &&& final(self).events() == old(self).events().drop_first()
                &&& !final(self).done()
                &&& final(self).pending(Stream::Stdout) == old(self).pending(Stream::Stdout)
                &&& final(self).pending(Stream::Stderr) == old(self).pending(Stream::Stderr)
            },
    {
        if self.done {
            Step::Exhausted
        } else if self.queue.len() > 0 {
            let e = self.queue.remove(0);
            proof {
                assert(views_of(self.queue@) =~= views_of(old(self).queue@).drop_first());
            }
            Step::Yield(e)
        } else {
            Step::Wait
        }
    }

    /// Feeds the bytes of one nonblocking read of `which` through that
    /// stream's line framer: an event is queued for every completed line, in
    /// the order the line feeds appear, and the unterminated remainder stays
    /// in the fragment. The other stream is untouched.
    pub fn accept_chunk(&mut self, which: Stream, chunk: &[u8])
        requires
            old(self).wf(),
            !old(self).done(),
        ensures
            final(self).wf(),
            !final(self).done(),
            final(self).pending(which) == frame(old(self).pending(which), chunk@).1,
            final(self).pending(other(which)) == old(self).pending(other(which)),
            final(self).events() == old(self).events() + line_events(
                which,
                frame(old(self).pending(which), chunk@).0,
            ),
    {
        match which {
            Stream::Stdout => scan_chunk(&mut self.stdout_acc, &mut self.queue, chunk, which),
            Stream::Stderr => scan_chunk(&mut self.stderr_acc, &mut self.queue, chunk, which),
        }
    }

    /// Records that the child has exited, once the queue has been drained,
    /// and yields the terminal event carrying its exit code. The reader is
    /// finished for good, and an unterminated line fragment is never flushed:
    /// its bytes do not become a line event.
    pub fn accept_exit(&mut self, code: i32) -> (e: Out)
        requires
            old(self).wf(),
            !old(self).done(),
            old(self).events().len() == 0,
        ensures
            final(self).wf(),
            final(self).done(),
            e@ == OutView::Done(code as int),
            final(self).events() == old(self).events(),
            final(self).pending(Stream::Stdout) == old(self).pending(Stream::Stdout),
            final(self).pending(Stream::Stderr) == old(self).pending(Stream::Stderr),
    {
        self.done = true;
        Out::Done(code)
    }

    /// Whether an event is queued for delivery.
    pub fn has_queued(&self) -> (b: bool)
        ensures
            b == (self.events().len() > 0),
    {
        self.queue.len() > 0
    }

    /// Whether the terminal event has been delivered.
    pub fn is_done(&self) -> (b: bool)
        ensures
            b == self.done(),
    {
        self.done
    }
}

} // verus!
