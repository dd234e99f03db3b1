use vstd::prelude::*;

verus! {

/// Which of the child's two output streams a byte or a line came from.
#[derive(Clone, Copy, Debug, PartialEq, Eq)]
pub enum Stream {
    Stdout,
    Stderr,
}

/// The stream a given stream is multiplexed with.
pub open spec fn other(which: Stream) -> Stream {
    match which {
        Stream::Stdout => Stream::Stderr,
        Stream::Stderr => Stream::Stdout,
    }
}

/// Mathematical model of one event of the merged sequence: a completed line
/// of one of the two streams, or the terminal event with the exit code.
pub enum OutView {
    Stdout(Seq<char>),
    Stderr(Seq<char>),
    Done(int),
}

/// One event of the merged output sequence: a completed line of stdout or of
/// stderr, or the terminal event carrying the child's exit code. Exactly one
/// `Done` is ever produced, and it is always the last event.
#[derive(Clone, Debug, PartialEq, Eq)]
pub enum Out {
    Stdout(String),
    Stderr(String),
    Done(i32),
}

impl View for Out {
    type V = OutView;

    open spec fn view(&self) -> OutView {
        match self {
            Out::Stdout(s) => OutView::Stdout(s@),
            Out::Stderr(s) => OutView::Stderr(s@),
            Out::Done(c) => OutView::Done(*c as int),
        }
    }
}

} // verus!
