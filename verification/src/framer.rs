//! Line framing: turning the raw bytes read from one stream into completed
//! lines. A line-feed byte completes the line accumulated so far, a
//! carriage-return byte is dropped wherever it occurs, and every other byte
//! extends the accumulating fragment. A fragment still accumulating when the
//! stream closes is never emitted as a line.

use vstd::prelude::*;

use crate::event::{other, Out, OutView, Stream};

verus! {

/// The byte that completes a line.
pub const LINE_FEED: u8 = 10;

/// The byte that is dropped wherever it occurs.
pub const CARRIAGE_RETURN: u8 = 13;

/// Holds of an accumulating line fragment: line-feed and carriage-return
/// bytes never appear in it.
pub open spec fn fragment_ok(s: Seq<u8>) -> bool {
    forall|i: int| 0 <= i < s.len() ==> s[i] != LINE_FEED && s[i] != CARRIAGE_RETURN
}

/// Splits the fragment `acc` extended by `chunk` into the completed lines, in
/// the order their line-feed bytes appear, and the new trailing fragment.
pub open spec fn frame(acc: Seq<u8>, chunk: Seq<u8>) -> (Seq<Seq<u8>>, Seq<u8>)
    decreases chunk.len(),
{
    if chunk.len() == 0 {
        (Seq::empty(), acc)
    } else if chunk.first() == LINE_FEED {
        let (lines, rest) = frame(Seq::empty(), chunk.drop_first());
        (seq![acc] + lines, rest)
    } else if chunk.first() == CARRIAGE_RETURN {
        frame(acc, chunk.drop_first())
    } else {
        frame(acc.push(chunk.first()), chunk.drop_first())
    }
}

/// `s` with every carriage-return byte removed.
pub open spec fn strip_cr(s: Seq<u8>) -> Seq<u8>
    decreases s.len(),
{
    if s.len() == 0 {
        Seq::empty()
    } else if s.first() == CARRIAGE_RETURN {
        strip_cr(s.drop_first())
    } else {
        seq![s.first()] + strip_cr(s.drop_first())
    }
}

/// The completed lines joined back together, each closed by a line feed,
/// followed by the trailing fragment.
pub open spec fn rejoin(lines: Seq<Seq<u8>>, rest: Seq<u8>) -> Seq<u8>
    decreases lines.len(),
{
    if lines.len() == 0 {
        rest
    } else {
        lines.first() + seq![LINE_FEED] + rejoin(lines.drop_first(), rest)
    }
}

/// The text decoded from the bytes of one completed line.
pub uninterp spec fn lossy_of(bytes: Seq<u8>) -> Seq<char>;

/// Relies on String::from_utf8_lossy: the decoding is a function of the bytes
/// alone; invalid sequences are replaced with a substitute, never rejected.
#[verifier::external_body]
fn decode_lossy(bytes: &Vec<u8>) -> (s: String)
    ensures
        s@ == lossy_of(bytes@),
{
    String::from_utf8_lossy(bytes.as_slice()).into_owned()
}

/// The event that one completed line of `which` becomes.
pub open spec fn line_event(which: Stream, line: Seq<u8>) -> OutView {
    match which {
        Stream::Stdout => OutView::Stdout(lossy_of(line)),
        Stream::Stderr => OutView::Stderr(lossy_of(line)),
    }
}

/// The events that a sequence of completed lines of `which` become, in order.
pub open spec fn line_events(which: Stream, lines: Seq<Seq<u8>>) -> Seq<OutView> {
    lines.map(|i: int, line: Seq<u8>| line_event(which, line))
}

/// Whether `e` is a line event of stream `which`.
pub open spec fn is_line_of(e: OutView, which: Stream) -> bool {
    match which {
        Stream::Stdout => e is Stdout,
        Stream::Stderr => e is Stderr,
    }
}

/// The events of `q` that are lines of stream `which`, in their order in `q`.
pub open spec fn of_stream(q: Seq<OutView>, which: Stream) -> Seq<OutView> {
    q.filter(|e: OutView| is_line_of(e, which))
}

/// The mathematical events of a queue of events, oldest first.
pub open spec fn views_of(q: Seq<Out>) -> Seq<OutView> {
    q.map(|i: int, e: Out| e@)
}

/// Scans one chunk of bytes read from stream `which`: every completed line is
/// decoded and appended to `queue` as a line event, carriage returns are
/// dropped, and the unterminated remainder is left in `acc`.
pub fn scan_chunk(acc: &mut Vec<u8>, queue: &mut Vec<Out>, chunk: &[u8], which: Stream)
    requires
        fragment_ok(old(acc)@),
    ensures
        final(acc)@ == frame(old(acc)@, chunk@).1,
        fragment_ok(final(acc)@),
        views_of(final(queue)@) == views_of(old(queue)@) + line_events(
            which,
            frame(old(acc)@, chunk@).0,
        ),
{
    let ghost orig_acc = acc@;
    let ghost orig_queue = queue@;
    let ghost mut emitted: Seq<Seq<u8>> = Seq::empty();
    proof {
        assert(chunk@.skip(0) =~= chunk@);
        assert(emitted + frame(orig_acc, chunk@).0 =~= frame(orig_acc, chunk@).0);
        assert(views_of(orig_queue) + line_events(which, emitted) =~= views_of(orig_queue));
    }
    let mut i: usize = 0;
    while i < chunk.len()
        invariant
            i <= chunk.len(),
            fragment_ok(acc@),
            frame(orig_acc, chunk@).0 == emitted + frame(acc@, chunk@.skip(i as int)).0,
            frame(orig_acc, chunk@).1 == frame(acc@, chunk@.skip(i as int)).1,
            views_of(queue@) == views_of(orig_queue) + line_events(which, emitted),
        decreases chunk.len() - i,
    {
        let b = chunk[i];
        proof {
            assert(chunk@.skip(i as int).len() > 0);
            assert(chunk@.skip(i as int).first() == b);
            assert(chunk@.skip(i as int).drop_first() =~= chunk@.skip(i as int + 1));
        }
        if b == LINE_FEED {
            let ghost line_bytes = acc@;
            let ghost q_before = queue@;
            let line = decode_lossy(acc);
            let e = match which {
                Stream::Stdout => Out::Stdout(line),
                Stream::Stderr => Out::Stderr(line),
            };
            queue.push(e);
            acc.clear();
            proof {
                emitted = emitted.push(line_bytes);
                assert(views_of(queue@) =~= views_of(q_before).push(line_event(which, line_bytes)));
                assert(line_events(which, emitted) =~= line_events(
                    which,
                    emitted.drop_last(),
                ).push(line_event(which, line_bytes)));
                assert(views_of(queue@) =~= views_of(orig_queue) + line_events(which, emitted));
                assert(frame(orig_acc, chunk@).0 =~= emitted + frame(
                    acc@,
                    chunk@.skip(i as int + 1),
                ).0);
            }
        } else if b == CARRIAGE_RETURN {
        } else {
            acc.push(b);
        }
        i = i + 1;
    }
    proof {
        assert(chunk@.skip(chunk@.len() as int) =~= Seq::<u8>::empty());
        assert(frame(orig_acc, chunk@).0 =~= emitted);
    }
}

/// Law: framing loses nothing and reorders nothing. Rejoining the completed
/// lines, each closed by a line feed, and appending the trailing fragment
/// gives back the accumulated bytes exactly, with every carriage-return byte
/// of the new chunk removed.
pub proof fn lemma_frame_exact(acc: Seq<u8>, chunk: Seq<u8>)
    ensures
        rejoin(frame(acc, chunk).0, frame(acc, chunk).1) == acc + strip_cr(chunk),
    decreases chunk.len(),
{
    if chunk.len() == 0 {
        assert(rejoin(frame(acc, chunk).0, frame(acc, chunk).1) =~= acc + strip_cr(chunk));
    } else if chunk.first() == LINE_FEED {
        let tail = chunk.drop_first();
        lemma_frame_exact(Seq::empty(), tail);
        let (lines, rest) = frame(Seq::empty(), tail);
        assert((seq![acc] + lines).first() == acc);
        assert((seq![acc] + lines).drop_first() =~= lines);
        assert(rejoin(lines, rest) =~= strip_cr(tail)) by {
            assert(Seq::<u8>::empty() + strip_cr(tail) =~= strip_cr(tail));
        }
        assert(rejoin(seq![acc] + lines, rest) =~= acc + strip_cr(chunk));
    } else if chunk.first() == CARRIAGE_RETURN {
        lemma_frame_exact(acc, chunk.drop_first());
    } else {
        let tail = chunk.drop_first();
        lemma_frame_exact(acc.push(chunk.first()), tail);
        assert(acc.push(chunk.first()) + strip_cr(tail) =~= acc + strip_cr(chunk));
    }
}

/// Law: framing does not depend on how the bytes were split into reads.
/// Scanning one chunk and then another completes the same lines, in the same
/// order, and leaves the same fragment, as scanning their concatenation at
/// once.
pub proof fn lemma_frame_chunks_compose(acc: Seq<u8>, c1: Seq<u8>, c2: Seq<u8>)
    ensures
        frame(acc, c1 + c2).0 == frame(acc, c1).0 + frame(frame(acc, c1).1, c2).0,
        frame(acc, c1 + c2).1 == frame(frame(acc, c1).1, c2).1,
    decreases c1.len(),
{
    if c1.len() == 0 {
        assert(c1 + c2 =~= c2);
        assert(Seq::<Seq<u8>>::empty() + frame(acc, c2).0 =~= frame(acc, c2).0);
    } else {
        assert((c1 + c2).first() == c1.first());
        assert((c1 + c2).drop_first() =~= c1.drop_first() + c2);
        if c1.first() == LINE_FEED {
            let tail = c1.drop_first();
            lemma_frame_chunks_compose(Seq::empty(), tail, c2);
            assert(seq![acc] + (frame(Seq::empty(), tail).0 + frame(
                frame(Seq::empty(), tail).1,
                c2,
            ).0) =~= (seq![acc] + frame(Seq::empty(), tail).0) + frame(frame(acc, c1).1, c2).0);
        } else if c1.first() == CARRIAGE_RETURN {
            lemma_frame_chunks_compose(acc, c1.drop_first(), c2);
        } else {
            lemma_frame_chunks_compose(acc.push(c1.first()), c1.drop_first(), c2);
        }
    }
}

/// Law: the completed lines and the trailing fragment never hold a line-feed
/// or carriage-return byte, provided the incoming fragment held none.
pub proof fn lemma_frame_clean(acc: Seq<u8>, chunk: Seq<u8>)
    requires
        fragment_ok(acc),
    ensures
        forall|k: int|
            0 <= k < frame(acc, chunk).0.len() ==> fragment_ok(#[trigger] frame(acc, chunk).0[k]),
        fragment_ok(frame(acc, chunk).1),
    decreases chunk.len(),
{
    if chunk.len() == 0 {
    } else if chunk.first() == LINE_FEED {
        lemma_frame_clean(Seq::empty(), chunk.drop_first());
        let (lines, rest) = frame(Seq::empty(), chunk.drop_first());
        assert forall|k: int| 0 <= k < (seq![acc] + lines).len() implies fragment_ok(
            #[trigger] (seq![acc] + lines)[k],
        ) by {
            if k > 0 {
                assert((seq![acc] + lines)[k] == lines[k - 1]);
            }
        }
    } else if chunk.first() == CARRIAGE_RETURN {
        lemma_frame_clean(acc, chunk.drop_first());
    } else {
        lemma_frame_clean(acc.push(chunk.first()), chunk.drop_first());
    }
}

/// Law: a stream that never writes a line-feed byte never completes a line;
/// whatever it wrote stays in the trailing fragment, carriage returns aside.
pub proof fn lemma_no_line_feed_no_lines(acc: Seq<u8>, chunk: Seq<u8>)
    requires
        forall|i: int| 0 <= i < chunk.len() ==> chunk[i] != LINE_FEED,
    ensures
        frame(acc, chunk).0 == Seq::<Seq<u8>>::empty(),
        frame(acc, chunk).1 == acc + strip_cr(chunk),
    decreases chunk.len(),
{
    if chunk.len() == 0 {
        assert(frame(acc, chunk).1 =~= acc + strip_cr(chunk));
    } else if chunk.first() == CARRIAGE_RETURN {
        assert(forall|i: int|
            0 <= i < chunk.drop_first().len() ==> #[trigger] chunk.drop_first()[i] != LINE_FEED);
        lemma_no_line_feed_no_lines(acc, chunk.drop_first());
    } else {
        assert(forall|i: int|
            0 <= i < chunk.drop_first().len() ==> #[trigger] chunk.drop_first()[i] != LINE_FEED);
        lemma_no_line_feed_no_lines(acc.push(chunk.first()), chunk.drop_first());
        assert(acc.push(chunk.first()) + strip_cr(chunk.drop_first()) =~= acc + strip_cr(chunk));
    }
}

/// Law: draining bytes only ever queues line events; the terminal event can
/// come from nothing but the exit of the child.
pub proof fn lemma_line_events_not_done(which: Stream, lines: Seq<Seq<u8>>)
    ensures
        forall|k: int|
            0 <= k < line_events(which, lines).len() ==> !(#[trigger] line_events(
                which,
                lines,
            )[k] is Done),
{
}

/// Law: interleaving leaves each stream's own order alone. Appending one
/// stream's completed lines to the queue extends that stream's subsequence of
/// events by exactly those lines, in order, and leaves the other stream's
/// subsequence unchanged.
pub proof fn lemma_stream_order(q: Seq<OutView>, which: Stream, lines: Seq<Seq<u8>>)
    ensures
        of_stream(q + line_events(which, lines), which) == of_stream(q, which) + line_events(
            which,
            lines,
        ),
        of_stream(q + line_events(which, lines), other(which)) == of_stream(q, other(which)),
{
    let evs = line_events(which, lines);
    Seq::filter_distributes_over_add(q, evs, |e: OutView| is_line_of(e, which));
    Seq::filter_distributes_over_add(q, evs, |e: OutView| is_line_of(e, other(which)));
    lemma_filter_all(evs, which);
    lemma_filter_none(evs, other(which));
}

/// Filtering a sequence of events that all belong to stream `which` for that
/// stream keeps the whole sequence.
proof fn lemma_filter_all(evs: Seq<OutView>, which: Stream)
    requires
        forall|k: int| 0 <= k < evs.len() ==> is_line_of(#[trigger] evs[k], which),
    ensures
        evs.filter(|e: OutView| is_line_of(e, which)) == evs,
    decreases evs.len(),
{
    reveal(Seq::filter);
    if evs.len() != 0 {
        lemma_filter_all(evs.drop_last(), which);
        assert(evs.drop_last().push(evs.last()) =~= evs);
    }
}

/// Filtering a sequence of events none of which belongs to stream `which` for
/// that stream keeps nothing.
proof fn lemma_filter_none(evs: Seq<OutView>, which: Stream)
    requires
        forall|k: int| 0 <= k < evs.len() ==> !is_line_of(#[trigger] evs[k], which),
    ensures
        evs.filter(|e: OutView| is_line_of(e, which)) == Seq::<OutView>::empty(),
    decreases evs.len(),
{
    reveal(Seq::filter);
    if evs.len() != 0 {
        lemma_filter_none(evs.drop_last(), which);
    }
}

} // verus!
