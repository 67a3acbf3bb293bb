//! A chunk-boundary-safe parser for server-sent-event streams.
//!
//! Network chunks split the byte stream anywhere; the parser buffers the
//! tail after the last newline, so what it emits depends only on the
//! concatenation of everything pushed — `stream_events` of the consumed
//! bytes — never on how the stream was cut.  A complete line `data: <json>`
//! yields one delta event per `choices[i].delta.content` of the frame, and
//! the literal `data: [DONE]` yields the done event.

use vstd::prelude::*;
use crate::bytes::{starts_with, bytes_eq, clone_bytes, opt_seq_view};
use crate::jsondoc::{frame_deltas_of, frame_deltas};

verus! {

/// One event handed to the stream's listener.
pub enum SseEvent {
    Delta(Vec<u8>),
    Done,
}

/// The mathematical shadow of `SseEvent`.
pub ghost enum SseEventV {
    Delta(Seq<u8>),
    Done,
}

impl View for SseEvent {
    type V = SseEventV;

    open spec fn view(&self) -> SseEventV {
        match self {
            SseEvent::Delta(d) => SseEventV::Delta(d@),
            SseEvent::Done => SseEventV::Done,
        }
    }
}

/// The views of a list of events.
pub open spec fn events_view(s: Seq<SseEvent>) -> Seq<SseEventV> {
    s.map_values(|e: SseEvent| e@)
}

/// ASCII whitespace, as line trimming sees it.
pub open spec fn is_ws(b: u8) -> bool {
    b == 32 || b == 9 || b == 13 || b == 10
}

/// `s` without leading whitespace.
pub open spec fn trim_front(s: Seq<u8>) -> Seq<u8>
    decreases s.len(),
{
    if s.len() > 0 && is_ws(s.first()) {
        trim_front(s.drop_first())
    } else {
        s
    }
}

/// `s` without trailing whitespace.
pub open spec fn trim_back(s: Seq<u8>) -> Seq<u8>
    decreases s.len(),
{
    if s.len() > 0 && is_ws(s.last()) {
        trim_back(s.drop_last())
    } else {
        s
    }
}

/// `s` trimmed at both ends.
pub open spec fn spec_trim(s: Seq<u8>) -> Seq<u8> {
    trim_back(trim_front(s))
}

/// `data: `, the field prefix of an event line.
pub open spec fn data_field_prefix() -> Seq<u8> {
    seq!['d' as u8, 'a' as u8, 't' as u8, 'a' as u8, ':' as u8, ' ' as u8]
}

/// `[DONE]`, the stream's terminal sentinel.
pub open spec fn done_token() -> Seq<u8> {
    seq!['[' as u8, 'D' as u8, 'O' as u8, 'N' as u8, 'E' as u8, ']' as u8]
}

/// The delta events of a frame's extracted contents, in order.
pub open spec fn deltas_events(ds: Seq<Option<Seq<u8>>>) -> Seq<SseEventV>
    decreases ds.len(),
{
    if ds.len() == 0 {
        Seq::empty()
    } else {
        deltas_events(ds.drop_last()) + match ds.last() {
            Some(v) => seq![SseEventV::Delta(v)],
            None => Seq::empty(),
        }
    }
}

/// The events one complete line yields: nothing unless it is a `data:`
/// field; the done event for the `[DONE]` sentinel; else one delta per
/// content the frame carries.
pub open spec fn line_events(l: Seq<u8>) -> Seq<SseEventV> {
    let t = spec_trim(l);
    if t.len() == 0 {
        Seq::empty()
    } else if !data_field_prefix().is_prefix_of(t) {
        Seq::empty()
    } else {
        let payload = t.subrange(6, t.len() as int);
        if payload == done_token() {
            seq![SseEventV::Done]
        } else {
            deltas_events(frame_deltas_of(payload))
        }
    }
}

/// The events a sequence of complete lines yields.
pub open spec fn lines_events(ls: Seq<Seq<u8>>) -> Seq<SseEventV>
    decreases ls.len(),
{
    if ls.len() == 0 {
        Seq::empty()
    } else {
        lines_events(ls.drop_last()) + line_events(ls.last())
    }
}

/// The complete lines of a stream, given the unterminated text `cur`
/// carried in from before.
pub open spec fn lines_acc(s: Seq<u8>, cur: Seq<u8>) -> Seq<Seq<u8>>
    decreases s.len(),
{
    if s.len() == 0 {
        Seq::empty()
    } else if s.first() == 10 {
        seq![cur] + lines_acc(s.drop_first(), Seq::empty())
    } else {
        lines_acc(s.drop_first(), cur + seq![s.first()])
    }
}

/// The unterminated tail of a stream, given the carried-in text `cur`.
pub open spec fn rest_acc(s: Seq<u8>, cur: Seq<u8>) -> Seq<u8>
    decreases s.len(),
{
    if s.len() == 0 {
        cur
    } else if s.first() == 10 {
        rest_acc(s.drop_first(), Seq::empty())
    } else {
        rest_acc(s.drop_first(), cur + seq![s.first()])
    }
}

/// Every event a byte stream yields, in order: the events of its complete
/// lines.
pub open spec fn stream_events(s: Seq<u8>) -> Seq<SseEventV> {
    lines_events(lines_acc(s, Seq::empty()))
}

/// The stream parser: the tail after the last newline, buffered, and — as
/// ghost state — everything consumed so far.
pub struct SseParser {
    buffer: Vec<u8>,
    consumed: Ghost<Seq<u8>>,
}

impl SseParser {
    /// The parser's buffer is exactly the unterminated tail of what it has
    /// consumed.
    pub closed spec fn wf(self) -> bool {
        self.buffer@ == rest_acc(self.consumed@, Seq::empty())
    }

    /// What the parser has consumed.
    pub closed spec fn consumed(self) -> Seq<u8> {
        self.consumed@
    }

    /// A parser that has seen nothing.
    pub fn new() -> (p: SseParser)
        ensures
            p.wf(),
            p.consumed() == Seq::<u8>::empty(),
    {
        let p = SseParser { buffer: Vec::new(), consumed: Ghost(Seq::empty()) };
        proof {
            assert(rest_acc(Seq::<u8>::empty(), Seq::<u8>::empty()) =~= Seq::<u8>::empty());
        }
        p
    }

    /// Feeds one network chunk and returns the events it completes: the
    /// stream's events are a function of the concatenated bytes alone,
    /// however they were cut into chunks.
    pub fn push_chunk(&mut self, chunk: &Vec<u8>) -> (evs: Vec<SseEvent>)
        requires
            old(self).wf(),
        ensures
            final(self).wf(),
            final(self).consumed() == old(self).consumed() + chunk@,
            stream_events(final(self).consumed()) == stream_events(old(self).consumed())
                + events_view(evs@),
    {
        let mut evs: Vec<SseEvent> = Vec::new();
        let n = chunk.len();
        let mut i: usize = 0;
        proof {
            assert(old(self).consumed@ + chunk@.subrange(0, 0) =~= old(self).consumed@);
        }
        while i < n
            invariant
                n == chunk@.len(),
                i <= n,
                self.consumed@ == old(self).consumed@ + chunk@.subrange(0, i as int),
                self.wf(),
                stream_events(self.consumed@) == stream_events(old(self).consumed@)
                    + events_view(evs@),
            decreases n - i,
        {
            let b = chunk[i];
            let ghost c0 = self.consumed@;
            proof {
                self.consumed@ = c0 + seq![chunk@[i as int]];
                lemma_acc_snoc(c0, chunk@[i as int]);
                assert(c0 + seq![chunk@[i as int]]
                    =~= old(self).consumed@ + chunk@.subrange(0, i + 1));
            }
            if b == 10 {
                // a line is complete: its events, then an empty buffer
                let line = clone_bytes(&self.buffer);
                self.buffer = Vec::new();
                let ghost evs0 = events_view(evs@);
                process_line(&line, &mut evs);
                proof {
                    assert(rest_acc(self.consumed@, Seq::empty()) =~= Seq::<u8>::empty());
                    assert(self.buffer@ =~= Seq::<u8>::empty());
                    let ls0 = lines_acc(c0, Seq::empty());
                    let ls1 = lines_acc(self.consumed@, Seq::empty());
                    assert(ls1 == ls0 + seq![line@]);
                    assert(ls1.drop_last() =~= ls0);
                    assert(events_view(evs@) =~= evs0 + line_events(line@));
                    assert(stream_events(self.consumed@) =~= stream_events(c0) + line_events(
                        line@,
                    ));
                }
            } else {
                self.buffer.push(b);
                proof {
                    assert(lines_acc(self.consumed@, Seq::empty()) == lines_acc(
                        c0,
                        Seq::empty(),
                    ));
                    assert(self.buffer@ =~= rest_acc(self.consumed@, Seq::empty()));
                }
            }
            i += 1;
        }
        proof {
            assert(chunk@.subrange(0, n as int) =~= chunk@);
        }
        evs
    }
}

/// Appending one byte moves the line accumulators one step: a newline
/// completes the pending text as a line and empties the tail, any other
/// byte extends the tail.
proof fn lemma_acc_snoc(s: Seq<u8>, b: u8)
    ensures
        b == 10 ==> lines_acc(s + seq![b], Seq::empty()) == lines_acc(s, Seq::empty()) + seq![
            rest_acc(s, Seq::empty()),
        ] && rest_acc(s + seq![b], Seq::empty()) == Seq::<u8>::empty(),
        b != 10 ==> lines_acc(s + seq![b], Seq::empty()) == lines_acc(s, Seq::empty())
            && rest_acc(s + seq![b], Seq::empty()) == rest_acc(s, Seq::empty()) + seq![b],
{
    lemma_acc_snoc_general(s, b, Seq::empty());
}

proof fn lemma_acc_snoc_general(s: Seq<u8>, b: u8, cur: Seq<u8>)
    ensures
        b == 10 ==> lines_acc(s + seq![b], cur) == lines_acc(s, cur) + seq![rest_acc(s, cur)]
            && rest_acc(s + seq![b], cur) == Seq::<u8>::empty(),
        b != 10 ==> lines_acc(s + seq![b], cur) == lines_acc(s, cur) && rest_acc(
            s + seq![b],
            cur,
        ) == rest_acc(s, cur) + seq![b],
    decreases s.len(),
{
    reveal_with_fuel(lines_acc, 3);
    reveal_with_fuel(rest_acc, 3);
    let sb = s + seq![b];
    if s.len() == 0 {
        assert(sb =~= seq![b]);
        assert(sb.first() == b);
        assert(sb.drop_first() =~= Seq::<u8>::empty());
        if b == 10 {
            assert(lines_acc(sb, cur) =~= seq![cur]);
            assert(lines_acc(s, cur) + seq![rest_acc(s, cur)] =~= seq![cur]);
            assert(rest_acc(sb, cur) =~= Seq::<u8>::empty());
        } else {
            assert(lines_acc(sb, cur) =~= lines_acc(s, cur));
            assert(rest_acc(sb, cur) =~= rest_acc(s, cur) + seq![b]);
        }
    } else {
        assert(sb.first() == s.first());
        assert(sb.drop_first() =~= s.drop_first() + seq![b]);
        if s.first() == 10 {
            lemma_acc_snoc_general(s.drop_first(), b, Seq::empty());
            if b == 10 {
                assert(lines_acc(sb, cur) =~= lines_acc(s, cur) + seq![rest_acc(s, cur)]);
            } else {
                assert(lines_acc(sb, cur) =~= lines_acc(s, cur));
                assert(rest_acc(sb, cur) =~= rest_acc(s, cur) + seq![b]);
            }
        } else {
            lemma_acc_snoc_general(s.drop_first(), b, cur + seq![s.first()]);
            if b == 10 {
                assert(lines_acc(sb, cur) =~= lines_acc(s, cur) + seq![rest_acc(s, cur)]);
            } else {
                assert(lines_acc(sb, cur) =~= lines_acc(s, cur));
                assert(rest_acc(sb, cur) =~= rest_acc(s, cur) + seq![b]);
            }
        }
    }
}

/// Trims a line at both ends.
fn trim_bytes(line: &Vec<u8>) -> (r: Vec<u8>)
    ensures
        r@ == spec_trim(line@),
{
    let n = line.len();
    proof {
        assert(line@.subrange(0, n as int) =~= line@);
    }
    let mut start: usize = 0;
    while start < n && (line[start] == 32 || line[start] == 9 || line[start] == 13
        || line[start] == 10)
        invariant
            start <= n == line@.len(),
            trim_front(line@) == trim_front(line@.subrange(start as int, n as int)),
        decreases n - start,
    {
        proof {
            let tail = line@.subrange(start as int, n as int);
            assert(is_ws(tail.first()));
            assert(tail.drop_first() =~= line@.subrange(start + 1, n as int));
        }
        start += 1;
    }
    proof {
        let tail = line@.subrange(start as int, n as int);
        if start < n {
            assert(!is_ws(tail.first()));
        }
        assert(trim_front(tail) == tail);
    }
    let mut end: usize = n;
    while end > start && (line[end - 1] == 32 || line[end - 1] == 9 || line[end - 1] == 13
        || line[end - 1] == 10)
        invariant
            start <= end <= n == line@.len(),
            trim_front(line@) == line@.subrange(start as int, n as int),
            trim_back(line@.subrange(start as int, n as int)) == trim_back(
                line@.subrange(start as int, end as int),
            ),
        decreases end,
    {
        proof {
            let mid = line@.subrange(start as int, end as int);
            assert(is_ws(mid.last()));
            assert(mid.drop_last() =~= line@.subrange(start as int, end - 1));
        }
        end -= 1;
    }
    proof {
        let mid = line@.subrange(start as int, end as int);
        if end > start {
            assert(!is_ws(mid.last()));
        }
        assert(trim_back(mid) == mid);
    }
    let mut r: Vec<u8> = Vec::new();
    let mut j: usize = start;
    while j < end
        invariant
            start <= j <= end <= line@.len(),
            r@ == line@.subrange(start as int, j as int),
        decreases end - j,
    {
        r.push(line[j]);
        proof {
            assert(line@.subrange(start as int, j as int) + seq![line@[j as int]]
                =~= line@.subrange(start as int, j + 1));
        }
        j += 1;
    }
    r
}

/// Emits the events of one complete line.
fn process_line(line: &Vec<u8>, evs: &mut Vec<SseEvent>)
    ensures
        events_view(final(evs)@) == events_view(old(evs)@) + line_events(line@),
{
    let ghost evs0 = events_view(evs@);
    let t = trim_bytes(line);
    if t.len() == 0 {
        proof {
            assert(events_view(evs@) =~= evs0 + line_events(line@));
        }
        return;
    }
    let prefix: Vec<u8> = vec![
        'd' as u8, 'a' as u8, 't' as u8, 'a' as u8, ':' as u8, ' ' as u8,
    ];
    proof {
        assert(prefix@ =~= data_field_prefix());
    }
    if !starts_with(&t, &prefix) {
        proof {
            assert(events_view(evs@) =~= evs0 + line_events(line@));
        }
        return;
    }
    // the payload after `data: `
    let mut payload: Vec<u8> = Vec::new();
    let tn = t.len();
    let mut j: usize = 6;
    while j < tn
        invariant
            6 <= j <= tn == t@.len(),
            payload@ == t@.subrange(6, j as int),
        decreases tn - j,
    {
        payload.push(t[j]);
        proof {
            assert(t@.subrange(6, j as int) + seq![t@[j as int]] =~= t@.subrange(6, j + 1));
        }
        j += 1;
    }
    let done: Vec<u8> = vec![
        '[' as u8, 'D' as u8, 'O' as u8, 'N' as u8, 'E' as u8, ']' as u8,
    ];
    proof {
        assert(done@ =~= done_token());
    }
    if bytes_eq(&payload, &done) {
        evs.push(SseEvent::Done);
        proof {
            assert(events_view(evs@) =~= evs0 + seq![SseEventV::Done]);
            assert(events_view(evs@) =~= evs0 + line_events(line@));
        }
        return;
    }
    let ds = frame_deltas(&payload);
    let dn = ds.len();
    let mut k: usize = 0;
    proof {
        assert(opt_seq_view(ds@).subrange(0, 0) =~= Seq::<Option<Seq<u8>>>::empty());
        assert(events_view(evs@) =~= evs0);
    }
    while k < dn
        invariant
            dn == ds@.len(),
            k <= dn,
            opt_seq_view(ds@) == frame_deltas_of(t@.subrange(6, t@.len() as int)),
            events_view(evs@) == evs0 + deltas_events(opt_seq_view(ds@).subrange(0, k as int)),
        decreases dn - k,
    {
        let ghost dv = opt_seq_view(ds@);
        let ghost ev_prev = events_view(evs@);
        proof {
            assert(dv[k as int] == crate::bytes::opt_view(ds@[k as int]));
        }
        match &ds[k] {
            Some(d) => {
                let e = SseEvent::Delta(clone_bytes(d));
                proof {
                    assert(dv[k as int] == Some(d@));
                }
                evs.push(e);
                proof {
                    assert(events_view(evs@) =~= ev_prev + seq![SseEventV::Delta(d@)]);
                }
            }
            None => {
                proof {
                    assert(dv[k as int] is None);
                }
            }
        }
        proof {
            assert(dv.subrange(0, k + 1).drop_last() =~= dv.subrange(0, k as int));
            assert(dv.subrange(0, k + 1).last() == dv[k as int]);
            assert(events_view(evs@) =~= evs0 + deltas_events(dv.subrange(0, k + 1)));
        }
        k += 1;
    }
    proof {
        let dv = opt_seq_view(ds@);
        assert(dv.subrange(0, dn as int) =~= dv);
        assert(events_view(evs@) =~= evs0 + line_events(line@));
    }
}

} // verus!
