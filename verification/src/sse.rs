//! Framing of a response body into server-sent events.
//!
//! Lines end in LF, CR or CRLF. The `data` lines of an event are joined by LF, a blank line ends
//! the event, and an event that the body leaves unfinished is dropped. Comments and the fields
//! `event`, `id` and `retry` are passed over.
use vstd::prelude::*;
use vstd::slice::slice_subrange;

use crate::text;

verus! {

/// One event of the stream, by its data.
#[derive(Debug, Clone)]
pub struct SseEvent {
    pub data: String,
}

pub open spec fn is_line_end(c: u8) -> bool {
    c == 10 || c == 13
}

/// The number of bytes before the first line end of `b`, or the length of `b` without one.
pub open spec fn line_len(b: Seq<u8>) -> nat
    decreases b.len(),
{
    if b.len() == 0 || is_line_end(b[0]) {
        0
    } else {
        1 + line_len(b.drop_first())
    }
}

/// Where the line after the first one starts, given that the first line is `n` bytes long.
pub open spec fn next_line(b: Seq<u8>, n: int) -> int {
    if b[n] == 13 && n + 1 < b.len() && b[n + 1] == 10 {
        n + 2
    } else {
        n + 1
    }
}

/// The lines of `b` that are ended, without their line ends.
pub open spec fn lines_of(b: Seq<u8>) -> Seq<Seq<u8>>
    decreases b.len(),
{
    let n = line_len(b) as int;
    if n >= b.len() {
        Seq::empty()
    } else {
        seq![b.take(n)] + lines_of(b.skip(next_line(b, n)))
    }
}

/// `b` without the byte order mark that it may start with.
pub open spec fn without_bom(b: Seq<u8>) -> Seq<u8> {
    if b.len() >= 3 && b[0] == 0xef && b[1] == 0xbb && b[2] == 0xbf {
        b.skip(3)
    } else {
        b
    }
}

/// Whether `line` is `data` alone or starts with `data:`.
pub open spec fn is_data_line(line: Seq<u8>) -> bool {
    &&& line.len() >= 4
    &&& line[0] == 100
    &&& line[1] == 97
    &&& line[2] == 116
    &&& line[3] == 97
    &&& line.len() > 4 ==> line[4] == 58
}

/// The value of a `data` line: what follows the colon, less one leading space.
pub open spec fn data_value(line: Seq<u8>) -> Seq<u8> {
    if line.len() <= 5 {
        Seq::empty()
    } else if line[5] == 32 {
        line.skip(6)
    } else {
        line.skip(5)
    }
}

/// The payloads of the events that the lines complete, and the data collected since the last of
/// them, with an LF behind each value.
pub open spec fn collected(lines: Seq<Seq<u8>>) -> (Seq<Seq<u8>>, Seq<u8>)
    decreases lines.len(),
{
    if lines.len() == 0 {
        (Seq::empty(), Seq::empty())
    } else {
        let (events, pending) = collected(lines.drop_last());
        let line = lines.last();
        if line.len() == 0 {
            if pending.len() == 0 {
                (events, pending)
            } else {
                (events.push(pending.drop_last()), Seq::empty())
            }
        } else if is_data_line(line) {
            (events, (pending + data_value(line)).push(10))
        } else {
            (events, pending)
        }
    }
}

/// The data of the events in a response body, as bytes.
pub open spec fn payloads(body: Seq<u8>) -> Seq<Seq<u8>> {
    collected(lines_of(without_bom(body))).0
}

/// The data of the events in a response body, as text.
pub open spec fn event_texts(body: Seq<u8>) -> Seq<Seq<char>> {
    payloads(body).map_values(|p: Seq<u8>| text::utf8_lossy(p))
}

/// The bytes of each vector.
pub open spec fn bytes_of(v: Seq<Vec<u8>>) -> Seq<Seq<u8>> {
    v.map_values(|x: Vec<u8>| x@)
}

/// The data of each event.
pub open spec fn texts_of(v: Seq<SseEvent>) -> Seq<Seq<char>> {
    v.map_values(|e: SseEvent| e.data@)
}

proof fn lemma_line_len(b: Seq<u8>, n: int)
    requires
        0 <= n <= b.len(),
        forall|i: int| 0 <= i < n ==> !is_line_end(#[trigger] b[i]),
        n < b.len() ==> is_line_end(b[n]),
    ensures
        line_len(b) == n,
    decreases n,
{
    if n > 0 {
        assert forall|i: int| 0 <= i < n - 1 implies !is_line_end(#[trigger] b.drop_first()[i]) by {
            assert(b.drop_first()[i] == b[i + 1]);
        }
        lemma_line_len(b.drop_first(), n - 1);
    }
}

fn append_bytes(to: &mut Vec<u8>, from: &[u8])
    ensures
        final(to)@ == old(to)@ + from@,
{
    let mut i: usize = 0;
    while i < from.len()
        invariant
            i <= from@.len(),
            to@ == old(to)@ + from@.take(i as int),
        decreases from@.len() - i,
    {
        to.push(from[i]);
        proof {
            assert(from@.take(i + 1) == from@.take(i as int).push(from@[i as int]));
        }
        i = i + 1;
    }
    proof {
        assert(from@.take(i as int) == from@);
    }
}

fn split_lines(input: &[u8]) -> (lines: Vec<Vec<u8>>)
    ensures
        bytes_of(lines@) == lines_of(input@),
{
    let mut lines: Vec<Vec<u8>> = Vec::new();
    let mut start: usize = 0;
    let mut i: usize = 0;
    proof {
        assert(input@.skip(0) == input@);
        assert(bytes_of(lines@) + lines_of(input@) == lines_of(input@));
    }
    while i < input.len()
        invariant
            start <= i <= input@.len(),
            forall|k: int| start <= k < i ==> !is_line_end(#[trigger] input@[k]),
            bytes_of(lines@) + lines_of(input@.skip(start as int)) == lines_of(input@),
        decreases input@.len() - i,
    {
        if input[i] == 10 || input[i] == 13 {
            let line = vstd::slice::slice_to_vec(slice_subrange(input, start, i));
            let ghost before = lines@;
            let ghost rest = input@.skip(start as int);
            lines.push(line);
            let next: usize = if input[i] == 13 && i + 1 < input.len() && input[i + 1] == 10 {
                i + 2
            } else {
                i + 1
            };
            proof {
                lemma_line_len(rest, i - start);
                assert(rest.take(i - start) == line@);
                assert(rest.skip(next_line(rest, i - start)) == input@.skip(next as int));
                assert(bytes_of(lines@) == bytes_of(before).push(line@));
                assert(bytes_of(before) + (seq![line@] + lines_of(input@.skip(next as int)))
                    == bytes_of(before).push(line@) + lines_of(input@.skip(next as int)));
            }
            i = next;
            start = next;
        } else {
            i = i + 1;
        }
    }
    proof {
        let rest = input@.skip(start as int);
        lemma_line_len(rest, rest.len() as int);
        assert(bytes_of(lines@) + Seq::<Seq<u8>>::empty() == bytes_of(lines@));
    }
    lines
}

fn has_data(line: &Vec<u8>) -> (r: bool)
    ensures
        r == is_data_line(line@),
{
    line.len() >= 4 && line[0] == 100 && line[1] == 97 && line[2] == 116 && line[3] == 97 && (
    line.len() == 4 || line[4] == 58)
}

fn value_of(line: &Vec<u8>) -> (r: &[u8])
    requires
        is_data_line(line@),
    ensures
        r@ == data_value(line@),
{
    let all = line.as_slice();
    let from: usize = if line.len() <= 5 {
        line.len()
    } else if line[5] == 32 {
        6
    } else {
        5
    };
    slice_subrange(all, from, all.len())
}

/// The events of a response body.
pub fn parse_sse_events(input: &[u8]) -> (events: Vec<SseEvent>)
    ensures
        texts_of(events@) == event_texts(input@),
{
    let body = if input.len() >= 3 && input[0] == 0xef && input[1] == 0xbb && input[2] == 0xbf {
        slice_subrange(input, 3, input.len())
    } else {
        input
    };
    let lines = split_lines(body);
    let ghost all = lines_of(without_bom(input@));
    let mut events: Vec<SseEvent> = Vec::new();
    let mut pending: Vec<u8> = Vec::new();
    let ghost decode = |p: Seq<u8>| text::utf8_lossy(p);
    let mut i: usize = 0;
    proof {
        assert(body@ == without_bom(input@));
        assert(all.take(0) == Seq::<Seq<u8>>::empty());
        assert(texts_of(events@) == collected(all.take(0)).0.map_values(decode));
    }
    while i < lines.len()
        invariant
            i <= lines@.len(),
            bytes_of(lines@) == all,
            decode == (|p: Seq<u8>| text::utf8_lossy(p)),
            texts_of(events@) == collected(all.take(i as int)).0.map_values(decode),
            pending@ == collected(all.take(i as int)).1,
        decreases lines@.len() - i,
    {
        let line = &lines[i];
        let ghost before = events@;
        proof {
            assert(all[i as int] == line@);
            assert(all.take(i + 1).drop_last() == all.take(i as int));
            assert(all.take(i + 1).last() == line@);
        }
        if line.len() == 0 {
            if pending.len() > 0 {
                let payload = slice_subrange(pending.as_slice(), 0, pending.len() - 1);
                let event = SseEvent { data: text::decode_lossy(payload) };
                proof {
                    assert(payload@ == pending@.drop_last());
                }
                events.push(event);
                pending = Vec::new();
                proof {
                    assert(texts_of(events@) == texts_of(before).push(event.data@));
                    assert(collected(all.take(i + 1)).0.map_values(decode) == collected(
                        all.take(i as int),
                    ).0.map_values(decode).push(text::utf8_lossy(payload@)));
                }
            }
        } else if has_data(line) {
            append_bytes(&mut pending, value_of(line));
            pending.push(10);
        }
        i = i + 1;
    }
    proof {
        assert(all.take(i as int) == all);
    }
    events
}

/// An event with one line of data, as it is written.
pub open spec fn frame(payload: Seq<u8>) -> Seq<u8> {
    seq![100u8, 97, 116, 97, 58, 32] + payload + seq![10u8, 10]
}

/// Events with one line of data each, one after the other.
pub open spec fn framed(all: Seq<Seq<u8>>) -> Seq<u8>
    decreases all.len(),
{
    if all.len() == 0 {
        Seq::empty()
    } else {
        framed(all.drop_last()) + frame(all.last())
    }
}

proof fn lemma_first_line(b: Seq<u8>)
    ensures
        line_len(b) <= b.len(),
        forall|i: int| 0 <= i < line_len(b) ==> !is_line_end(#[trigger] b[i]),
        line_len(b) < b.len() ==> is_line_end(b[line_len(b) as int]),
    decreases b.len(),
{
    if b.len() > 0 && !is_line_end(b[0]) {
        let rest = b.drop_first();
        lemma_first_line(rest);
        assert forall|i: int| 0 <= i < line_len(b) implies !is_line_end(#[trigger] b[i]) by {
            if i > 0 {
                assert(b[i] == rest[i - 1]);
            }
        }
        if line_len(b) < b.len() {
            assert(b[line_len(b) as int] == rest[line_len(rest) as int]);
        }
    }
}

/// What is left of `b` behind a body that ends as `a` does: an LF goes with a CR before it.
spec fn behind(a: Seq<u8>, b: Seq<u8>) -> Seq<u8> {
    if a.len() > 0 && a.last() == 13 && b.len() > 0 && b[0] == 10 {
        b.skip(1)
    } else {
        b
    }
}

proof fn lemma_lines_concat(a: Seq<u8>, b: Seq<u8>)
    requires
        a.len() > 0 ==> is_line_end(a.last()),
    ensures
        lines_of(a + b) == lines_of(a) + lines_of(behind(a, b)),
    decreases a.len(),
{
    if a.len() == 0 {
        assert(a + b == b);
        assert(lines_of(a) + lines_of(b) == lines_of(b));
    } else {
        let n = line_len(a) as int;
        lemma_first_line(a);
        assert(is_line_end(a[a.len() - 1]));
        assert forall|i: int| 0 <= i < n implies !is_line_end(#[trigger] (a + b)[i]) by {
            assert((a + b)[i] == a[i]);
        }
        lemma_line_len(a + b, n);
        assert((a + b).take(n) == a.take(n));
        let next = next_line(a, n);
        if next_line(a + b, n) != next {
            // The body ends with the CR of a CRLF.
            assert(n == a.len() - 1);
            assert(a.skip(next) == Seq::<u8>::empty());
            assert((a + b).skip(n + 2) == b.skip(1));
            lemma_line_len(a.skip(next), 0);
            assert(lines_of(a.skip(next)) == Seq::<Seq<u8>>::empty());
            assert(lines_of(a) == seq![a.take(n)]);
        } else {
            let rest = a.skip(next);
            assert((a + b).skip(next) == rest + b);
            if rest.len() > 0 {
                assert(rest.last() == a.last());
            }
            lemma_lines_concat(rest, b);
            assert(seq![a.take(n)] + (lines_of(rest) + lines_of(behind(rest, b))) == (seq![
                a.take(n),
            ] + lines_of(rest)) + lines_of(behind(rest, b)));
        }
    }
}

proof fn lemma_collected_concat(a: Seq<Seq<u8>>, b: Seq<Seq<u8>>)
    requires
        collected(a).1.len() == 0,
    ensures
        collected(a + b) == (collected(a).0 + collected(b).0, collected(b).1),
    decreases b.len(),
{
    if b.len() == 0 {
        assert(a + b == a);
        assert(collected(a).0 + collected(b).0 == collected(a).0);
        assert(collected(a).1 == collected(b).1);
    } else {
        lemma_collected_concat(a, b.drop_last());
        assert((a + b).drop_last() == a + b.drop_last());
        assert((a + b).last() == b.last());
        let (events, pending) = collected(b.drop_last());
        assert(collected(a).0 + events.push(pending.drop_last()) == (collected(a).0 + events).push(
            pending.drop_last(),
        ));
    }
}

/// Whether `b` ends with an event: its last line is ended and leaves no data behind.
pub open spec fn is_complete(b: Seq<u8>) -> bool {
    &&& b.len() > 0 ==> is_line_end(b.last())
    &&& collected(lines_of(b)).1.len() == 0
}

/// What follows complete events in the middle of a body adds its payloads to theirs.
pub proof fn law_complete_events_compose(a: Seq<u8>, b: Seq<u8>)
    requires
        is_complete(a),
    ensures
        collected(lines_of(a + b)) == (
            collected(lines_of(a)).0 + collected(lines_of(b)).0,
            collected(lines_of(b)).1,
        ),
{
    let rest = behind(a, b);
    lemma_lines_concat(a, b);
    lemma_collected_concat(lines_of(a), lines_of(rest));
    if rest != b {
        // The line that the LF would end is blank, and there is no data for it to complete.
        let blank = seq![Seq::<u8>::empty()];
        lemma_line_len(b, 0);
        assert(b.take(0) == Seq::<u8>::empty());
        assert(lines_of(b) == blank + lines_of(rest));
        assert(blank.drop_last() == Seq::<Seq<u8>>::empty());
        assert(collected(blank.drop_last()) == (Seq::<Seq<u8>>::empty(), Seq::<u8>::empty()));
        assert(blank.last().len() == 0);
        lemma_collected_concat(blank, lines_of(rest));
        assert(collected(blank).0 + collected(lines_of(rest)).0 == collected(lines_of(rest)).0);
    }
}

/// Complete events stand on their own: what comes behind them is read as if they were not there,
/// and adds its payloads to theirs. Only at the start of a body a byte order mark is dropped.
pub proof fn law_complete_events_stand_alone(a: Seq<u8>, b: Seq<u8>)
    requires
        is_complete(without_bom(a)),
        a.len() == 0 ==> without_bom(b) == b,
    ensures
        payloads(a + b) == payloads(a) + collected(lines_of(b)).0,
{
    law_complete_events_compose(without_bom(a), b);
    if a.len() > 0 {
        if a.len() < 3 {
            assert(is_line_end(a[a.len() - 1]));
            assert((a + b)[a.len() - 1] == a[a.len() - 1]);
        } else {
            assert((a + b)[0] == a[0] && (a + b)[1] == a[1] && (a + b)[2] == a[2]);
        }
    } else {
        assert(a + b == b);
    }
    assert(without_bom(a + b) =~= without_bom(a) + b);
}

proof fn lemma_frame_lines(payload: Seq<u8>)
    requires
        forall|i: int| 0 <= i < payload.len() ==> !is_line_end(#[trigger] payload[i]),
    ensures
        lines_of(frame(payload)) == seq![
            seq![100u8, 97, 116, 97, 58, 32] + payload,
            Seq::<u8>::empty(),
        ],
{
    let head = seq![100u8, 97, 116, 97, 58, 32] + payload;
    let b = frame(payload);
    let n = head.len() as int;
    assert forall|i: int| 0 <= i < n implies !is_line_end(#[trigger] b[i]) by {
        if i >= 6 {
            assert(b[i] == payload[i - 6]);
        }
    }
    lemma_line_len(b, n);
    assert(b.take(n) == head);
    let rest = b.skip(n + 1);
    assert(rest == seq![10u8]);
    lemma_line_len(rest, 0);
    assert(rest.take(0) == Seq::<u8>::empty());
    let end = rest.skip(1);
    lemma_line_len(end, 0);
    assert(lines_of(end) == Seq::<Seq<u8>>::empty());
    assert(lines_of(rest) == seq![Seq::<u8>::empty()]);
    assert(lines_of(b) == seq![head] + lines_of(rest));
}

proof fn lemma_framed(all: Seq<Seq<u8>>)
    requires
        forall|k: int, i: int|
            0 <= k < all.len() && 0 <= i < all[k].len() ==> !is_line_end(#[trigger] all[k][i]),
    ensures
        collected(lines_of(framed(all))) == (all, Seq::<u8>::empty()),
        all.len() > 0 ==> framed(all).len() > 0 && framed(all).last() == 10 && framed(all)[0]
            == 100,
    decreases all.len(),
{
    if all.len() == 0 {
        lemma_line_len(framed(all), 0);
        assert(lines_of(framed(all)) == Seq::<Seq<u8>>::empty());
        assert(all == Seq::<Seq<u8>>::empty());
    } else {
        let init = all.drop_last();
        let p = all.last();
        assert forall|k: int, i: int| 0 <= k < init.len() && 0 <= i < init[k].len() implies
            !is_line_end(#[trigger] init[k][i]) by {
            assert(init[k] == all[k]);
            assert(!is_line_end(all[k][i]));
        }
        assert forall|i: int| 0 <= i < p.len() implies !is_line_end(#[trigger] p[i]) by {
            assert(p == all[all.len() - 1]);
            assert(!is_line_end(all[all.len() - 1][i]));
        }
        lemma_framed(init);
        lemma_lines_concat(framed(init), frame(p));
        lemma_frame_lines(p);
        let head = seq![100u8, 97, 116, 97, 58, 32] + p;
        let empty = Seq::<u8>::empty();
        let before = lines_of(framed(init));
        let lines = lines_of(framed(all));
        assert(lines == before + seq![head, empty]);
        assert(lines.drop_last() == before.push(head));
        assert(lines.drop_last().drop_last() == before);
        assert(lines.last() == empty);
        assert(lines.drop_last().last() == head);
        assert(data_value(head) == p);
        assert((empty + p).push(10).drop_last() == p);
        assert(collected(lines.drop_last()) == (init, (empty + p).push(10)));
        assert(collected(lines) == (init.push(p), empty));
        assert(init.push(p) == all);
        assert(framed(all).last() == frame(p).last());
        if init.len() == 0 {
            assert(framed(all)[0] == frame(p)[0]);
        } else {
            assert(framed(all)[0] == framed(init)[0]);
        }
    }
}

/// What is framed event by event is read back event by event: payloads of one line each come out
/// as they went in, in number, order and content.
pub proof fn law_frames_are_read_back(all: Seq<Seq<u8>>)
    requires
        forall|k: int, i: int|
            0 <= k < all.len() && 0 <= i < all[k].len() ==> !is_line_end(#[trigger] all[k][i]),
    ensures
        payloads(framed(all)) == all,
{
    lemma_framed(all);
    assert(without_bom(framed(all)) == framed(all));
}

/// A line as it is written: its content and its end.
pub struct Line {
    pub content: Seq<u8>,
    pub end: Seq<u8>,
}

/// Lines as they are written, one behind the other.
pub open spec fn written(lines: Seq<Line>) -> Seq<u8>
    decreases lines.len(),
{
    if lines.len() == 0 {
        Seq::empty()
    } else {
        written(lines.drop_last()) + lines.last().content + lines.last().end
    }
}

/// Whether a line holds no line end and ends in LF, CR or CRLF.
pub open spec fn is_line(l: Line) -> bool {
    &&& forall|i: int| 0 <= i < l.content.len() ==> #[trigger] l.content[i] != 10 && l.content[i]
        != 13
    &&& l.end == seq![10u8] || l.end == seq![13u8] || l.end == seq![13u8, 10u8]
}

/// Whether lines can be told apart: an LF behind a CR would belong to it.
pub open spec fn are_lines(lines: Seq<Line>) -> bool {
    &&& forall|k: int| 0 <= k < lines.len() ==> is_line(#[trigger] lines[k])
    &&& forall|k: int|
        0 <= k < lines.len() - 1 && (#[trigger] lines[k]).end == seq![13u8] ==> !(lines[k
            + 1].content.len() == 0 && lines[k + 1].end == seq![10u8])
}

proof fn lemma_one_line(l: Line)
    requires
        is_line(l),
    ensures
        lines_of(l.content + l.end) == seq![l.content],
{
    let b = l.content + l.end;
    let n = l.content.len() as int;
    assert forall|i: int| 0 <= i < n implies !is_line_end(#[trigger] b[i]) by {
        assert(b[i] == l.content[i]);
    }
    assert(b[n] == l.end[0]);
    if l.end.len() == 2 {
        assert(b[n + 1] == l.end[1]);
    }
    lemma_line_len(b, n);
    assert(b.take(n) == l.content);
    let rest = b.skip(next_line(b, n));
    assert(rest == Seq::<u8>::empty());
    lemma_line_len(rest, 0);
    assert(lines_of(rest) == Seq::<Seq<u8>>::empty());
    assert(lines_of(b) == seq![l.content]);
}

/// The lines of a body are those that were written, whichever line ends they have.
pub proof fn law_lines_are_read_back(lines: Seq<Line>)
    requires
        are_lines(lines),
    ensures
        lines_of(written(lines)) == lines.map_values(|l: Line| l.content),
        lines.len() > 0 ==> written(lines).len() > 0 && written(lines).last()
            == lines.last().end.last(),
    decreases lines.len(),
{
    if lines.len() == 0 {
        assert(written(lines) == Seq::<u8>::empty());
        lemma_line_len(written(lines), 0);
        assert(lines_of(written(lines)) =~= lines.map_values(|l: Line| l.content));
    } else {
        let init = lines.drop_last();
        let l = lines.last();
        let a = written(init);
        let b = l.content + l.end;
        assert(forall|k: int| 0 <= k < init.len() ==> #[trigger] init[k] == lines[k]);
        assert(l == lines[lines.len() - 1]);
        assert(is_line(l));
        assert forall|k: int|
            0 <= k < init.len() - 1 && (#[trigger] init[k]).end == seq![13u8] implies !(init[k
            + 1].content.len() == 0 && init[k + 1].end == seq![10u8]) by {
            assert(init[k] == lines[k]);
            assert(init[k + 1] == lines[k + 1]);
        }
        law_lines_are_read_back(init);
        lemma_one_line(l);
        assert(written(lines) == a + b);
        if init.len() > 0 {
            let p = init.last();
            assert(p == lines[init.len() - 1]);
            assert(is_line(p));
            if p.end.last() == 13 && b[0] == 10 {
                assert(p.end == seq![13u8]);
                if l.content.len() > 0 {
                    assert(b[0] == l.content[0]);
                } else {
                    assert(b[0] == l.end[0]);
                }
                assert(false);
            }
        }
        lemma_lines_concat(a, b);
        assert(lines_of(written(lines)) =~= lines.map_values(|x: Line| x.content));
        assert(written(lines).last() == l.end.last());
    }
}

/// What stands behind the last line end is no line.
pub proof fn law_an_unended_line_is_no_line(a: Seq<u8>, tail: Seq<u8>)
    requires
        a.len() > 0 ==> a.last() == 10 || a.last() == 13,
        forall|i: int| 0 <= i < tail.len() ==> #[trigger] tail[i] != 10 && tail[i] != 13,
    ensures
        lines_of(a + tail) == lines_of(a),
{
    lemma_lines_concat(a, tail);
    lemma_line_len(tail, tail.len() as int);
    assert(lines_of(tail) == Seq::<Seq<u8>>::empty());
    assert(lines_of(a) + lines_of(tail) == lines_of(a));
}

/// The data in a line: what is behind `data:` and one space, or behind `data:` without one, and
/// nothing in the line `data`. Other lines have none.
pub open spec fn data_in(line: Seq<u8>) -> Option<Seq<u8>> {
    let field = seq![100u8, 97, 116, 97];
    if line == field {
        Some(Seq::empty())
    } else if line.len() >= 6 && line.take(6) == field + seq![58u8, 32] {
        Some(line.skip(6))
    } else if line.len() >= 5 && line.take(5) == field + seq![58u8] {
        Some(line.skip(5))
    } else {
        None
    }
}

/// The data in lines, in their order.
pub open spec fn data_of_lines(lines: Seq<Seq<u8>>) -> Seq<Seq<u8>>
    decreases lines.len(),
{
    if lines.len() == 0 {
        Seq::empty()
    } else {
        match data_in(lines.last()) {
            Some(data) => data_of_lines(lines.drop_last()).push(data),
            None => data_of_lines(lines.drop_last()),
        }
    }
}

/// Values with an LF between each two of them.
pub open spec fn joined_by_lf(values: Seq<Seq<u8>>) -> Seq<u8>
    decreases values.len(),
{
    if values.len() == 0 {
        Seq::empty()
    } else if values.len() == 1 {
        values[0]
    } else {
        joined_by_lf(values.drop_last()).push(10) + values.last()
    }
}

proof fn lemma_data_in(line: Seq<u8>)
    ensures
        is_data_line(line) <==> data_in(line) is Some,
        data_in(line) matches Some(data) ==> data == data_value(line),
{
    let field = seq![100u8, 97, 116, 97];
    if is_data_line(line) {
        if line.len() == 4 {
            assert(line =~= field);
        } else {
            assert(line.take(5) =~= field + seq![58u8]);
            if line.len() >= 6 && line[5] == 32 {
                assert(line.take(6) =~= field + seq![58u8, 32]);
            }
            if line.len() == 5 {
                assert(line.skip(5) =~= Seq::<u8>::empty());
            }
        }
    }
    if line.len() >= 6 && line.take(6) == field + seq![58u8, 32] {
        assert forall|i: int| 0 <= i < 6 implies line[i] == (field + seq![58u8, 32])[i] by {
            assert(line.take(6)[i] == line[i]);
        }
        assert(line[0] == 100 && line[1] == 97 && line[2] == 116 && line[3] == 97 && line[4] == 58
            && line[5] == 32);
    } else if line.len() >= 5 && line.take(5) == field + seq![58u8] {
        assert forall|i: int| 0 <= i < 5 implies line[i] == (field + seq![58u8])[i] by {
            assert(line.take(5)[i] == line[i]);
        }
        assert(line[0] == 100 && line[1] == 97 && line[2] == 116 && line[3] == 97 && line[4] == 58);
        if line.len() >= 6 && line[5] == 32 {
            assert(line.take(6) =~= field + seq![58u8, 32]);
        }
    }
}

proof fn lemma_event_lines(group: Seq<Seq<u8>>)
    requires
        forall|k: int| 0 <= k < group.len() ==> (#[trigger] group[k]).len() > 0,
    ensures
        collected(group).0.len() == 0,
        collected(group).1 == (if data_of_lines(group).len() == 0 {
            Seq::empty()
        } else {
            joined_by_lf(data_of_lines(group)).push(10)
        }),
    decreases group.len(),
{
    if group.len() > 0 {
        let init = group.drop_last();
        let line = group.last();
        assert(forall|k: int| 0 <= k < init.len() ==> #[trigger] init[k] == group[k]);
        assert(line == group[group.len() - 1]);
        lemma_event_lines(init);
        lemma_data_in(line);
        if let Some(data) = data_in(line) {
            let values = data_of_lines(init);
            let more = data_of_lines(group);
            assert(more.drop_last() == values);
            if values.len() == 0 {
                assert(Seq::<u8>::empty() + data == data);
            }
        }
    }
}

/// A blank line completes an event: its payload is the data of the lines since the last one,
/// joined by LF. Lines without data complete none, and so does a body that ends before the blank
/// line.
pub proof fn law_blank_lines_complete_events(before: Seq<Seq<u8>>, group: Seq<Seq<u8>>)
    requires
        collected(before).1.len() == 0,
        forall|k: int| 0 <= k < group.len() ==> (#[trigger] group[k]).len() > 0,
    ensures
        collected(before + group).0 == collected(before).0,
        ({
            let (events, pending) = collected(before + group + seq![Seq::<u8>::empty()]);
            &&& pending.len() == 0
            &&& events == (if data_of_lines(group).len() == 0 {
                collected(before).0
            } else {
                collected(before).0.push(joined_by_lf(data_of_lines(group)))
            })
        }),
{
    let blank = seq![Seq::<u8>::empty()];
    let all = group + blank;
    lemma_event_lines(group);
    lemma_collected_concat(before, group);
    assert(collected(before).0 + collected(group).0 == collected(before).0);
    assert(before + group + blank == before + all);
    lemma_collected_concat(before, all);
    assert(all.drop_last() == group);
    assert(all.last().len() == 0);
    let payload = joined_by_lf(data_of_lines(group));
    if data_of_lines(group).len() > 0 {
        assert(payload.push(10).drop_last() == payload);
        assert(collected(group).0.push(payload) == seq![payload]);
        assert(collected(all).0 == seq![payload]);
        assert(collected(before).0 + seq![payload] == collected(before).0.push(payload));
    } else {
        assert(collected(all) == collected(group));
    }
}

/// The payloads of a body are those that its lines complete, behind the byte order mark that it
/// may start with.
pub proof fn law_payloads_come_from_the_lines(b: Seq<u8>)
    ensures
        payloads(seq![0xefu8, 0xbb, 0xbf] + b) == collected(lines_of(b)).0,
        !(b.len() >= 3 && b[0] == 0xef && b[1] == 0xbb && b[2] == 0xbf) ==> payloads(b) == collected(
            lines_of(b),
        ).0,
        collected(Seq::<Seq<u8>>::empty()) == (Seq::<Seq<u8>>::empty(), Seq::<u8>::empty()),
{
    assert((seq![0xefu8, 0xbb, 0xbf] + b).skip(3) == b);
}

} // verus!
