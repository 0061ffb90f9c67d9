//! The limit on concurrent streams, kept by every state of a connection.
use vstd::prelude::*;

use crate::conn::{
    active_count, ascending, body_octets, content_length_check, dispatch_spec, emit,
    end_of_request, finish_headers_spec, flush_each, flush_sends_spec, flush_stream_spec,
    frame_bytes, has_flag, initial_session, on_continuation, on_data, on_headers, process_spec,
    put_stream, response_block, run_spec, u31_of, unpadded, waiting_ids, with_state,
    increasing, move_windows, moved_window, AssemblyView, ConnView, SessionView, MAX_CONCURRENT,
    WINDOW_CEILING,
};
use crate::frame::{flag, next_frame_spec, FrameHeader, FrameType};
use crate::hpack::decoder::decode_block;
use crate::settings::{apply_payload, u32_octets};
use crate::stream::{new_stream, trailers_ok, validate_spec};
use crate::stream::{is_active, State, StreamView};

verus! {

/// The streams that count towards the limit.
pub open spec fn active_set(m: Map<u32, StreamView>) -> Set<u32> {
    m.dom().filter(|k: u32| is_active(m[k].state))
}

proof fn lemma_active_set(m: Map<u32, StreamView>)
    ensures
        active_count(m) == active_set(m).len(),
        m.dom().finite() ==> active_set(m).finite(),
{
    assert(active_set(m) =~= m.dom().filter(|k: u32| is_active(m[k].state)));
}

/// Filing a stream adds to the count only where it makes an active
/// stream out of one that was not.
proof fn lemma_active_count_put(m: Map<u32, StreamView>, k: u32, v: StreamView)
    requires
        m.dom().finite(),
    ensures
        m.insert(k, v).dom().finite(),
        active_count(m.insert(k, v)) <= active_count(m) + (if is_active(v.state) && !(
        m.contains_key(k) && is_active(m[k].state)) {
            1int
        } else {
            0
        }),
        m.contains_key(k) && (is_active(v.state) == is_active(m[k].state)) ==> active_count(
            m.insert(k, v),
        ) == active_count(m),
{
    let m2 = m.insert(k, v);
    lemma_active_set(m);
    lemma_active_set(m2);
    let s = active_set(m);
    let s2 = active_set(m2);
    if is_active(v.state) {
        assert(s2 =~= s.insert(k));
    } else {
        assert(s2 =~= s.remove(k));
    }
}

/// `a` put into its place among the increasing `t`.
spec fn insert_sorted(t: Seq<u32>, a: u32) -> Seq<u32>
    decreases t.len(),
{
    if t.len() == 0 {
        seq![a]
    } else if a < t[0] {
        seq![a] + t
    } else {
        seq![t[0]] + insert_sorted(t.drop_first(), a)
    }
}

proof fn lemma_insert_sorted(t: Seq<u32>, a: u32)
    requires
        increasing(t),
        !t.contains(a),
    ensures
        increasing(insert_sorted(t, a)),
        insert_sorted(t, a).to_set() == t.to_set().insert(a),
        insert_sorted(t, a).len() > 0,
        insert_sorted(t, a)[0] == a || (t.len() > 0 && insert_sorted(t, a)[0] == t[0]),
    decreases t.len(),
{
    let r = insert_sorted(t, a);
    if t.len() == 0 {
        assert forall|x: u32| r.to_set().contains(x) <==> t.to_set().insert(a).contains(x) by {
            assert(r[0] == a);
            if t.to_set().contains(x) {
                let q = choose|q: int| 0 <= q < t.len() && t[q] == x;
            }
        }
        assert(r.to_set() =~= t.to_set().insert(a));
    } else if a < t[0] {
        assert forall|i: int, j: int| 0 <= i < j < r.len() implies r[i] < r[j] by {
            if i > 0 {
                assert(r[i] == t[i - 1] && r[j] == t[j - 1]);
            } else {
                assert(r[j] == t[j - 1]);
                assert(t[0] <= t[j - 1]);
            }
        }
        assert forall|x: u32| r.to_set().contains(x) <==> t.to_set().insert(a).contains(x) by {
            if r.to_set().contains(x) {
                let q = choose|q: int| 0 <= q < r.len() && r[q] == x;
                if q > 0 {
                    assert(t[q - 1] == x);
                }
            }
            if t.to_set().contains(x) {
                let q = choose|q: int| 0 <= q < t.len() && t[q] == x;
                assert(r[q + 1] == x);
            }
            if x == a {
                assert(r[0] == a);
            }
        }
        assert(r.to_set() =~= t.to_set().insert(a));
    } else {
        let t1 = t.drop_first();
        assert forall|i: int, j: int| 0 <= i < j < t1.len() implies t1[i] < t1[j] by {
            assert(t1[i] == t[i + 1] && t1[j] == t[j + 1]);
        }
        assert(!t1.contains(a)) by {
            if t1.contains(a) {
                let q = choose|q: int| 0 <= q < t1.len() && t1[q] == a;
                assert(t[q + 1] == a);
            }
        }
        lemma_insert_sorted(t1, a);
        let r1 = insert_sorted(t1, a);
        assert(t[0] != a) by {
            assert(t[0] == t[0]);
            if t[0] == a {
                assert(t.contains(a));
            }
        }
        assert forall|i: int, j: int| 0 <= i < j < r.len() implies r[i] < r[j] by {
            if i == 0 {
                assert(r[j] == r1[j - 1]);
                assert(r1.to_set().contains(r1[j - 1]));
                assert(t1.to_set().insert(a).contains(r1[j - 1]));
                if r1[j - 1] != a {
                    let q = choose|q: int| 0 <= q < t1.len() && t1[q] == r1[j - 1];
                    assert(t[q + 1] == t1[q]);
                }
            } else {
                assert(r[i] == r1[i - 1] && r[j] == r1[j - 1]);
            }
        }
        assert forall|x: u32| r.to_set().contains(x) <==> t.to_set().insert(a).contains(x) by {
            if r.to_set().contains(x) {
                let q = choose|q: int| 0 <= q < r.len() && r[q] == x;
                if q > 0 {
                    assert(r1.to_set().contains(r1[q - 1]));
                    if x != a {
                        assert(t1.to_set().contains(x));
                        let w = choose|w: int| 0 <= w < t1.len() && t1[w] == x;
                        assert(t[w + 1] == x);
                    }
                } else {
                    assert(t[0] == x);
                }
            }
            if t.to_set().insert(a).contains(x) {
                if x == t[0] {
                    assert(r[0] == x);
                } else {
                    if x != a {
                        let q = choose|q: int| 0 <= q < t.len() && t[q] == x;
                        assert(q != 0);
                        assert(t1[q - 1] == x);
                        assert(t1.to_set().contains(x));
                    }
                    assert(r1.to_set().contains(x));
                    let w = choose|w: int| 0 <= w < r1.len() && r1[w] == x;
                    assert(r[w + 1] == x);
                }
            }
        }
        assert(r.to_set() =~= t.to_set().insert(a));
    }
}

/// Every finite set of identifiers has an increasing enumeration.
proof fn lemma_ascending_exists(set: Set<u32>)
    requires
        set.finite(),
    ensures
        increasing(ascending(set)),
        ascending(set).to_set() == set,
    decreases set.len(),
{
    if set.len() == 0 {
        assert(set =~= Set::<u32>::empty());
        assert(Seq::<u32>::empty().to_set() =~= set);
        assert(increasing(Seq::<u32>::empty()));
    } else {
        let a = set.choose();
        let rest = set.remove(a);
        lemma_ascending_exists(rest);
        let t = ascending(rest);
        assert(!t.contains(a)) by {
            if t.contains(a) {
                let q = choose|q: int| 0 <= q < t.len() && t[q] == a;
                assert(t.to_set().contains(a));
            }
        }
        lemma_insert_sorted(t, a);
        assert(rest.insert(a) =~= set);
        let w = insert_sorted(t, a);
        assert(increasing(w) && w.to_set() == set);
    }
}

/// Moving send windows changes no stream's state, nor what it has to
/// send.
proof fn lemma_move_windows_ok(c: SessionView, ids: Seq<u32>, delta: int)
    requires
        streams_ok(c),
        forall|i: int| 0 <= i < ids.len() ==> c.streams.contains_key(#[trigger] ids[i]),
    ensures
        streams_ok(SessionView { streams: move_windows(c.streams, ids, delta).0, ..c }),
    decreases ids.len(),
{
    if ids.len() > 0 {
        let k = ids[0];
        let s1 = moved_window(c.streams[k], delta);
        lemma_active_count_put(c.streams, k, s1);
        let c1 = SessionView { streams: c.streams.insert(k, s1), ..c };
        assert(streams_ok(c1));
        if c.streams[k].send_window + delta <= WINDOW_CEILING {
            assert forall|i: int| 0 <= i < ids.drop_first().len() implies c1.streams.contains_key(
                #[trigger] ids.drop_first()[i],
            ) by {
                assert(ids.drop_first()[i] == ids[i + 1]);
            }
            lemma_move_windows_ok(c1, ids.drop_first(), delta);
        }
    }
}

/// The shape of a connection's streams: finitely many, at most
/// MAX_CONCURRENT of them open or half closed, nothing waiting to be sent
/// on an open stream, and the stream of a header block being received open.
pub open spec fn streams_ok(c: SessionView) -> bool {
    &&& c.streams.dom().finite()
    &&& active_count(c.streams) <= MAX_CONCURRENT
    &&& forall|k: u32|
        #[trigger] c.streams.contains_key(k) && c.streams[k].state == State::Open
            ==> c.streams[k].pending.len() == 0
    &&& c.assembly matches Some(a) ==> c.streams.contains_key(a.stream_id)
        && c.streams[a.stream_id].state == State::Open
}

proof fn lemma_flush_stream_ok(c: SessionView, id: u32)
    requires
        streams_ok(c),
    ensures
        streams_ok(flush_stream_spec(c, id)),
        active_count(flush_stream_spec(c, id).streams) <= active_count(c.streams),
        flush_stream_spec(c, id).assembly == c.assembly,
    decreases
            (if c.streams.contains_key(id) {
                c.streams[id].pending.len()
            } else {
                0
            }),
{
    if c.streams.contains_key(id) {
        let s = c.streams[id];
        let window = if s.send_window < c.send_window {
            s.send_window as int
        } else {
            c.send_window as int
        };
        let remaining = s.pending.len() as int;
        let take0 = if window < remaining {
            window
        } else {
            remaining
        };
        let take = if take0 < c.remote.max_frame_size {
            take0
        } else {
            c.remote.max_frame_size as int
        };
        if remaining != 0 && take > 0 {
            let rest = s.pending.skip(take);
            let last = rest.len() == 0;
            let s1 = StreamView { pending: rest, send_window: (s.send_window - take) as i64, ..s };
            let c1 = SessionView {
                streams: c.streams.insert(id, s1),
                send_window: (c.send_window - take) as i64,
                out: c.out + frame_bytes(
                    FrameType::Data,
                    if last {
                        flag::END_STREAM
                    } else {
                        0
                    },
                    id,
                    s.pending.take(take),
                ),
                ..c
            };
            lemma_active_count_put(c.streams, id, s1);
            if last {
                let s2 = StreamView { finished: true, state: State::Closed, ..s1 };
                lemma_active_count_put(c1.streams, id, s2);
                assert(c1.streams.insert(id, s2) =~= c.streams.insert(id, s2));
                assert(flush_stream_spec(c, id) == put_stream(c1, id, s2));
            } else {
                assert(flush_stream_spec(c, id) == flush_stream_spec(c1, id));
                lemma_flush_stream_ok(c1, id);
            }
        }
    }
}

proof fn lemma_flush_each_ok(c: SessionView, ids: Seq<u32>)
    requires
        streams_ok(c),
    ensures
        streams_ok(flush_each(c, ids)),
        flush_each(c, ids).assembly == c.assembly,
    decreases ids.len(),
{
    if ids.len() > 0 {
        lemma_flush_stream_ok(c, ids[0]);
        lemma_flush_each_ok(flush_stream_spec(c, ids[0]), ids.drop_first());
    }
}

proof fn lemma_end_of_request_ok(c: SessionView, id: u32)
    requires
        streams_ok(c),
        c.assembly is None,
        c.streams.contains_key(id) ==> is_active(c.streams[id].state),
    ensures
        streams_ok(end_of_request(c, id).0),
        end_of_request(c, id).0.assembly is None,
{
    if content_length_check(c, id) is Ok {
        let c1 = with_state(c, id, State::HalfClosedRemote);
        if c.streams.contains_key(id) {
            lemma_active_count_put(c.streams, id, StreamView { state: State::HalfClosedRemote, ..c.streams[id] });
        }
        let c2 = emit(c1, frame_bytes(FrameType::Headers, flag::END_HEADERS, id, response_block()));
        let c3 = if c2.streams.contains_key(id) {
            let s3 = StreamView {
                headers_sent: true,
                pending: body_octets(),
                state: State::HalfClosedLocal,
                ..c2.streams[id]
            };
            lemma_active_count_put(c2.streams, id, s3);
            put_stream(c2, id, s3)
        } else {
            c2
        };
        assert(streams_ok(c3));
        lemma_flush_stream_ok(c3, id);
    }
}

proof fn lemma_finish_headers_ok(c: SessionView, a: AssemblyView)
    requires
        streams_ok(c),
        c.assembly is None,
        c.streams.contains_key(a.stream_id),
        c.streams[a.stream_id].state == State::Open,
    ensures
        streams_ok(finish_headers_spec(c, a).0),
{
    let id = a.stream_id;
    let (decoded, table) = decode_block(c.table, a.block);
    let c1 = SessionView { table, ..c };
    if let Some(hs) = decoded {
        if !a.trailers {
            if let Ok(req) = validate_spec(id, hs) {
                let s2 = StreamView { content_length: req.content_length, ..c1.streams[id] };
                lemma_active_count_put(c1.streams, id, s2);
                let c2 = put_stream(c1, id, s2);
                if a.end_stream {
                    lemma_end_of_request_ok(c2, id);
                }
            }
        } else if trailers_ok(hs) && a.end_stream {
            lemma_end_of_request_ok(c1, id);
        }
    }
}

proof fn lemma_on_headers_ok(c: SessionView, h: FrameHeader, payload: Seq<u8>)
    requires
        streams_ok(c),
        c.assembly is None,
    ensures
        streams_ok(on_headers(c, h, payload).0),
{
    let id = h.stream_id;
    let trailers = c.streams.contains_key(id);
    if id != 0 && id % 2 != 0 && id >= c.highest && !(trailers && c.streams[id].state
        != State::Open) && !(trailers && !has_flag(h, flag::END_STREAM)) && !(!trailers
        && active_count(c.streams) >= MAX_CONCURRENT) {
        let c1 = SessionView { highest: id, ..c };
        if let Ok(body) = unpadded(payload, has_flag(h, flag::PADDED)) {
            let prioritized = has_flag(h, flag::PRIORITY);
            if !(prioritized && body.len() < 5) && !(prioritized && u31_of(body) == id) {
                let block = if prioritized {
                    body.skip(5)
                } else {
                    body
                };
                let c2 = if trailers {
                    c1
                } else {
                    let s = StreamView {
                        state: State::Open,
                        ..new_stream(id, c.remote.initial_window_size as i64)
                    };
                    lemma_active_count_put(c1.streams, id, s);
                    put_stream(c1, id, s)
                };
                let a = AssemblyView {
                    stream_id: id,
                    block,
                    end_stream: has_flag(h, flag::END_STREAM),
                    trailers,
                };
                if has_flag(h, flag::END_HEADERS) {
                    lemma_finish_headers_ok(c2, a);
                }
            }
        }
    }
}

proof fn lemma_on_continuation_ok(c: SessionView, h: FrameHeader, payload: Seq<u8>)
    requires
        streams_ok(c),
    ensures
        streams_ok(on_continuation(c, h, payload).0),
{
    if let Some(a) = c.assembly {
        let c1 = SessionView { assembly: None, ..c };
        if a.stream_id == h.stream_id && has_flag(h, flag::END_HEADERS) {
            lemma_finish_headers_ok(c1, AssemblyView { block: a.block + payload, ..a });
        }
    }
}

proof fn lemma_on_data_ok(c: SessionView, h: FrameHeader, payload: Seq<u8>)
    requires
        streams_ok(c),
        c.assembly is None,
    ensures
        streams_ok(on_data(c, h, payload).0),
{
    let id = h.stream_id;
    if id != 0 && h.length <= c.recv_window && c.streams.contains_key(id) && c.streams[id].state
        != State::Idle && c.streams[id].state != State::Closed && c.streams[id].state
        != State::HalfClosedRemote {
        if let Ok(body) = unpadded(payload, has_flag(h, flag::PADDED)) {
            let s = c.streams[id];
            let s1 = StreamView {
                data_received: ((s.data_received + body.len()) % 0x1_0000_0000_0000_0000) as u64,
                ..s
            };
            lemma_active_count_put(c.streams, id, s1);
            let c1 = put_stream(c, id, s1);
            let c2 = if h.length > 0 {
                emit(
                    c1,
                    frame_bytes(
                        FrameType::WindowUpdate,
                        0,
                        0,
                        u32_octets((h.length % 0x8000_0000) as u32),
                    ),
                )
            } else {
                c1
            };
            if has_flag(h, flag::END_STREAM) {
                lemma_end_of_request_ok(c2, id);
            }
        }
    }
}

proof fn lemma_dispatch_ok(c: SessionView, f: (FrameHeader, Seq<u8>))
    requires
        streams_ok(c),
    ensures
        streams_ok(dispatch_spec(c, f).0),
{
    let h = f.0;
    let payload = f.1;
    if !(c.assembly is Some && h.kind != FrameType::Continuation) && !(!c.saw_first_settings
        && h.kind != FrameType::Settings) {
        match h.kind {
            FrameType::Settings => {
                let (next, r) = apply_payload(c.remote, payload);
                let delta = next.initial_window_size - c.remote.initial_window_size;
                let ids = ascending(c.streams.dom());
                lemma_ascending_exists(c.streams.dom());
                assert forall|i: int| 0 <= i < ids.len() implies c.streams.contains_key(
                    #[trigger] ids[i],
                ) by {
                    assert(ids.to_set().contains(ids[i]));
                }
                lemma_move_windows_ok(c, ids, delta);
            },
            FrameType::WindowUpdate => {
                if c.streams.contains_key(h.stream_id) {
                    let s = c.streams[h.stream_id];
                    lemma_active_count_put(
                        c.streams,
                        h.stream_id,
                        StreamView { send_window: (s.send_window + u31_of(payload)) as i64, ..s },
                    );
                }
            },
            FrameType::RstStream => {
                if c.streams.contains_key(h.stream_id) {
                    lemma_active_count_put(
                        c.streams,
                        h.stream_id,
                        StreamView {
                            state: State::Closed,
                            finished: true,
                            pending: Seq::empty(),
                            ..c.streams[h.stream_id]
                        },
                    );
                }
            },
            FrameType::Headers => lemma_on_headers_ok(c, h, payload),
            FrameType::Continuation => lemma_on_continuation_ok(c, h, payload),
            FrameType::Data => lemma_on_data_ok(c, h, payload),
            _ => {},
        }
    }
}

proof fn lemma_process_ok(c: SessionView, pending: Seq<u8>, max: u32)
    requires
        streams_ok(c),
    ensures
        streams_ok(process_spec(c, pending, max).0),
    decreases pending.len(),
{
    if let Ok(Some((f, rest))) = next_frame_spec(pending, max) {
        lemma_dispatch_ok(c, f);
        let (c2, r) = dispatch_spec(c, f);
        if r is Ok {
            lemma_flush_each_ok(c2, waiting_ids(c2, ascending(c2.streams.dom())));
            lemma_process_ok(flush_sends_spec(c2), rest, max);
        }
    }
}

/// A new connection keeps the limit on concurrent streams.
pub proof fn lemma_initial_streams_ok()
    ensures
        streams_ok(initial_session()),
{
    assert(initial_session().streams.dom() =~= Set::<u32>::empty());
    assert(active_set(initial_session().streams) =~= Set::<u32>::empty());
    lemma_active_set(initial_session().streams);
}

/// No more than MAX_CONCURRENT streams are ever open or half closed: from
/// a state that keeps the limit, handling any octets received keeps it,
/// whatever the frames and whatever their outcome.
pub proof fn lemma_stream_limit(v: ConnView, received: Seq<u8>)
    requires
        streams_ok(v.session),
    ensures
        streams_ok(run_spec(v, received).0.session),
        active_count(run_spec(v, received).0.session.streams) <= MAX_CONCURRENT,
{
    lemma_process_ok(v.session, v.input.pending + received, v.input.max_frame_size);
}

} // verus!
