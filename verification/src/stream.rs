//! Reading a streamed chat reply: network chunks are cut into lines, each
//! line is decoded as a JSON event (native Ollama NDJSON, or Server-Sent
//! Events of an OpenAI-compatible engine ending with `data: [DONE]`), the
//! text deltas go through the reasoning-block filter, and what remains
//! visible is handed out and gathered into the reply.
use vstd::prelude::*;
use vstd::string::StrSliceExecFns;

use crate::chat::{scan, ThinkStreamFilter};
use crate::mime::{lossy_string, utf8_lossy};
use crate::import_common::string_views;
use crate::text::{
    chars_of, extend_vec, find, find_char, lemma_find_bound, lit, slice_vec,
    starts_with_vec, string_of, trim, trim_start_str, trim_start_str_vec, trim_vec,
};

verus! {

/// What `serde_json::from_str::<serde_json::Value>` followed by the lookup
/// `message.content` (as a string) gives for one line of a native Ollama
/// stream: `Err` with the parser's message for invalid JSON, `Ok(None)` when
/// the path is absent or not a string.
pub uninterp spec fn ollama_delta(line: Seq<char>) -> Result<Option<Seq<char>>, Seq<char>>;

/// The same for an OpenAI-compatible event, with the lookup
/// `choices[0].delta.content`.
pub uninterp spec fn openai_delta(line: Seq<char>) -> Result<Option<Seq<char>>, Seq<char>>;

pub open spec fn delta_view(r: Result<Option<String>, String>) -> Result<Option<Seq<char>>, Seq<char>> {
    match r {
        Ok(Some(s)) => Ok(Some(s@)),
        Ok(None) => Ok(None),
        Err(e) => Err(e@),
    }
}

/// Parses one native Ollama stream line with `serde_json::from_str` into a
/// `serde_json::Value` and reads `message.content` with `Value::get` and
/// `Value::as_str`; the result is `ollama_delta` of the line.
#[verifier::external_body]
fn parse_ollama_delta(line: &str) -> (r: Result<Option<String>, String>)
    ensures
        delta_view(r) == ollama_delta(line@),
{
    match serde_json::from_str::<serde_json::Value>(line) {
        Ok(v) => Ok(v.get("message").and_then(|m| m.get("content")).and_then(|c| c.as_str()).map(
            |c| c.to_string(),
        )),
        Err(e) => Err(e.to_string()),
    }
}

/// Parses one OpenAI-compatible event with `serde_json::from_str` into a
/// `serde_json::Value` and reads `choices[0].delta.content` with
/// `Value::get` and `Value::as_str`; the result is `openai_delta` of the line.
#[verifier::external_body]
fn parse_openai_delta(line: &str) -> (r: Result<Option<String>, String>)
    ensures
        delta_view(r) == openai_delta(line@),
{
    match serde_json::from_str::<serde_json::Value>(line) {
        Ok(v) => Ok(v.get("choices").and_then(|c| c.get(0)).and_then(|c| c.get("delta")).and_then(
            |d| d.get("content"),
        ).and_then(|c| c.as_str()).map(|c| c.to_string())),
        Err(e) => Err(e.to_string()),
    }
}

/// `"data:"`, the prefix of a Server-Sent Event line.
pub open spec fn data_prefix() -> Seq<char> {
    seq!['d', 'a', 't', 'a', ':']
}

/// `"[DONE]"`, the last event of an OpenAI-compatible stream.
pub open spec fn done_marker() -> Seq<char> {
    seq!['[', 'D', 'O', 'N', 'E', ']']
}

/// The JSON payload of a stream line, `None` for a blank line: the trimmed
/// line, with the `"data:"` prefixes (and the spaces after them) removed for
/// an OpenAI-compatible stream.
pub open spec fn line_payload(line: Seq<char>, openai: bool) -> Option<Seq<char>> {
    let t = trim(line);
    if t.len() == 0 {
        None
    } else if openai {
        Some(trim(trim_start_str(t, data_prefix())))
    } else {
        Some(t)
    }
}

pub open spec fn invalid_stream(e: Seq<char>) -> Seq<char> {
    "respuesta en streaming inválida: "@ + e
}

/// The text delta of a payload, or the error that ends the reply.
pub open spec fn payload_delta(p: Seq<char>, openai: bool) -> Result<Option<Seq<char>>, Seq<char>> {
    let r = if openai {
        openai_delta(p)
    } else {
        ollama_delta(p)
    };
    match r {
        Ok(d) => Ok(d),
        Err(e) => Err(invalid_stream(e)),
    }
}

/// Where a run over buffered text stops: the error that ended the reply (if
/// any), whether the end-of-stream event was seen, the visible deltas handed
/// out, the text after the last complete line, and the filter's state.
pub type FeedView = (Option<Seq<char>>, bool, Seq<Seq<char>>, Seq<char>, (Seq<char>, bool));

/// Processes the complete lines of `buf` one by one: blank lines are
/// skipped, `[DONE]` ends the stream (OpenAI style), every other line is a
/// JSON event whose text delta goes through the reasoning filter; each
/// non-empty visible piece is one delta.
pub open spec fn feed_lines(
    buf: Seq<char>,
    openai: bool,
    deltas: Seq<Seq<char>>,
    filter: (Seq<char>, bool),
) -> FeedView
    decreases buf.len(),
{
    proof {
        lemma_find_bound(buf, seq!['\n']);
    }
    match find(buf, seq!['\n']) {
        None => (None, false, deltas, buf, filter),
        Some(pos) => {
            let rest = buf.skip(pos + 1);
            match line_payload(buf.take(pos + 1), openai) {
                None => feed_lines(rest, openai, deltas, filter),
                Some(p) => if openai && p == done_marker() {
                    (None, true, deltas, rest, filter)
                } else {
                    match payload_delta(p, openai) {
                        Err(e) => (Some(e), false, deltas, rest, filter),
                        Ok(None) => feed_lines(rest, openai, deltas, filter),
                        Ok(Some(c)) => {
                            let s = scan(filter.0 + c, filter.1);
                            let d2 = if s.0.len() > 0 {
                                deltas.push(s.0)
                            } else {
                                deltas
                            };
                            feed_lines(rest, openai, d2, (s.1, s.2))
                        },
                    }
                },
            }
        },
    }
}

/// Every delta, in order.
pub open spec fn joined(ds: Seq<Seq<char>>) -> Seq<char>
    decreases ds.len(),
{
    if ds.len() == 0 {
        seq![]
    } else {
        joined(ds.drop_last()) + ds.last()
    }
}

/// The reader of one streamed reply.
pub struct StreamDecoder {
    openai: bool,
    leftover: Vec<char>,
    filter: ThinkStreamFilter,
    reply: String,
    finished: bool,
}

impl View for StreamDecoder {
    /// Whether the engine speaks the OpenAI format, the text after the last
    /// complete line, the filter's state, the visible reply so far, and
    /// whether the end-of-stream event was seen.
    type V = (bool, Seq<char>, (Seq<char>, bool), Seq<char>, bool);

    closed spec fn view(&self) -> Self::V {
        (self.openai, self.leftover@, self.filter@, self.reply@, self.finished)
    }
}

impl StreamDecoder {
    /// A reader for a reply in the native Ollama format (`openai == false`)
    /// or in the OpenAI-compatible one.
    pub fn new(openai: bool) -> (d: Self)
        ensures
            d@ == (openai, Seq::<char>::empty(), (Seq::<char>::empty(), false), Seq::<char>::empty(), false),
    {
        StreamDecoder {
            openai,
            leftover: Vec::new(),
            filter: ThinkStreamFilter::new(),
            reply: String::new(),
            finished: false,
        }
    }

    /// Whether the end-of-stream event was seen: no more chunks are read.
    pub fn is_finished(&self) -> (b: bool)
        ensures
            b == self@.4,
    {
        self.finished
    }

    /// The visible reply gathered so far.
    pub fn reply(&self) -> (r: String)
        ensures
            r@ == self@.3,
    {
        self.reply.clone()
    }

    /// Ends the reply once the stream is over: the visible text the reasoning
    /// filter was still holding (a tail that turned out not to start
    /// `"<think>"`; nothing of an unclosed reasoning block) is handed out as
    /// a last delta, possibly empty, and added to the reply; the filter is
    /// left empty.
    pub fn finish(&mut self) -> (tail: String)
        ensures
            tail@ == crate::chat::visible(old(self)@.2.0, old(self)@.2.1),
            final(self)@ == (
                old(self)@.0,
                old(self)@.1,
                (Seq::<char>::empty(), false),
                old(self)@.3 + tail@,
                old(self)@.4,
            ),
    {
        let tail = self.filter.flush();
        self.reply.push_str(tail.as_str());
        tail
    }

    /// Takes the next network chunk (decoded as lossy UTF-8, as it arrives)
    /// and returns the visible deltas it completes, in order; they are also
    /// added to the reply. An invalid event ends the reply with an error.
    pub fn feed(&mut self, chunk: &[u8]) -> (r: Result<Vec<String>, String>)
        requires
            !old(self)@.4,
        ensures
            ({
                let f = feed_lines(
                    old(self)@.1 + utf8_lossy(chunk@),
                    old(self)@.0,
                    seq![],
                    old(self)@.2,
                );
                &&& match r {
                    Ok(ds) => f.0 is None && string_views(ds@) == f.2,
                    Err(e) => f.0 == Some(e@),
                }
                &&& final(self)@ == (old(self)@.0, f.3, f.4, old(self)@.3 + joined(f.2), f.1)
            }),
    {
        let text = lossy_string(chunk);
        let tv = chars_of(text.as_str());
        let mut buf = slice_vec(&self.leftover, 0, self.leftover.len());
        extend_vec(&mut buf, &tv);
        let ghost target = feed_lines(buf@, self.openai, seq![], self.filter@);
        let ghost reply0 = self.reply@;
        assert(buf@ =~= old(self)@.1 + utf8_lossy(chunk@));
        let data = lit("data:");
        let done = lit("[DONE]");
        proof {
            reveal_strlit("data:");
            reveal_strlit("[DONE]");
        }
        assert(data@ =~= data_prefix());
        assert(done@ =~= done_marker());
        let mut deltas: Vec<String> = Vec::new();
        assert(string_views(deltas@) =~= Seq::<Seq<char>>::empty());
        assert(reply0 + joined(string_views(deltas@)) =~= reply0);
        let mut finished = false;
        let ghost openai = self.openai;
        let mut err: Option<String> = None;
        loop
            invariant_except_break
                openai == self.openai,
                data@ == data_prefix(),
                done@ == done_marker(),
                !finished,
                err is None,
                target == feed_lines(buf@, openai, string_views(deltas@), self.filter@),
                self.reply@ == reply0 + joined(string_views(deltas@)),
            ensures
                openai == self.openai,
                self.reply@ == reply0 + joined(string_views(deltas@)),
                target.0 == match err {
                    Some(e) => Some(e@),
                    None => None,
                },
                err is None ==> target == (
                    None::<Seq<char>>,
                    finished,
                    string_views(deltas@),
                    buf@,
                    self.filter@,
                ),
                err is Some ==> target.2 == string_views(deltas@) && target.3 == buf@
                    && target.4 == self.filter@ && !finished && !target.1,
            decreases buf@.len(),
        {
            proof {
                lemma_find_bound(buf@, seq!['\n']);
            }
            let pos = match find_char(&buf, '\n') {
                None => {
                    break ;
                },
                Some(p) => p,
            };
            let len = buf.len();
            let line = slice_vec(&buf, 0, pos + 1);
            let rest = slice_vec(&buf, pos + 1, len);
            assert(line@ =~= buf@.take(pos + 1));
            assert(rest@ =~= buf@.skip(pos + 1));
            buf = rest;
            let t = trim_vec(&line);
            if t.len() == 0 {
                continue ;
            }
            let payload = if self.openai {
                trim_vec(&trim_start_str_vec(&t, &data))
            } else {
                t
            };
            if self.openai && payload.len() == done.len() && starts_with_vec(&payload, &done) {
                assert(payload@ =~= done_marker());
                finished = true;
                break ;
            }
            proof {
                if self.openai {
                    assert(payload@ != done_marker());
                }
            }
            let ps = string_of(&payload);
            let parsed = if self.openai {
                parse_openai_delta(ps.as_str())
            } else {
                parse_ollama_delta(ps.as_str())
            };
            match parsed {
                Err(e) => {
                    let mut msg = "respuesta en streaming inválida: ".to_owned();
                    msg.push_str(e.as_str());
                    err = Some(msg);
                    break ;
                },
                Ok(None) => {},
                Ok(Some(c)) => {
                    let vis = self.filter.push(c.as_str());
                    if vis.as_str().unicode_len() > 0 {
                        self.reply.push_str(vis.as_str());
                        let ghost before = string_views(deltas@);
                        deltas.push(vis);
                        assert(string_views(deltas@) =~= before.push(vis@));
                        assert(string_views(deltas@).drop_last() =~= before);
                    } else {
                        proof {
                            assert(vis@ =~= Seq::<char>::empty());
                        }
                    }
                },
            }
        }
        self.leftover = buf;
        self.finished = finished;
        match err {
            Some(e) => Err(e),
            None => Ok(deltas),
        }
    }
}

// ---------------------------------------------------------------------------
// Laws
// ---------------------------------------------------------------------------

/// Line framing does not depend on where the network cut the text: running
/// the lines of `x` and then, with the text left after its last complete
/// line, the lines of `y`, ends exactly where running the lines of `x + y`
/// at once ends, as long as the run over `x` neither failed nor saw the end
/// of the stream. The same deltas are handed out, in the same order, and the
/// reply gathered from them is the same.
pub proof fn law_framing_ignores_chunking(
    x: Seq<char>,
    y: Seq<char>,
    openai: bool,
    deltas: Seq<Seq<char>>,
    filter: (Seq<char>, bool),
)
    requires
        feed_lines(x, openai, deltas, filter).0 is None,
        !feed_lines(x, openai, deltas, filter).1,
    ensures
        ({
            let r = feed_lines(x, openai, deltas, filter);
            feed_lines(x + y, openai, deltas, filter) == feed_lines(r.3 + y, openai, r.2, r.4)
        }),
    decreases x.len(),
{
    lemma_find_bound(x, seq!['\n']);
    match find(x, seq!['\n']) {
        None => {},
        Some(pos) => {
            crate::text::lemma_find_extend(x, y, seq!['\n']);
            lemma_find_bound(x + y, seq!['\n']);
            assert((x + y).take(pos + 1) =~= x.take(pos + 1));
            assert((x + y).skip(pos + 1) =~= x.skip(pos + 1) + y);
            let rest = x.skip(pos + 1);
            match line_payload(x.take(pos + 1), openai) {
                None => {
                    law_framing_ignores_chunking(rest, y, openai, deltas, filter);
                },
                Some(p) => {
                    if !(openai && p == done_marker()) {
                        match payload_delta(p, openai) {
                            Err(_) => {},
                            Ok(None) => {
                                law_framing_ignores_chunking(rest, y, openai, deltas, filter);
                            },
                            Ok(Some(c)) => {
                                let sc = scan(filter.0 + c, filter.1);
                                let d2 = if sc.0.len() > 0 {
                                    deltas.push(sc.0)
                                } else {
                                    deltas
                                };
                                law_framing_ignores_chunking(rest, y, openai, d2, (sc.1, sc.2));
                            },
                        }
                    }
                },
            }
        },
    }
}

/// The text deltas carried by the complete lines of `buf`, in order, up to
/// an invalid event or the end-of-stream event.
pub open spec fn line_contents(buf: Seq<char>, openai: bool) -> Seq<Seq<char>>
    decreases buf.len(),
{
    proof {
        lemma_find_bound(buf, seq!['\n']);
    }
    match find(buf, seq!['\n']) {
        None => seq![],
        Some(pos) => {
            let rest = buf.skip(pos + 1);
            match line_payload(buf.take(pos + 1), openai) {
                None => line_contents(rest, openai),
                Some(p) => if openai && p == done_marker() {
                    seq![]
                } else {
                    match payload_delta(p, openai) {
                        Err(_) => seq![],
                        Ok(None) => line_contents(rest, openai),
                        Ok(Some(c)) => seq![c] + line_contents(rest, openai),
                    }
                },
            }
        },
    }
}

proof fn lemma_feed_runs_filter(
    buf: Seq<char>,
    openai: bool,
    deltas: Seq<Seq<char>>,
    filter: (Seq<char>, bool),
)
    requires
        feed_lines(buf, openai, deltas, filter).0 is None,
    ensures
        ({
            let r = feed_lines(buf, openai, deltas, filter);
            let run = crate::chat::run_pushes(filter.0, filter.1, line_contents(buf, openai));
            &&& joined(r.2) == joined(deltas) + run.0
            &&& r.4 == (run.1, run.2)
        }),
    decreases buf.len(),
{
    lemma_find_bound(buf, seq!['\n']);
    match find(buf, seq!['\n']) {
        None => {
            assert(line_contents(buf, openai) =~= Seq::<Seq<char>>::empty());
            assert(joined(deltas) + Seq::<char>::empty() =~= joined(deltas));
        },
        Some(pos) => {
            let rest = buf.skip(pos + 1);
            match line_payload(buf.take(pos + 1), openai) {
                None => {
                    lemma_feed_runs_filter(rest, openai, deltas, filter);
                },
                Some(p) => {
                    if openai && p == done_marker() {
                        assert(line_contents(buf, openai) =~= Seq::<Seq<char>>::empty());
                        assert(joined(deltas) + Seq::<char>::empty() =~= joined(deltas));
                    } else {
                        match payload_delta(p, openai) {
                            Err(_) => {},
                            Ok(None) => {
                                lemma_feed_runs_filter(rest, openai, deltas, filter);
                            },
                            Ok(Some(c)) => {
                                let sc = scan(filter.0 + c, filter.1);
                                let d2 = if sc.0.len() > 0 {
                                    deltas.push(sc.0)
                                } else {
                                    deltas
                                };
                                lemma_feed_runs_filter(rest, openai, d2, (sc.1, sc.2));
                                if sc.0.len() > 0 {
                                    assert(d2.drop_last() =~= deltas);
                                    assert(joined(d2) == joined(deltas) + sc.0);
                                } else {
                                    assert(joined(deltas) + sc.0 =~= joined(deltas));
                                }
                                let lc = line_contents(buf, openai);
                                let lr = line_contents(rest, openai);
                                assert(lc == seq![c] + lr);
                                assert(lc[0] == c);
                                assert(lc.drop_first() =~= lr);
                                let tail = crate::chat::run_pushes(sc.1, sc.2, lr);
                                assert(joined(deltas) + sc.0 + tail.0 =~= joined(deltas) + (sc.0
                                    + tail.0));
                            },
                        }
                    }
                },
            }
        },
    }
}

/// What the reader hands out, followed by whatever its filter still holds,
/// shows exactly the text outside reasoning blocks of all the text deltas
/// the stream carried, whatever comes next: no reasoning leaks into the
/// reply and no visible text is lost, however the events were chunked.
pub proof fn law_reply_is_the_visible_text(
    buf: Seq<char>,
    openai: bool,
    filter: (Seq<char>, bool),
    rest: Seq<char>,
)
    requires
        feed_lines(buf, openai, seq![], filter).0 is None,
    ensures
        ({
            let r = feed_lines(buf, openai, seq![], filter);
            crate::chat::visible(
                filter.0 + crate::chat::concat_all(line_contents(buf, openai)) + rest,
                filter.1,
            ) == joined(r.2) + crate::chat::visible(r.4.0 + rest, r.4.1)
        }),
{
    lemma_feed_runs_filter(buf, openai, seq![], filter);
    crate::chat::law_stream_shows_visible_text(filter.0, filter.1, line_contents(buf, openai), rest);
    let run = crate::chat::run_pushes(filter.0, filter.1, line_contents(buf, openai));
    assert(joined(Seq::<Seq<char>>::empty()) + run.0 =~= run.0);
}

/// A reply read to its end: a new reader fed the stream and then finished
/// (`finish` adds the visible text the filter still holds) has gathered
/// exactly the text outside reasoning blocks of every text delta the stream
/// carried up to its end-of-stream event; a final `'<'` or `"<th"` outside
/// any block is part of it.
pub proof fn law_finished_reply_is_the_visible_text(buf: Seq<char>, openai: bool)
    requires
        feed_lines(buf, openai, seq![], (Seq::<char>::empty(), false)).0 is None,
    ensures
        ({
            let r = feed_lines(buf, openai, seq![], (Seq::<char>::empty(), false));
            joined(r.2) + crate::chat::visible(r.4.0, r.4.1) == crate::chat::visible(
                crate::chat::concat_all(line_contents(buf, openai)),
                false,
            )
        }),
{
    let e = Seq::<char>::empty();
    law_reply_is_the_visible_text(buf, openai, (e, false), e);
    let r = feed_lines(buf, openai, seq![], (e, false));
    let c = crate::chat::concat_all(line_contents(buf, openai));
    assert(e + c + e =~= c);
    assert(r.4.0 + e =~= r.4.0);
}

} // verus!
