//! Chat messages, the rendering shown in the hybrid-mode preview, and the
//! streaming filter that hides `<think>...</think>` reasoning blocks even when
//! a tag arrives split across network chunks.
use vstd::prelude::*;
use vstd::string::StringSliceAdditionalSpecFns;

use crate::text::{
    chars_of, extend_vec, find, find_vec, lemma_find, lemma_find_after, lemma_find_bound,
    lemma_find_extend, lemma_match_at_ext, lit, match_at, matches_at, slice_vec, string_of,
};

verus! {

/// One message of a chat history (`role` is `system`, `user` or `assistant`).
pub struct ChatMessage {
    pub role: String,
    pub content: String,
}

impl ChatMessage {
    pub fn new(role: String, content: String) -> (m: ChatMessage)
        ensures
            m.role@ == role@,
            m.content@ == content@,
    {
        ChatMessage { role, content }
    }

    /// A copy of the message, field by field.
    pub fn duplicate(&self) -> (m: ChatMessage)
        ensures
            m.role@ == self.role@,
            m.content@ == self.content@,
    {
        ChatMessage { role: self.role.clone(), content: self.content.clone() }
    }
}

/// `"[role]\ncontent"`.
pub open spec fn render_one(m: ChatMessage) -> Seq<char> {
    seq!['['] + m.role@ + seq![']', '\n'] + m.content@
}

/// The rendered messages joined by a blank line (`"\n\n"`).
pub open spec fn render_all(ms: Seq<ChatMessage>) -> Seq<char>
    decreases ms.len(),
{
    if ms.len() == 0 {
        seq![]
    } else if ms.len() == 1 {
        render_one(ms[0])
    } else {
        render_all(ms.drop_last()) + seq!['\n', '\n'] + render_one(ms.last())
    }
}

/// The exact text of a message list as the user reviews it before a send:
/// each message as `"[role]\ncontent"`, separated by a blank line.
pub fn render_messages(messages: &[ChatMessage]) -> (r: String)
    ensures
        r@ == render_all(messages@),
{
    let mut out = String::new();
    let mut i: usize = 0;
    while i < messages.len()
        invariant
            i <= messages@.len(),
            out@ == render_all(messages@.take(i as int)),
        decreases messages.len() - i,
    {
        let m = &messages[i];
        if i > 0 {
            out.push('\n');
            out.push('\n');
        }
        out.push('[');
        out.push_str(m.role.as_str());
        out.push(']');
        out.push('\n');
        out.push_str(m.content.as_str());
        proof {
            let t = messages@.take(i + 1);
            assert(t.drop_last() =~= messages@.take(i as int));
            assert(t.last() == messages@[i as int]);
            if i == 0 {
                assert(out@ =~= render_one(messages@[0]));
            } else {
                assert(out@ =~= render_all(messages@.take(i as int)) + seq!['\n', '\n'] + render_one(
                    messages@[i as int],
                ));
            }
        }
        i += 1;
    }
    assert(messages@.take(messages.len() as int) =~= messages@);
    out
}

// ---------------------------------------------------------------------------
// Hiding reasoning blocks in a stream
// ---------------------------------------------------------------------------

/// `"<think>"`.
pub open spec fn open_tag() -> Seq<char> {
    seq!['<', 't', 'h', 'i', 'n', 'k', '>']
}

/// `"</think>"`.
pub open spec fn close_tag() -> Seq<char> {
    seq!['<', '/', 't', 'h', 'i', 'n', 'k', '>']
}

/// The text of `s` that a reader sees: everything outside
/// `<think>...</think>` blocks; an unclosed block hides the rest. `in_think`
/// says whether `s` starts inside a block.
pub open spec fn visible(s: Seq<char>, in_think: bool) -> Seq<char>
    decreases s.len(),
{
    proof {
        lemma_find_bound(s, close_tag());
        lemma_find_bound(s, open_tag());
    }
    if in_think {
        match find(s, close_tag()) {
            Some(j) => visible(s.skip(j + 8), false),
            None => seq![],
        }
    } else {
        match find(s, open_tag()) {
            Some(i) => s.take(i) + visible(s.skip(i + 7), true),
            None => s,
        }
    }
}

/// The last `k` characters of `b` are the first `k` characters of `"<think>"`
/// (`1 <= k <= 6`): the tag may be arriving split.
pub open spec fn tag_tail(b: Seq<char>, k: int) -> bool {
    1 <= k <= 6 && k <= b.len() && b.skip(b.len() - k) == open_tag().take(k)
}

/// Largest `k <= from` for which `tag_tail(b, k)` holds, or 0.
pub open spec fn held_from(b: Seq<char>, from: int) -> int
    decreases from,
{
    if from <= 0 {
        0
    } else if tag_tail(b, from) {
        from
    } else {
        held_from(b, from - 1)
    }
}

/// How many characters at the end of `b` must wait for the next chunk
/// because they could be the start of `"<think>"`.
pub open spec fn held(b: Seq<char>) -> int {
    held_from(b, 6)
}

/// What one call of `push` does to the pending text `t` (previous buffer
/// followed by the new chunk) in mode `in_think`: the text it emits, the text
/// it keeps, and the mode it ends in.
pub open spec fn scan(t: Seq<char>, in_think: bool) -> (Seq<char>, Seq<char>, bool)
    decreases t.len(),
{
    proof {
        lemma_find_bound(t, close_tag());
        lemma_find_bound(t, open_tag());
    }
    if in_think {
        match find(t, close_tag()) {
            Some(j) => scan(t.skip(j + 8), false),
            None => (seq![], t, true),
        }
    } else {
        match find(t, open_tag()) {
            Some(i) => {
                let r = scan(t.skip(i + 7), true);
                (t.take(i) + r.0, r.1, r.2)
            },
            None => {
                let k = held(t);
                (t.take(t.len() - k), t.skip(t.len() - k), false)
            },
        }
    }
}

proof fn lemma_held_from(b: Seq<char>, from: int)
    requires
        from <= 6,
    ensures
        0 <= held_from(b, from) <= (if from < 0 {
            0
        } else {
            from
        }),
        held_from(b, from) > 0 ==> tag_tail(b, held_from(b, from)),
        forall|k: int| held_from(b, from) < k <= from ==> !#[trigger] tag_tail(b, k),
    decreases from,
{
    if from > 0 && !tag_tail(b, from) {
        lemma_held_from(b, from - 1);
    }
}

/// `held(b)` is the longest tail of `b` that starts `"<think>"`.
pub proof fn lemma_held(b: Seq<char>)
    ensures
        0 <= held(b) <= 6,
        held(b) <= b.len(),
        held(b) > 0 ==> tag_tail(b, held(b)),
        forall|k: int| held(b) < k <= 6 ==> !#[trigger] tag_tail(b, k),
{
    lemma_held_from(b, 6);
}

/// A match of `"<think>"` in `b + c` that starts before the held tail is
/// impossible when `b` has no complete tag.
proof fn lemma_no_early_open(b: Seq<char>, c: Seq<char>)
    requires
        find(b, open_tag()) is None,
    ensures
        forall|j: int| 0 <= j < b.len() - held(b) ==> !#[trigger] match_at(b + c, open_tag(), j),
{
    lemma_find(b, open_tag());
    lemma_held(b);
    let n = b.len();
    assert forall|j: int| 0 <= j < n - held(b) implies !#[trigger] match_at(b + c, open_tag(), j) by {
        if match_at(b + c, open_tag(), j) {
            if j + 7 <= n {
                lemma_match_at_ext(b, b + c, open_tag(), j);
            } else {
                let k = n - j;
                assert(1 <= k <= 6);
                assert(b.skip(n - k) =~= open_tag().take(k)) by {
                    assert forall|x: int| 0 <= x < k implies b.skip(n - k)[x] == open_tag().take(
                        k,
                    )[x] by {
                        assert((b + c).subrange(j, j + 7)[x] == open_tag()[x]);
                    }
                }
                assert(tag_tail(b, k));
            }
        }
    }
}

/// Emitting what `scan` emits and keeping what it keeps loses nothing: for
/// any text `c` still to come, the visible text is the same.
pub proof fn lemma_scan_continues(t: Seq<char>, in_think: bool, c: Seq<char>)
    ensures
        visible(t + c, in_think) == scan(t, in_think).0 + visible(scan(t, in_think).1 + c, scan(
            t,
            in_think,
        ).2),
    decreases t.len(),
{
    lemma_find_bound(t, close_tag());
    lemma_find_bound(t, open_tag());
    if in_think {
        match find(t, close_tag()) {
            Some(j) => {
                lemma_find_extend(t, c, close_tag());
                assert((t + c).skip(j + 8) =~= t.skip(j + 8) + c);
                lemma_scan_continues(t.skip(j + 8), false, c);
            },
            None => {
                assert(seq![] + visible(t + c, true) =~= visible(t + c, true));
            },
        }
    } else {
        match find(t, open_tag()) {
            Some(i) => {
                lemma_find_extend(t, c, open_tag());
                assert((t + c).skip(i + 7) =~= t.skip(i + 7) + c);
                assert((t + c).take(i) =~= t.take(i));
                lemma_scan_continues(t.skip(i + 7), true, c);
                let r = scan(t.skip(i + 7), true);
                assert(t.take(i) + (r.0 + visible(r.1 + c, r.2)) =~= (t.take(i) + r.0) + visible(
                    r.1 + c,
                    r.2,
                ));
            },
            None => {
                lemma_held(t);
                let n = t.len();
                let d = n - held(t);
                lemma_no_early_open(t, c);
                lemma_find_after(t + c, open_tag(), d);
                let u = t.skip(d) + c;
                assert((t + c).skip(d) =~= u);
                match find(u, open_tag()) {
                    Some(x) => {
                        lemma_find_bound(u, open_tag());
                        assert((t + c).take(x + d) =~= t.take(d) + u.take(x));
                        assert((t + c).skip(x + d + 7) =~= u.skip(x + 7));
                        assert(t.take(d) + (u.take(x) + visible(u.skip(x + 7), true)) =~= (
                        t.take(d) + u.take(x)) + visible(u.skip(x + 7), true));
                    },
                    None => {
                        assert(t + c =~= t.take(d) + u);
                    },
                }
            },
        }
    }
}

/// What `scan` keeps back: outside a block, a proper start of `"<think>"`
/// (at most six characters); inside one, text without `"</think>"`.
pub proof fn lemma_scan_held(t: Seq<char>, in_think: bool)
    ensures
        !scan(t, in_think).2 ==> scan(t, in_think).1.len() <= 6 && scan(t, in_think).1 == open_tag().take(
            scan(t, in_think).1.len() as int,
        ),
        scan(t, in_think).2 ==> find(scan(t, in_think).1, close_tag()) is None,
    decreases t.len(),
{
    lemma_find_bound(t, close_tag());
    lemma_find_bound(t, open_tag());
    if in_think {
        if let Some(j) = find(t, close_tag()) {
            lemma_scan_held(t.skip(j + 8), false);
        }
    } else {
        match find(t, open_tag()) {
            Some(i) => {
                lemma_scan_held(t.skip(i + 7), true);
            },
            None => {
                lemma_held(t);
                let k = held(t);
                if k == 0 {
                    assert(t.skip(t.len() - k) =~= open_tag().take(0));
                }
            },
        }
    }
}

proof fn lemma_held_of_suffix(t: Seq<char>, c: Seq<char>)
    requires
        find(t, open_tag()) is None,
    ensures
        held(t + c) == held(t.skip(t.len() - held(t)) + c),
{
    lemma_held(t);
    let n = t.len();
    let d = n - held(t);
    let u = t.skip(d) + c;
    let w = t + c;
    assert(w =~= t.take(d) + u);
    lemma_held(w);
    lemma_held(u);
    assert forall|k: int| 1 <= k <= 6 implies #[trigger] tag_tail(w, k) == tag_tail(u, k) by {
        if k <= u.len() {
            assert(w.skip(w.len() - k) =~= u.skip(u.len() - k));
        } else if tag_tail(w, k) {
            let m = k - c.len();
            assert(held(t) < m <= 6);
            assert(m <= n);
            assert(t.skip(n - m) =~= open_tag().take(m)) by {
                assert forall|x: int| 0 <= x < m implies t.skip(n - m)[x] == open_tag().take(m)[x] by {
                    assert(w.skip(w.len() - k)[x] == open_tag().take(k)[x]);
                    assert(w[w.len() - k + x] == t[n - m + x]);
                }
            }
            assert(tag_tail(t, m));
        }
    }
    if held(w) > held(u) {
        assert(tag_tail(w, held(w)));
        assert(tag_tail(u, held(w)));
    }
    if held(u) > held(w) {
        assert(tag_tail(u, held(u)));
        assert(tag_tail(w, held(u)));
    }
}

/// One `scan` over `t + c` does what a `scan` over `t` followed by a `scan`
/// over what it kept plus `c` does.
pub proof fn lemma_scan_split(t: Seq<char>, c: Seq<char>, in_think: bool)
    ensures
        ({
            let s1 = scan(t, in_think);
            let s2 = scan(s1.1 + c, s1.2);
            scan(t + c, in_think) == (s1.0 + s2.0, s2.1, s2.2)
        }),
    decreases t.len(),
{
    lemma_find_bound(t, close_tag());
    lemma_find_bound(t, open_tag());
    if in_think {
        match find(t, close_tag()) {
            Some(j) => {
                lemma_find_extend(t, c, close_tag());
                assert((t + c).skip(j + 8) =~= t.skip(j + 8) + c);
                lemma_scan_split(t.skip(j + 8), c, false);
            },
            None => {
                assert(Seq::<char>::empty() + scan(t + c, true).0 =~= scan(t + c, true).0);
            },
        }
    } else {
        match find(t, open_tag()) {
            Some(i) => {
                lemma_find_extend(t, c, open_tag());
                assert((t + c).skip(i + 7) =~= t.skip(i + 7) + c);
                assert((t + c).take(i) =~= t.take(i));
                lemma_scan_split(t.skip(i + 7), c, true);
                let r = scan(t.skip(i + 7), true);
                let s2 = scan(r.1 + c, r.2);
                assert(t.take(i) + (r.0 + s2.0) =~= (t.take(i) + r.0) + s2.0);
            },
            None => {
                lemma_held(t);
                let n = t.len();
                let d = n - held(t);
                let u = t.skip(d) + c;
                let w = t + c;
                lemma_no_early_open(t, c);
                lemma_find_after(w, open_tag(), d);
                assert(w.skip(d) =~= u);
                lemma_find_bound(u, open_tag());
                match find(u, open_tag()) {
                    Some(x) => {
                        assert(w.take(x + d) =~= t.take(d) + u.take(x));
                        assert(w.skip(x + d + 7) =~= u.skip(x + 7));
                        let r = scan(u.skip(x + 7), true);
                        assert(t.take(d) + (u.take(x) + r.0) =~= (t.take(d) + u.take(x)) + r.0);
                    },
                    None => {
                        lemma_held_of_suffix(t, c);
                        lemma_held(u);
                        let k = held(u);
                        assert(w.take(w.len() - k) =~= t.take(d) + u.take(u.len() - k));
                        assert(w.skip(w.len() - k) =~= u.skip(u.len() - k));
                    },
                }
            },
        }
    }
}

/// Every character of a sequence of chunks, in order.
pub open spec fn concat_all(chunks: Seq<Seq<char>>) -> Seq<char>
    decreases chunks.len(),
{
    if chunks.len() == 0 {
        seq![]
    } else {
        chunks[0] + concat_all(chunks.drop_first())
    }
}

/// Feeds `chunks` one `push` at a time from the state `(buffer, in_think)`:
/// everything emitted, and the final state.
pub open spec fn run_pushes(buffer: Seq<char>, in_think: bool, chunks: Seq<Seq<char>>) -> (
    Seq<char>,
    Seq<char>,
    bool,
)
    decreases chunks.len(),
{
    if chunks.len() == 0 {
        (seq![], buffer, in_think)
    } else {
        let s = scan(buffer + chunks[0], in_think);
        let r = run_pushes(s.1, s.2, chunks.drop_first());
        (s.0 + r.0, r.1, r.2)
    }
}

/// One more push after a series of pushes: `run_pushes` over the chunks
/// with one more at the end emits what the series emitted followed by what
/// `push` (whose contract is one `scan`) emits for the new chunk, and ends
/// in the state that push leaves (`law_separate_pushes` applies this to n
/// calls).
pub proof fn law_one_more_push(buffer: Seq<char>, in_think: bool, chunks: Seq<Seq<char>>, c: Seq<char>)
    ensures
        ({
            let r = run_pushes(buffer, in_think, chunks);
            let s = scan(r.1 + c, r.2);
            run_pushes(buffer, in_think, chunks.push(c)) == (r.0 + s.0, s.1, s.2)
        }),
    decreases chunks.len(),
{
    let all = chunks.push(c);
    if chunks.len() == 0 {
        assert(all.drop_first() =~= Seq::<Seq<char>>::empty());
        assert(all[0] == c);
        let s = scan(buffer + c, in_think);
        assert(run_pushes(s.1, s.2, all.drop_first()) == (Seq::<char>::empty(), s.1, s.2));
        assert(run_pushes(buffer, in_think, chunks) == (Seq::<char>::empty(), buffer, in_think));
        assert(s.0 + Seq::<char>::empty() =~= s.0);
        assert(Seq::<char>::empty() + s.0 =~= s.0);
    } else {
        let s0 = scan(buffer + chunks[0], in_think);
        assert(all[0] == chunks[0]);
        assert(all.drop_first() =~= chunks.drop_first().push(c));
        law_one_more_push(s0.1, s0.2, chunks.drop_first(), c);
        let rr = run_pushes(s0.1, s0.2, chunks.drop_first());
        let s = scan(rr.1 + c, rr.2);
        assert(run_pushes(s0.1, s0.2, all.drop_first()) == run_pushes(
            s0.1,
            s0.2,
            chunks.drop_first().push(c),
        ));
        assert(run_pushes(buffer, in_think, all) == (
            s0.0 + run_pushes(s0.1, s0.2, all.drop_first()).0,
            run_pushes(s0.1, s0.2, all.drop_first()).1,
            run_pushes(s0.1, s0.2, all.drop_first()).2,
        ));
        assert(s0.0 + (rr.0 + s.0) =~= (s0.0 + rr.0) + s.0);
    }
}

/// Law of the stream filter: over any sequence of chunks, what the pushes
/// emit, followed by whatever the filter still holds, shows exactly the text
/// outside `<think>...</think>` blocks of the whole stream, whatever comes
/// next. No tag split across chunks ever leaks, and no visible text is lost.
pub proof fn law_stream_shows_visible_text(
    buffer: Seq<char>,
    in_think: bool,
    chunks: Seq<Seq<char>>,
    rest: Seq<char>,
)
    ensures
        ({
            let r = run_pushes(buffer, in_think, chunks);
            visible(buffer + concat_all(chunks) + rest, in_think) == r.0 + visible(r.1 + rest, r.2)
        }),
    decreases chunks.len(),
{
    if chunks.len() == 0 {
        assert(buffer + concat_all(chunks) + rest =~= buffer + rest);
        assert(seq![] + visible(buffer + rest, in_think) =~= visible(buffer + rest, in_think));
    } else {
        let s = scan(buffer + chunks[0], in_think);
        let tail = concat_all(chunks.drop_first()) + rest;
        assert(buffer + concat_all(chunks) + rest =~= (buffer + chunks[0]) + tail);
        lemma_scan_continues(buffer + chunks[0], in_think, tail);
        law_stream_shows_visible_text(s.1, s.2, chunks.drop_first(), rest);
        assert(s.1 + concat_all(chunks.drop_first()) + rest =~= s.1 + tail);
        let r = run_pushes(s.1, s.2, chunks.drop_first());
        assert(s.0 + (r.0 + visible(r.1 + rest, r.2)) =~= (s.0 + r.0) + visible(r.1 + rest, r.2));
    }
}

/// A stream without any `'<'` comes out unchanged, except for nothing: the
/// filter emits it all and holds nothing back.
pub proof fn law_plain_text_passes(t: Seq<char>)
    requires
        !t.contains('<'),
    ensures
        scan(t, false) == (t, Seq::<char>::empty(), false),
{
    lemma_find(t, open_tag());
    if let Some(i) = find(t, open_tag()) {
        assert(t.subrange(i, i + 7)[0] == '<');
        assert(t.contains(t[i]));
    }
    lemma_held(t);
    if held(t) > 0 {
        let k = held(t);
        assert(t.skip(t.len() - k)[0] == open_tag().take(k)[0]);
        assert(t[t.len() - k] == '<');
    }
    assert(t.take(t.len() as int) =~= t);
    assert(t.skip(t.len() as int) =~= Seq::<char>::empty());
}

/// How the stream was cut into chunks makes no difference: from any state
/// the filter can be in (a new one, or one left by a push), the pushes emit,
/// in total, what one push of the whole text would emit, and end in the
/// same state.
pub proof fn law_pushes_ignore_chunking(buffer: Seq<char>, in_think: bool, chunks: Seq<Seq<char>>)
    requires
        scan(buffer, in_think) == (Seq::<char>::empty(), buffer, in_think),
    ensures
        run_pushes(buffer, in_think, chunks) == scan(buffer + concat_all(chunks), in_think),
    decreases chunks.len(),
{
    if chunks.len() == 0 {
        assert(buffer + concat_all(chunks) =~= buffer);
    } else {
        let s = scan(buffer + chunks[0], in_think);
        lemma_scan_held(buffer + chunks[0], in_think);
        scan_of_held(s.1, s.2);
        law_pushes_ignore_chunking(s.1, s.2, chunks.drop_first());
        let rest = concat_all(chunks.drop_first());
        lemma_scan_split(buffer + chunks[0], rest, in_think);
        assert(buffer + concat_all(chunks) =~= (buffer + chunks[0]) + rest);
    }
}

/// A kept tail scanned again with nothing new stays as it is.
proof fn scan_of_held(h: Seq<char>, in_think: bool)
    requires
        !in_think ==> h.len() <= 6 && h == open_tag().take(h.len() as int),
        in_think ==> find(h, close_tag()) is None,
    ensures
        scan(h, in_think) == (Seq::<char>::empty(), h, in_think),
{
    if !in_think {
        lemma_find(h, open_tag());
        lemma_held(h);
        if h.len() > 0 {
            assert(h.skip(0) =~= h);
            assert(tag_tail(h, h.len() as int));
        }
        assert(h.take(0) =~= Seq::<char>::empty());
        assert(h.skip(0) =~= h);
    }
}

/// Whatever the chunks, the pushes emit a prefix of the visible text, and
/// what they have not emitted yet is at most six characters that start
/// `"<think>"`.
pub proof fn law_pushes_hold_back_at_most_a_tag_start(chunks: Seq<Seq<char>>)
    ensures
        ({
            let out = run_pushes(Seq::<char>::empty(), false, chunks).0;
            let v = visible(concat_all(chunks), false);
            &&& out.is_prefix_of(v)
            &&& v.len() - out.len() <= 6
            &&& v.skip(out.len() as int) == open_tag().take(v.len() - out.len())
        }),
{
    let e = Seq::<char>::empty();
    law_stream_shows_visible_text(e, false, chunks, e);
    assert(e =~= open_tag().take(0));
    scan_of_held(e, false);
    law_pushes_ignore_chunking(e, false, chunks);
    let all = concat_all(chunks);
    assert(e + all + e =~= all);
    assert(e + all =~= all);
    let r = scan(all, false);
    lemma_scan_held(all, false);
    assert(r.1 + e =~= r.1);
    let v = visible(all, false);
    if r.2 {
        lemma_find(r.1, close_tag());
        assert(v =~= r.0 + e);
        assert(v.skip(r.0.len() as int) =~= open_tag().take(0));
    } else {
        lemma_find(r.1, open_tag());
        assert(find(r.1, open_tag()) is None) by {
            lemma_find_bound(r.1, open_tag());
        }
        assert(v =~= r.0 + r.1);
        assert(v.skip(r.0.len() as int) =~= r.1);
    }
}

/// One call of `push`, as its contract states it: from the filter state
/// `before`, the chunk `chunk` makes the call return `out` and leave the
/// filter in state `after`.
pub open spec fn push_step(
    before: (Seq<char>, bool),
    chunk: Seq<char>,
    out: Seq<char>,
    after: (Seq<char>, bool),
) -> bool {
    let s = scan(before.0 + chunk, before.1);
    out == s.0 && after == (s.1, s.2)
}

/// Joining one more piece at the end.
proof fn lemma_concat_all_push(xs: Seq<Seq<char>>, x: Seq<char>)
    ensures
        concat_all(xs.push(x)) == concat_all(xs) + x,
    decreases xs.len(),
{
    if xs.len() == 0 {
        assert(xs.push(x).drop_first() =~= Seq::<Seq<char>>::empty());
        assert(concat_all(Seq::<Seq<char>>::empty()) == Seq::<char>::empty());
        assert(x + Seq::<char>::empty() =~= x);
        assert(Seq::<char>::empty() + x =~= x);
    } else {
        assert(xs.push(x).drop_first() =~= xs.drop_first().push(x));
        lemma_concat_all_push(xs.drop_first(), x);
        assert(xs[0] + (concat_all(xs.drop_first()) + x) =~= (xs[0] + concat_all(xs.drop_first()))
            + x);
    }
}

/// After the first `k` of a series of calls of `push` on a new filter, what
/// they returned, joined, and the state they left are `run_pushes` over the
/// first `k` chunks.
proof fn lemma_calls_follow_run(
    chunks: Seq<Seq<char>>,
    states: Seq<(Seq<char>, bool)>,
    outs: Seq<Seq<char>>,
    k: int,
)
    requires
        0 <= k <= chunks.len(),
        states.len() == chunks.len() + 1,
        outs.len() == chunks.len(),
        states[0] == (Seq::<char>::empty(), false),
        forall|i: int|
            0 <= i < chunks.len() ==> #[trigger] push_step(states[i], chunks[i], outs[i], states[i + 1]),
    ensures
        run_pushes(Seq::<char>::empty(), false, chunks.take(k)) == (
            concat_all(outs.take(k)),
            states[k].0,
            states[k].1,
        ),
    decreases k,
{
    let e = Seq::<char>::empty();
    if k == 0 {
        assert(chunks.take(0) =~= Seq::<Seq<char>>::empty());
        assert(outs.take(0) =~= Seq::<Seq<char>>::empty());
    } else {
        lemma_calls_follow_run(chunks, states, outs, k - 1);
        let j = k - 1;
        assert(push_step(states[j], chunks[j], outs[j], states[j + 1]));
        law_one_more_push(e, false, chunks.take(k - 1), chunks[k - 1]);
        assert(chunks.take(k - 1).push(chunks[k - 1]) =~= chunks.take(k));
        assert(outs.take(k - 1).push(outs[k - 1]) =~= outs.take(k));
        lemma_concat_all_push(outs.take(k - 1), outs[k - 1]);
    }
}

/// Law of the stream filter over n separate calls: a new filter is fed the
/// chunks one `push` at a time, `states[i]` being its state before the i-th
/// call and `outs[i]` what that call returned. Then what the calls returned,
/// joined, is what one push of the whole stream returns, so it does not
/// depend on how the stream was cut; it is a prefix of the visible text,
/// which goes on with at most six more characters, the start of
/// `"<think>"`; and followed by what `flush` returns in the final state it is
/// exactly the visible text.
pub proof fn law_separate_pushes(
    chunks: Seq<Seq<char>>,
    states: Seq<(Seq<char>, bool)>,
    outs: Seq<Seq<char>>,
)
    requires
        states.len() == chunks.len() + 1,
        outs.len() == chunks.len(),
        states[0] == (Seq::<char>::empty(), false),
        forall|i: int|
            0 <= i < chunks.len() ==> #[trigger] push_step(states[i], chunks[i], outs[i], states[i + 1]),
    ensures
        ({
            let whole = scan(concat_all(chunks), false);
            let out = concat_all(outs);
            let v = visible(concat_all(chunks), false);
            let last = states[chunks.len() as int];
            &&& out == whole.0
            &&& last == (whole.1, whole.2)
            &&& out.is_prefix_of(v)
            &&& v.len() - out.len() <= 6
            &&& v.skip(out.len() as int) == open_tag().take(v.len() - out.len())
            &&& out + visible(last.0, last.1) == v
        }),
{
    let e = Seq::<char>::empty();
    let n = chunks.len() as int;
    lemma_calls_follow_run(chunks, states, outs, n);
    assert(chunks.take(n) =~= chunks);
    assert(outs.take(n) =~= outs);
    assert(e =~= open_tag().take(0));
    scan_of_held(e, false);
    law_pushes_ignore_chunking(e, false, chunks);
    assert(e + concat_all(chunks) =~= concat_all(chunks));
    law_pushes_hold_back_at_most_a_tag_start(chunks);
    law_stream_shows_visible_text(e, false, chunks, e);
    assert(e + concat_all(chunks) + e =~= concat_all(chunks));
    let last = states[n];
    assert(last.0 + e =~= last.0);
}

/// `"<think>"` as bytes.
pub open spec fn open_tag_bytes() -> Seq<u8> {
    seq![60u8, 116u8, 104u8, 105u8, 110u8, 107u8, 62u8]
}

/// The byte index from which `safe_emit_len` holds text back: the first `i`
/// at or after `from` whose suffix could start `"<think>"` and that falls on a
/// character boundary; the byte length if there is none.
pub open spec fn first_cut_from(bytes: Seq<u8>, from: int) -> int
    decreases bytes.len() - from,
{
    if from >= bytes.len() {
        bytes.len() as int
    } else if bytes.skip(from).is_prefix_of(open_tag_bytes()) && vstd::utf8::is_char_boundary(
        bytes,
        from,
    ) {
        from
    } else {
        first_cut_from(bytes, from + 1)
    }
}

/// Reasoning-block filter for streamed replies. It buffers text so that a tag
/// split across two chunks is still recognised.
pub struct ThinkStreamFilter {
    buffer: Vec<char>,
    in_think: bool,
}

impl View for ThinkStreamFilter {
    type V = (Seq<char>, bool);

    /// The text held back and whether the filter is inside a reasoning block.
    closed spec fn view(&self) -> (Seq<char>, bool) {
        (self.buffer@, self.in_think)
    }
}

impl ThinkStreamFilter {
    /// An empty filter, outside any reasoning block.
    pub fn new() -> (f: Self)
        ensures
            f@ == (Seq::<char>::empty(), false),
    {
        ThinkStreamFilter { buffer: Vec::new(), in_think: false }
    }

    /// Byte length that is safe to emit now: all of `buffer` except a tail
    /// (of at most six bytes) that could be the split start of `"<think>"`.
    pub fn safe_emit_len(buffer: &str) -> (n: usize)
        ensures
            n == first_cut_from(
                buffer.spec_bytes(),
                if buffer.spec_bytes().len() >= 6 {
                    buffer.spec_bytes().len() - 6
                } else {
                    0
                },
            ),
    {
        let bytes = buffer.as_bytes();
        let tag: [u8; 7] = [60u8, 116u8, 104u8, 105u8, 110u8, 107u8, 62u8];
        assert(tag@ == open_tag_bytes());
        let len = bytes.len();
        let start: usize = if len >= 6 {
            len - 6
        } else {
            0
        };
        let mut i = start;
        while i < len
            invariant
                start <= i <= len,
                start == (if len >= 6 {
                    len - 6
                } else {
                    0
                }),
                len == bytes@.len(),
                bytes@ == buffer.spec_bytes(),
                tag@ == open_tag_bytes(),
                first_cut_from(bytes@, start as int) == first_cut_from(bytes@, i as int),
            decreases len - i,
        {
            let mut is_prefix = len - i <= 7;
            let mut k: usize = 0;
            while is_prefix && k < len - i
                invariant
                    i < len,
                    len == bytes@.len(),
                    k <= len - i,
                    is_prefix ==> len - i <= 7,
                    is_prefix ==> forall|x: int| 0 <= x < k ==> bytes@[i + x] == tag@[x],
                    !is_prefix ==> !bytes@.skip(i as int).is_prefix_of(tag@),
                decreases len - i - k + (if is_prefix {
                    1int
                } else {
                    0int
                }),
            {
                if bytes[i + k] != tag[k] {
                    assert(bytes@.skip(i as int)[k as int] != tag@[k as int]);
                    is_prefix = false;
                } else {
                    k += 1;
                }
            }
            if is_prefix {
                assert(bytes@.skip(i as int) =~= tag@.take(bytes@.skip(i as int).len() as int));
            }
            if is_prefix && buffer.is_char_boundary(i) {
                assert(bytes@.skip(i as int).is_prefix_of(open_tag_bytes()));
                assert(vstd::utf8::is_char_boundary(bytes@, i as int));
                assert(first_cut_from(bytes@, i as int) == i);
                return i;
            }
            i += 1;
        }
        len
    }

    /// Takes the next chunk of the stream and returns the text that can be
    /// shown now. Reasoning blocks are dropped, and a tail that could be the
    /// start of `"<think>"` is kept until the next chunk decides it.
    pub fn push(&mut self, chunk: &str) -> (out: String)
        ensures
            ({
                let s = scan(old(self)@.0 + chunk@, old(self)@.1);
                &&& out@ == s.0
                &&& final(self)@ == (s.1, s.2)
            }),
            !final(self)@.1 ==> final(self)@.0.len() <= 6 && final(self)@.0 == open_tag().take(
                final(self)@.0.len() as int,
            ),
    {
        let c = chars_of(chunk);
        extend_vec(&mut self.buffer, &c);
        let ghost start = self.buffer@;
        let ghost start_mode = self.in_think;
        let open = lit("<think>");
        let close = lit("</think>");
        proof {
            reveal_strlit("<think>");
            reveal_strlit("</think>");
        }
        assert(open@ =~= open_tag());
        assert(close@ =~= close_tag());
        let mut output: Vec<char> = Vec::new();
        loop
            invariant_except_break
                open@ == open_tag(),
                close@ == close_tag(),
                scan(start, start_mode) == (output@ + scan(self.buffer@, self.in_think).0, scan(
                    self.buffer@,
                    self.in_think,
                ).1, scan(self.buffer@, self.in_think).2),
            ensures
                scan(start, start_mode) == (output@, self.buffer@, self.in_think),
            decreases self.buffer@.len(),
        {
            proof {
                lemma_find_bound(self.buffer@, close_tag());
                lemma_find_bound(self.buffer@, open_tag());
            }
            if self.in_think {
                match find_vec(&self.buffer, &close) {
                    Some(idx) => {
                        assert(idx + close_tag().len() <= self.buffer@.len());
                        let blen = self.buffer.len();
                        let rest = slice_vec(&self.buffer, idx + 8, blen);
                        assert(rest@ =~= self.buffer@.skip(idx + 8));
                        self.buffer = rest;
                        self.in_think = false;
                    },
                    None => {
                        assert(output@ + Seq::<char>::empty() =~= output@);
                        break ;
                    },
                }
            } else {
                match find_vec(&self.buffer, &open) {
                    Some(idx) => {
                        assert(idx + open_tag().len() <= self.buffer@.len());
                        let blen = self.buffer.len();
                        let before = slice_vec(&self.buffer, 0, idx);
                        let rest = slice_vec(&self.buffer, idx + 7, blen);
                        assert(before@ =~= self.buffer@.take(idx as int));
                        assert(rest@ =~= self.buffer@.skip(idx + 7));
                        let ghost r = scan(rest@, true);
                        assert(output@ + (before@ + r.0) =~= (output@ + before@) + r.0);
                        extend_vec(&mut output, &before);
                        self.buffer = rest;
                        self.in_think = true;
                    },
                    None => {
                        let k = held_back(&self.buffer);
                        proof {
                            lemma_held(self.buffer@);
                        }
                        let n = self.buffer.len();
                        let emit = slice_vec(&self.buffer, 0, n - k);
                        let keep = slice_vec(&self.buffer, n - k, n);
                        assert(emit@ =~= self.buffer@.take(n - k));
                        assert(keep@ =~= self.buffer@.skip(n - k));
                        extend_vec(&mut output, &emit);
                        self.buffer = keep;
                        break ;
                    },
                }
            }
        }
        proof {
            lemma_scan_held(start, start_mode);
        }
        string_of(&output)
    }

    /// Ends the stream: returns the visible part of what the filter still
    /// holds (a tail that turned out not to start `"<think>"`; nothing inside
    /// an unclosed reasoning block) and leaves the filter empty, outside any
    /// block.
    pub fn flush(&mut self) -> (tail: String)
        ensures
            tail@ == visible(old(self)@.0, old(self)@.1),
            final(self)@ == (Seq::<char>::empty(), false),
    {
        let open = lit("<think>");
        let close = lit("</think>");
        proof {
            reveal_strlit("<think>");
            reveal_strlit("</think>");
        }
        assert(open@ =~= open_tag());
        assert(close@ =~= close_tag());
        let ghost target = visible(self.buffer@, self.in_think);
        let mut rest = slice_vec(&self.buffer, 0, self.buffer.len());
        assert(rest@ =~= self.buffer@);
        let mut mode = self.in_think;
        let mut out: Vec<char> = Vec::new();
        loop
            invariant_except_break
                open@ == open_tag(),
                close@ == close_tag(),
                target == out@ + visible(rest@, mode),
            ensures
                target == out@,
            decreases rest@.len(),
        {
            proof {
                lemma_find_bound(rest@, close_tag());
                lemma_find_bound(rest@, open_tag());
            }
            if mode {
                match find_vec(&rest, &close) {
                    Some(idx) => {
                        let n = rest.len();
                        assert(idx + 8 <= n);
                        let r = slice_vec(&rest, idx + 8, n);
                        assert(r@ =~= rest@.skip(idx + 8));
                        rest = r;
                        mode = false;
                    },
                    None => {
                        assert(out@ + Seq::<char>::empty() =~= out@);
                        break ;
                    },
                }
            } else {
                match find_vec(&rest, &open) {
                    Some(idx) => {
                        let n = rest.len();
                        assert(idx + 7 <= n);
                        let before = slice_vec(&rest, 0, idx);
                        let r = slice_vec(&rest, idx + 7, n);
                        assert(before@ =~= rest@.take(idx as int));
                        assert(r@ =~= rest@.skip(idx + 7));
                        assert(out@ + (before@ + visible(r@, true)) =~= (out@ + before@) + visible(
                            r@,
                            true,
                        ));
                        extend_vec(&mut out, &before);
                        rest = r;
                        mode = true;
                    },
                    None => {
                        extend_vec(&mut out, &rest);
                        break ;
                    },
                }
            }
        }
        self.buffer = Vec::new();
        self.in_think = false;
        string_of(&out)
    }
}

/// `held` computed on a character vector.
fn held_back(b: &Vec<char>) -> (k: usize)
    ensures
        k == held(b@),
{
    let open = lit("<think>");
    proof {
        reveal_strlit("<think>");
    }
    assert(open@ =~= open_tag());
    let mut k: usize = 6;
    while k > 0
        invariant
            k <= 6,
            open@ == open_tag(),
            held(b@) == held_from(b@, k as int),
        decreases k,
    {
        if k <= b.len() {
            let tail = slice_vec(b, b.len() - k, b.len());
            let head = slice_vec(&open, 0, k);
            assert(tail@ =~= b@.skip(b.len() - k));
            assert(head@ =~= open_tag().take(k as int));
            if tail.len() == head.len() && matches_at(&tail, &head, 0) {
                assert(tail@.subrange(0, k as int) =~= tail@);
                return k;
            }
            assert(!tag_tail(b@, k as int)) by {
                if tag_tail(b@, k as int) {
                    assert(tail@.subrange(0, k as int) =~= tail@);
                }
            }
        }
        k -= 1;
    }
    0
}

} // verus!
