//! Gmail Takeout mailboxes (`.mbox`): splitting into messages, RFC 822
//! headers with folding, MIME multipart bodies (text/plain preferred over
//! text/html), sender display names and dates.
use vstd::prelude::*;
use vstd::string::StrSliceExecFns;
use vstd::string::StringSliceAdditionalSpecFns;
use vstd::utf8::{decode_utf8, encode_utf8, is_char_boundary};

use crate::mime::{decode_body, decode_encoded_words, decode_words, decoded_body, html_text, strip_html_tags};
use crate::text::{
    chars_of, extend_vec, find, find_char, find_vec, first_in, is_blank, is_blank_vec, is_whitespace, is_ws,
    lemma_first_in,
    lemma_find_bound, lines, lines_vec, lit, lowercase, lowercase_vec, slice_vec, split_once,
    split_once_vec, split_set, split_set_vec, split_str, split_str_vec, starts_with_char,
    starts_with_vec, string_of,
    to_lowercase, trim, trim_char, trim_char_vec, trim_start, trim_start_chars,
    trim_start_chars_vec, trim_start_vec, trim_vec, views,
};

verus! {

// ---------------------------------------------------------------------------
// Headers
// ---------------------------------------------------------------------------

/// Headers and body of a raw message: split at the first blank line
/// (`"\r\n\r\n"` tried first, then `"\n\n"`); no blank line means no body.
pub open spec fn headers_body(raw: Seq<char>) -> (Seq<char>, Seq<char>) {
    match find(raw, seq!['\r', '\n', '\r', '\n']) {
        Some(p) => (raw.take(p), raw.skip(p + 4)),
        None => match find(raw, seq!['\n', '\n']) {
            Some(p) => (raw.take(p), raw.skip(p + 2)),
            None => (raw, seq![]),
        },
    }
}

/// Splits a raw message into its headers and its body.
pub fn split_headers_body<'a>(raw: &'a str) -> (r: (&'a str, &'a str))
    ensures
        (r.0@, r.1@) == headers_body(raw@),
{
    let v = chars_of(raw);
    let n = v.len();
    let crlf = lit("\r\n\r\n");
    let lf = lit("\n\n");
    proof {
        reveal_strlit("\r\n\r\n");
        reveal_strlit("\n\n");
        lemma_find_bound(v@, seq!['\r', '\n', '\r', '\n']);
        lemma_find_bound(v@, seq!['\n', '\n']);
    }
    assert(crlf@ =~= seq!['\r', '\n', '\r', '\n']);
    assert(lf@ =~= seq!['\n', '\n']);
    if let Some(p) = find_vec(&v, &crlf) {
        assert(p + 4 <= n);
        let h = raw.substring_char(0, p);
        let b = raw.substring_char(p + 4, n);
        assert(h@ =~= v@.take(p as int));
        assert(b@ =~= v@.skip(p + 4));
        (h, b)
    } else if let Some(p) = find_vec(&v, &lf) {
        assert(p + 2 <= n);
        let h = raw.substring_char(0, p);
        let b = raw.substring_char(p + 2, n);
        assert(h@ =~= v@.take(p as int));
        assert(b@ =~= v@.skip(p + 2));
        (h, b)
    } else {
        let h = raw.substring_char(0, n);
        let b = raw.substring_char(n, n);
        assert(h@ =~= v@);
        assert(b@ =~= Seq::<char>::empty());
        (h, b)
    }
}

/// Effect of one header line: a line starting with a space or a tab continues
/// the previous header (folding, joined with one space); otherwise
/// `"Name: value"` starts a header whose name is lowercased; other lines are
/// ignored.
pub open spec fn header_step(hs: Seq<(Seq<char>, Seq<char>)>, line: Seq<char>) -> Seq<
    (Seq<char>, Seq<char>),
> {
    if (starts_with_char(line, ' ') || starts_with_char(line, '\t')) && hs.len() > 0 {
        let last = hs.last();
        hs.drop_last().push((last.0, last.1 + seq![' '] + trim(line)))
    } else {
        match split_once(line, seq![':']) {
            Some((k, v)) => hs.push((lowercase(trim(k)), trim(v))),
            None => hs,
        }
    }
}

/// Headers of the first `n` lines.
pub open spec fn headers_upto(ls: Seq<Seq<char>>, n: int) -> Seq<(Seq<char>, Seq<char>)>
    decreases n,
{
    if n <= 0 {
        seq![]
    } else {
        header_step(headers_upto(ls, n - 1), ls[n - 1])
    }
}

/// The RFC 822 headers of a header block, as `(lowercase name, value)` pairs.
pub open spec fn headers_of(raw: Seq<char>) -> Seq<(Seq<char>, Seq<char>)> {
    headers_upto(lines(raw), lines(raw).len() as int)
}

pub open spec fn header_views(hs: Seq<(String, String)>) -> Seq<(Seq<char>, Seq<char>)> {
    hs.map_values(|h: (String, String)| (h.0@, h.1@))
}

/// Parses RFC 822 headers, honouring folding (continuation lines that start
/// with a space or a tab belong to the previous header).
pub fn parse_headers(raw_headers: &str) -> (r: Vec<(String, String)>)
    ensures
        header_views(r@) == headers_of(raw_headers@),
{
    let c = chars_of(raw_headers);
    let ls = lines_vec(&c);
    let colon = lit(":");
    proof {
        reveal_strlit(":");
    }
    assert(colon@ =~= seq![':']);
    let mut headers: Vec<(String, String)> = Vec::new();
    let mut i: usize = 0;
    while i < ls.len()
        invariant
            i <= ls@.len(),
            ls@.len() == lines(c@).len(),
            forall|k: int| 0 <= k < ls@.len() ==> #[trigger] ls@[k]@ == lines(c@)[k],
            c@ == raw_headers@,
            colon@ == seq![':'],
            header_views(headers@) == headers_upto(lines(c@), i as int),
        decreases ls.len() - i,
    {
        let ghost before = header_views(headers@);
        let line = &ls[i];
        let folded = line.len() > 0 && (line[0] == ' ' || line[0] == '\t');
        if folded && headers.len() > 0 {
            let (k, v) = headers.pop().unwrap();
            assert((k@, v@) == before.last());
            assert(header_views(headers@) =~= before.drop_last());
            let mut nv = chars_of(v.as_str());
            nv.push(' ');
            let t = trim_vec(line);
            extend_vec(&mut nv, &t);
            let joined = string_of(&nv);
            assert(joined@ == before.last().1 + seq![' '] + trim(line@));
            let ghost mid = header_views(headers@);
            headers.push((k, joined));
            assert(header_views(headers@) =~= mid.push((before.last().0, joined@)));
            assert(header_views(headers@) =~= before.drop_last().push(
                (before.last().0, before.last().1 + seq![' '] + trim(line@)),
            ));
        } else {
            match split_once_vec(line, &colon) {
                Some((k, v)) => {
                    let key = lowercase_vec(&trim_vec(&k));
                    let val = trim_vec(&v);
                    headers.push((string_of(&key), string_of(&val)));
                    assert(header_views(headers@) =~= before.push((key@, val@)));
                },
                None => {},
            }
        }
        assert(header_views(headers@) == header_step(before, lines(c@)[i as int]));
        i += 1;
    }
    headers
}

/// Value of the first header named `name`.
pub open spec fn header_value(hs: Seq<(Seq<char>, Seq<char>)>, name: Seq<char>) -> Option<Seq<char>>
    decreases hs.len(),
{
    if hs.len() == 0 {
        None
    } else if hs[0].0 == name {
        Some(hs[0].1)
    } else {
        header_value(hs.drop_first(), name)
    }
}

/// Value of the first header named `name` (names are stored lowercase).
pub fn get_header<'a>(headers: &'a [(String, String)], name: &str) -> (r: Option<&'a str>)
    ensures
        match r {
            Some(v) => header_value(header_views(headers@), name@) == Some(v@),
            None => header_value(header_views(headers@), name@) is None,
        },
{
    let ghost hv = header_views(headers@);
    let mut i: usize = 0;
    let name_s = name.to_string();
    assert(hv.skip(0) =~= hv);
    while i < headers.len()
        invariant
            i <= headers@.len(),
            hv == header_views(headers@),
            name_s@ == name@,
            header_value(hv, name@) == header_value(hv.skip(i as int), name@),
        decreases headers.len() - i,
    {
        assert(hv.skip(i as int).drop_first() =~= hv.skip(i + 1));
        assert(hv.skip(i as int)[0] == (headers@[i as int].0@, headers@[i as int].1@));
        if headers[i].0 == name_s {
            return Some(headers[i].1.as_str());
        }
        i += 1;
    }
    None
}

// ---------------------------------------------------------------------------
// Multipart boundary
// ---------------------------------------------------------------------------

/// `"boundary="` as bytes.
pub open spec fn boundary_key() -> Seq<u8> {
    seq![98u8, 111u8, 117u8, 110u8, 100u8, 97u8, 114u8, 121u8, 61u8]
}

pub open spec fn byte_match_at(s: Seq<u8>, p: Seq<u8>, i: int) -> bool {
    0 <= i && i + p.len() <= s.len() && s.subrange(i, i + p.len()) == p
}

/// First occurrence of `p` in `s` at or after `i`, as a byte index.
pub open spec fn byte_find_from(s: Seq<u8>, p: Seq<u8>, i: int) -> Option<int>
    decreases s.len() + 1 - i,
{
    if i < 0 || i + p.len() > s.len() {
        None
    } else if byte_match_at(s, p, i) {
        Some(i)
    } else {
        byte_find_from(s, p, i + 1)
    }
}

fn byte_find(s: &[u8], p: &[u8]) -> (r: Option<usize>)
    requires
        p@.len() > 0,
    ensures
        match r {
            Some(k) => byte_find_from(s@, p@, 0) == Some(k as int) && k + p@.len() <= s@.len(),
            None => byte_find_from(s@, p@, 0) is None,
        },
{
    let mut i: usize = 0;
    while p.len() <= s.len() && i <= s.len() - p.len()
        invariant
            p@.len() > 0,
            i <= s.len() + 1,
            byte_find_from(s@, p@, 0) == byte_find_from(s@, p@, i as int),
        decreases s.len() + 1 - i,
    {
        let mut k: usize = 0;
        let mut ok = true;
        while ok && k < p.len()
            invariant
                i + p.len() <= s.len(),
                k <= p.len(),
                ok ==> forall|j: int| 0 <= j < k ==> s@[i + j] == p@[j],
                !ok ==> !byte_match_at(s@, p@, i as int),
            decreases p.len() - k + (if ok {
                1int
            } else {
                0int
            }),
        {
            if s[i + k] != p[k] {
                assert(s@.subrange(i as int, i + p.len())[k as int] != p@[k as int]);
                ok = false;
            } else {
                k += 1;
            }
        }
        if ok {
            assert(s@.subrange(i as int, i + p.len()) =~= p@);
            return Some(i);
        }
        i += 1;
    }
    None
}

/// Index of the first `';'` or whitespace character.
pub open spec fn first_stop(s: Seq<char>) -> Option<int>
    decreases s.len(),
{
    if s.len() == 0 {
        None
    } else if s[0] == ';' || is_ws(s[0]) {
        Some(0)
    } else {
        match first_stop(s.drop_first()) {
            Some(i) => Some(i + 1),
            None => None,
        }
    }
}

proof fn lemma_first_stop_bound(s: Seq<char>)
    ensures
        first_stop(s) matches Some(i) ==> 0 <= i < s.len(),
    decreases s.len(),
{
    if s.len() > 0 && !(s[0] == ';' || is_ws(s[0])) {
        lemma_first_stop_bound(s.drop_first());
    }
}

/// Byte index in the content type where the boundary parameter's value
/// starts: after the first `"boundary="` of the lowercased content type. The
/// index is taken in the lowercased text and used in the content type as given.
pub open spec fn boundary_cut(ct: Seq<char>) -> Option<int> {
    match byte_find_from(encode_utf8(lowercase(ct)), boundary_key(), 0) {
        Some(i) => Some(i + 9),
        None => None,
    }
}

/// The cut does not fall on a character boundary of the content type (the
/// lowercased text is longer in bytes than the content type before it): slicing
/// there is not possible.
pub open spec fn boundary_fault(ct: Seq<char>) -> bool {
    boundary_cut(ct) matches Some(c) && !is_char_boundary(encode_utf8(ct), c)
}

/// The boundary value in the text that follows `"boundary="`: leading
/// whitespace skipped, then either a quoted string (`None` if unterminated)
/// or the text up to the first `';'` or whitespace.
pub open spec fn boundary_param(rest: Seq<char>) -> Option<Seq<char>> {
    let r = trim_start(rest);
    if starts_with_char(r, '"') {
        let st = r.drop_first();
        match find(st, seq!['"']) {
            Some(e) => Some(st.take(e)),
            None => None,
        }
    } else {
        let end = match first_stop(r) {
            Some(e) => e,
            None => r.len() as int,
        };
        Some(trim(r.take(end)))
    }
}

/// The multipart boundary of a content type (when there is no fault).
pub open spec fn boundary_value(ct: Seq<char>) -> Option<Seq<char>> {
    match boundary_cut(ct) {
        None => None,
        Some(c) => boundary_param(decode_utf8(encode_utf8(ct).skip(c))),
    }
}

fn boundary_param_exec(rest: &Vec<char>) -> (r: Option<String>)
    ensures
        match r {
            Some(b) => boundary_param(rest@) == Some(b@),
            None => boundary_param(rest@) is None,
        },
{
    let r = trim_start_vec(rest);
    if r.len() > 0 && r[0] == '"' {
        let st = slice_vec(&r, 1, r.len());
        assert(st@ =~= r@.drop_first());
        proof {
            lemma_find_bound(st@, seq!['"']);
        }
        match find_char(&st, '"') {
            Some(e) => Some(string_of(&slice_vec(&st, 0, e))),
            None => None,
        }
    } else {
        let mut i: usize = 0;
        assert(r@.skip(0) =~= r@);
        while i < r.len() && !(r[i] == ';' || is_whitespace(r[i]))
            invariant
                i <= r@.len(),
                first_stop(r@) == match first_stop(r@.skip(i as int)) {
                    Some(k) => Some(k + i),
                    None => None,
                },
            decreases r.len() - i,
        {
            assert(r@.skip(i as int).drop_first() =~= r@.skip(i + 1));
            i += 1;
        }
        proof {
            if i < r@.len() {
                assert(r@.skip(i as int)[0] == r@[i as int]);
            } else {
                assert(r@.skip(i as int) =~= Seq::<char>::empty());
            }
        }
        let head = slice_vec(&r, 0, i);
        Some(string_of(&trim_vec(&head)))
    }
}

/// `boundary_value`, or `None` in the fault case where the value cannot be
/// sliced out.
pub fn try_get_boundary(content_type: &str) -> (r: Option<Option<String>>)
    ensures
        r is None <==> boundary_fault(content_type@),
        r matches Some(b) ==> match b {
            Some(x) => boundary_value(content_type@) == Some(x@),
            None => boundary_value(content_type@) is None,
        },
{
    let lower = to_lowercase(content_type);
    let lb = lower.as_str().as_bytes();
    let key: [u8; 9] = [98u8, 111u8, 117u8, 110u8, 100u8, 97u8, 114u8, 121u8, 61u8];
    assert(key@ == boundary_key());
    let idx = match byte_find(lb, &key) {
        Some(i) => i,
        None => return Some(None),
    };
    let lblen = lb.len();
    assert(idx + 9 <= lblen);
    let cut = idx + 9;
    if !content_type.is_char_boundary(cut) {
        return None;
    }
    let (_, rest) = content_type.split_at(cut);
    proof {
        vstd::utf8::encode_utf8_decode_utf8(rest@);
        let whole = encode_utf8(content_type@);
        assert(rest.spec_bytes() == encode_utf8(rest@));
        assert(whole.skip(cut as int) =~= whole.subrange(cut as int, whole.len() as int));
        assert(rest@ == decode_utf8(encode_utf8(content_type@).skip(cut as int)));
    }
    let rv = chars_of(rest);
    Some(boundary_param_exec(&rv))
}

/// The multipart boundary of a content type.
pub fn get_boundary(content_type: &str) -> (r: Option<String>)
    requires
        !boundary_fault(content_type@),
    ensures
        match r {
            Some(x) => boundary_value(content_type@) == Some(x@),
            None => boundary_value(content_type@) is None,
        },
{
    match try_get_boundary(content_type) {
        Some(b) => b,
        None => None,
    }
}

} // verus!

verus! {

// ---------------------------------------------------------------------------
// Plain text of a MIME body
// ---------------------------------------------------------------------------

/// A header's value, or `default` when the header is absent.
pub open spec fn header_or(hs: Seq<(Seq<char>, Seq<char>)>, name: Seq<char>, default: Seq<char>) -> Seq<
    char,
> {
    match header_value(hs, name) {
        Some(v) => v,
        None => default,
    }
}

/// The plain text of a MIME entity with content type `ct`, transfer
/// encoding `te` and body `body`. A `multipart/*` entity is split on its
/// boundary and its parts scanned in order: the first `text/plain` part wins,
/// else the first `text/html` part with its tags stripped; nested multiparts
/// are searched while no plain text has been found. A non-multipart entity
/// is its decoded body (tags stripped for `text/html`). The inner `None`
/// means no text (a multipart without boundary or without text parts); the
/// outer `None` marks an entity whose boundary cannot be sliced out (see
/// `boundary_fault`), anywhere in the tree.
pub open spec fn mime_text(ct: Seq<char>, te: Seq<char>, body: Seq<char>) -> Option<Option<Seq<char>>>
    decreases body.len() as int, 1int, 0int,
{
    let ctl = lowercase(ct);
    if "multipart/"@.is_prefix_of(ctl) {
        if boundary_fault(ct) {
            None
        } else {
            match boundary_value(ct) {
                None => Some(None),
                Some(b) => {
                    let parts = split_str(body, seq!['-', '-'] + b);
                    match parts_scan(parts, parts.len() as int, body.len() as int) {
                        None => None,
                        Some(acc) => Some(
                            match acc.0 {
                                Some(p) => Some(p),
                                None => match acc.1 {
                                    Some(h) => Some(html_text(h)),
                                    None => None,
                                },
                            },
                        ),
                    }
                },
            }
        }
    } else {
        let decoded = decoded_body(body, te);
        Some(
            Some(
                if "text/html"@.is_prefix_of(ctl) {
                    html_text(decoded)
                } else {
                    decoded
                },
            ),
        )
    }
}

/// Scans the first `n` parts of a multipart body, collecting the first plain
/// text and the first HTML text. Parts are shorter than `bound` (the body).
pub open spec fn parts_scan(parts: Seq<Seq<char>>, n: int, bound: int) -> Option<
    (Option<Seq<char>>, Option<Seq<char>>),
>
    decreases bound, 0int, n,
{
    if n <= 0 {
        Some((None, None))
    } else {
        match parts_scan(parts, n - 1, bound) {
            None => None,
            Some(acc) => part_step(acc, parts[n - 1], bound),
        }
    }
}

/// One part of a multipart body: leading CR/LF dropped; blank parts and the
/// closing `"--"` skipped; headers parsed (content type defaults to
/// `text/plain`, transfer encoding to `7bit`).
pub open spec fn part_step(
    acc: (Option<Seq<char>>, Option<Seq<char>>),
    raw: Seq<char>,
    bound: int,
) -> Option<(Option<Seq<char>>, Option<Seq<char>>)>
    decreases bound, 0int, 0int,
{
    let part = trim_start_chars(raw, seq!['\r', '\n']);
    if is_blank(part) || seq!['-', '-'].is_prefix_of(trim_start(part)) {
        Some(acc)
    } else {
        let hb = headers_body(part);
        let hs = headers_of(hb.0);
        let pct = header_or(hs, "content-type"@, "text/plain"@);
        let pcte = header_or(hs, "content-transfer-encoding"@, "7bit"@);
        let pctl = lowercase(pct);
        if "multipart/"@.is_prefix_of(pctl) {
            if acc.0 is None && hb.1.len() < bound {
                match mime_text(pct, pcte, hb.1) {
                    None => None,
                    Some(Some(nested)) => Some((Some(nested), acc.1)),
                    Some(None) => Some(acc),
                }
            } else {
                Some(acc)
            }
        } else {
            let dec = decoded_body(hb.1, pcte);
            if "text/plain"@.is_prefix_of(pctl) && acc.0 is None {
                Some((Some(dec), acc.1))
            } else if "text/html"@.is_prefix_of(pctl) && acc.1 is None {
                Some((acc.0, Some(dec)))
            } else {
                Some(acc)
            }
        }
    }
}

proof fn lemma_trim_start_chars_len(s: Seq<char>, set: Seq<char>)
    ensures
        trim_start_chars(s, set).len() <= s.len(),
    decreases s.len(),
{
    if s.len() > 0 && set.contains(s[0]) {
        lemma_trim_start_chars_len(s.drop_first(), set);
    }
}

/// The body of a non-blank part is shorter than the text the part came from.
proof fn lemma_part_body_shorter(raw: Seq<char>, bound: int)
    requires
        raw.len() <= bound,
        !is_blank(trim_start_chars(raw, seq!['\r', '\n'])),
    ensures
        headers_body(trim_start_chars(raw, seq!['\r', '\n'])).1.len() < bound,
{
    let part = trim_start_chars(raw, seq!['\r', '\n']);
    lemma_trim_start_chars_len(raw, seq!['\r', '\n']);
    lemma_find_bound(part, seq!['\r', '\n', '\r', '\n']);
    lemma_find_bound(part, seq!['\n', '\n']);
    assert(part.len() > 0);
}

pub open spec fn opt_view(o: Option<String>) -> Option<Seq<char>> {
    match o {
        Some(s) => Some(s@),
        None => None,
    }
}

/// Once a scan has met a fault, longer scans have too.
proof fn lemma_parts_scan_stuck(parts: Seq<Seq<char>>, m: int, n: int, bound: int)
    requires
        0 <= m <= n,
        parts_scan(parts, m, bound) is None,
    ensures
        parts_scan(parts, n, bound) is None,
    decreases n - m,
{
    if n > m {
        lemma_parts_scan_stuck(parts, m, n - 1, bound);
    }
}

fn str_eq_lit_prefix(s: &Vec<char>, p: &str) -> (b: bool)
    ensures
        b == p@.is_prefix_of(s@),
{
    let pv = lit(p);
    starts_with_vec(s, &pv)
}

/// `mime_text`, computed: `None` for the fault case where a boundary cannot
/// be sliced out, otherwise the plain text if there is one.
pub fn try_extract_plain_text(content_type: &str, transfer_encoding: &str, body: &str) -> (r:
    Option<Option<String>>)
    ensures
        match r {
            None => mime_text(content_type@, transfer_encoding@, body@) is None,
            Some(t) => mime_text(content_type@, transfer_encoding@, body@) == Some(opt_view(t)),
        },
    decreases body@.len(),
{
    let ctl = lowercase_vec(&chars_of(content_type));
    if str_eq_lit_prefix(&ctl, "multipart/") {
        if try_get_boundary(content_type).is_none() {
            return None;
        }
        let boundary = match get_boundary(content_type) {
            None => return Some(None),
            Some(b) => b,
        };
        let mut delim = lit("--");
        proof {
            reveal_strlit("--");
        }
        assert(delim@ =~= seq!['-', '-']);
        let bv = chars_of(boundary.as_str());
        extend_vec(&mut delim, &bv);
        let body_v = chars_of(body);
        let parts = split_str_vec(&body_v, &delim);
        proof {
            crate::text::lemma_split_str_len(body@, delim@);
        }
        let ghost ps = split_str(body@, delim@);
        let ghost bound = body@.len() as int;
        let mut plain: Option<String> = None;
        let mut html: Option<String> = None;
        let crlf_set = lit("\r\n");
        proof {
            reveal_strlit("\r\n");
        }
        assert(crlf_set@ =~= seq!['\r', '\n']);
        let mut i: usize = 0;
        while i < parts.len()
            invariant
                i <= parts@.len(),
                views(parts@) == ps,
                ps == split_str(body@, delim@),
                "multipart/"@.is_prefix_of(lowercase(content_type@)),
                !boundary_fault(content_type@),
                boundary_value(content_type@) == Some(boundary@),
                delim@ == seq!['-', '-'] + boundary@,
                bound == body@.len(),
                forall|k: int| 0 <= k < ps.len() ==> (#[trigger] ps[k]).len() <= body@.len(),
                crlf_set@ == seq!['\r', '\n'],
                parts_scan(ps, i as int, bound) == Some((opt_view(plain), opt_view(html))),
            decreases parts.len() - i,
        {
            let ghost acc = (opt_view(plain), opt_view(html));
            assert(parts@[i as int]@ == ps[i as int]);
            let part = trim_start_chars_vec(&parts[i], &crlf_set);
            let dashes = lit("--");
            proof {
                reveal_strlit("--");
            }
            let tsp = trim_start_vec(&part);
            if is_blank_vec(&part) || starts_with_vec(&tsp, &dashes) {
                assert(part_step(acc, ps[i as int], bound) == Some(acc));
                i += 1;
                continue;
            }
            proof {
                lemma_part_body_shorter(ps[i as int], bound);
            }
            let part_s = string_of(&part);
            let (hraw, pbody) = split_headers_body(part_s.as_str());
            let hs = parse_headers(hraw);
            let pct: String = match get_header(hs.as_slice(), "content-type") {
                Some(v) => v.to_string(),
                None => "text/plain".to_string(),
            };
            let pcte: String = match get_header(hs.as_slice(), "content-transfer-encoding") {
                Some(v) => v.to_string(),
                None => "7bit".to_string(),
            };
            let pctl = lowercase_vec(&chars_of(pct.as_str()));
            if str_eq_lit_prefix(&pctl, "multipart/") {
                if plain.is_none() {
                    match try_extract_plain_text(pct.as_str(), pcte.as_str(), pbody) {
                        None => {
                            proof {
                                assert(part_step(acc, ps[i as int], bound) is None);
                                assert(parts_scan(ps, i + 1, bound) is None);
                                lemma_parts_scan_stuck(ps, i + 1, ps.len() as int, bound);
                            }
                            return None;
                        },
                        Some(Some(nested)) => {
                            plain = Some(nested);
                        },
                        Some(None) => {},
                    }
                }
                i += 1;
                continue;
            }
            let decoded = decode_body(pbody, pcte.as_str());
            if str_eq_lit_prefix(&pctl, "text/plain") && plain.is_none() {
                plain = Some(decoded);
            } else if str_eq_lit_prefix(&pctl, "text/html") && html.is_none() {
                html = Some(decoded);
            }
            i += 1;
        }
        match plain {
            Some(p) => Some(Some(p)),
            None => match html {
                Some(h) => Some(Some(strip_html_tags(h.as_str()))),
                None => Some(None),
            },
        }
    } else {
        let decoded = decode_body(body, transfer_encoding);
        if str_eq_lit_prefix(&ctl, "text/html") {
            Some(Some(strip_html_tags(decoded.as_str())))
        } else {
            Some(Some(decoded))
        }
    }
}

/// Extracts the plain text of a MIME message, preferring text/plain over
/// text/html and descending into nested multiparts (e.g. a
/// multipart/alternative inside a multipart/mixed).
pub fn extract_plain_text(content_type: &str, transfer_encoding: &str, body: &str) -> (r: Option<
    String,
>)
    requires
        mime_text(content_type@, transfer_encoding@, body@) is Some,
    ensures
        mime_text(content_type@, transfer_encoding@, body@) == Some(opt_view(r)),
{
    match try_extract_plain_text(content_type, transfer_encoding, body) {
        Some(t) => t,
        None => None,
    }
}

} // verus!

verus! {

// ---------------------------------------------------------------------------
// Senders and dates
// ---------------------------------------------------------------------------

/// Display name of a `From:` header: encoded-words decoded; with `"<...>"`,
/// the text before `'<'` (trimmed, quotes removed) or, if that is empty, the
/// address between the angle brackets; otherwise the whole decoded text,
/// trimmed. `None` when the first `'>'` comes before the first `'<'` (the
/// address cannot be sliced out).
pub open spec fn sender_name(raw: Seq<char>) -> Option<Seq<char>> {
    let d = decode_words(raw);
    match (find(d, seq!['<']), find(d, seq!['>'])) {
        (Some(lt), Some(gt)) => if gt < lt {
            None
        } else {
            let name = trim_char(trim(d.take(lt)), '"');
            let email = trim(d.subrange(lt + 1, gt));
            Some(
                if name.len() == 0 {
                    email
                } else {
                    name
                },
            )
        },
        _ => Some(trim(d)),
    }
}

/// `sender_name`, or `None` when the address cannot be sliced out.
pub fn try_parse_from_header(raw: &str) -> (r: Option<String>)
    ensures
        opt_view(r) == sender_name(raw@),
{
    let decoded = decode_encoded_words(raw);
    let d = chars_of(decoded.as_str());
    proof {
        lemma_find_bound(d@, seq!['<']);
        lemma_find_bound(d@, seq!['>']);
    }
    if let Some(lt) = find_char(&d, '<') {
        if let Some(gt) = find_char(&d, '>') {
            if gt < lt {
                return None;
            }
            if gt == lt {
                proof {
                    crate::text::lemma_find(d@, seq!['<']);
                    crate::text::lemma_find(d@, seq!['>']);
                    assert(d@.subrange(lt as int, lt + 1)[0] == d@[lt as int]);
                    assert(d@.subrange(gt as int, gt + 1)[0] == d@[gt as int]);
                }
                return None;
            }
            let head = slice_vec(&d, 0, lt);
            let name = trim_char_vec(&trim_vec(&head), '"');
            let mid = slice_vec(&d, lt + 1, gt);
            let email = trim_vec(&mid);
            return if name.len() == 0 {
                Some(string_of(&email))
            } else {
                Some(string_of(&name))
            };
        }
    }
    Some(string_of(&trim_vec(&d)))
}

/// Display name of a `From:` header.
pub fn parse_from_header(raw: &str) -> (r: String)
    requires
        sender_name(raw@) is Some,
    ensures
        sender_name(raw@) == Some(r@),
{
    match try_parse_from_header(raw) {
        Some(s) => s,
        None => String::new(),
    }
}

/// What `chrono::DateTime::parse_from_rfc2822(s)` followed by `to_rfc3339`
/// gives, or `None` when `s` is not an RFC 2822 date.
pub uninterp spec fn rfc2822_reparsed(s: Seq<char>) -> Option<Seq<char>>;

/// Calls `chrono::DateTime::parse_from_rfc2822` and renders the result with
/// `to_rfc3339`; the result is `rfc2822_reparsed` of the argument.
#[verifier::external_body]
fn reparse_rfc2822(s: &str) -> (r: Option<String>)
    ensures
        opt_view(r) == rfc2822_reparsed(s@),
{
    chrono::DateTime::parse_from_rfc2822(s).ok().map(|dt| dt.to_rfc3339())
}

/// Date of a `Date:` header: a trailing comment such as `"(UTC)"` is cut at
/// the first `'('`, then the text is read as RFC 2822.
pub open spec fn mail_date(raw: Seq<char>) -> Option<Seq<char>> {
    let cleaned = match find(raw, seq!['(']) {
        Some(i) => trim(raw.take(i)),
        None => trim(raw),
    };
    rfc2822_reparsed(cleaned)
}

/// RFC 3339 form of a mail `Date:` header.
pub fn parse_gmail_date(raw: &str) -> (r: Option<String>)
    ensures
        opt_view(r) == mail_date(raw@),
{
    let v = chars_of(raw);
    proof {
        lemma_find_bound(v@, seq!['(']);
    }
    let cleaned = match find_char(&v, '(') {
        Some(i) => trim_vec(&slice_vec(&v, 0, i)),
        None => trim_vec(&v),
    };
    let c = string_of(&cleaned);
    reparse_rfc2822(c.as_str())
}

} // verus!

verus! {

// ---------------------------------------------------------------------------
// Mailbox
// ---------------------------------------------------------------------------

/// `"From "`, the line that starts every message of an mbox.
pub open spec fn from_line() -> Seq<char> {
    seq!['F', 'r', 'o', 'm', ' ']
}

/// Groups the first `n` lines (with their line feeds): a line other than the
/// first that starts with `"From "` starts a new message. Returns the
/// finished messages and the one in progress.
pub open spec fn mbox_fold(ls: Seq<Seq<char>>, n: int) -> (Seq<Seq<char>>, Seq<char>)
    decreases n,
{
    if n <= 0 {
        (seq![], seq![])
    } else {
        let r = mbox_fold(ls, n - 1);
        let l = ls[n - 1];
        if n - 1 >= 1 && from_line().is_prefix_of(l) {
            (r.0.push(r.1), l)
        } else {
            (r.0, r.1 + l)
        }
    }
}

/// The blocks of `bs[..n]` that are not blank.
pub open spec fn non_blank(bs: Seq<Seq<char>>, n: int) -> Seq<Seq<char>>
    decreases n,
{
    if n <= 0 {
        seq![]
    } else if is_blank(bs[n - 1]) {
        non_blank(bs, n - 1)
    } else {
        non_blank(bs, n - 1).push(bs[n - 1])
    }
}

/// The messages of an mbox: split before every `"From "` line except the
/// first, blank pieces dropped. (An mbox escapes `"From "` at the start of a
/// body line as `">From "`, so splitting on those lines is safe.)
pub open spec fn mbox_blocks(content: Seq<char>) -> Seq<Seq<char>> {
    let ls = crate::text::split_inclusive_nl(content);
    let r = mbox_fold(ls, ls.len() as int);
    let all = r.0.push(r.1);
    non_blank(all, all.len() as int)
}

proof fn lemma_concat_take_prefix(ps: Seq<Seq<char>>, k: int)
    requires
        0 <= k <= ps.len(),
    ensures
        crate::text::concat_pieces(ps.take(k)).is_prefix_of(crate::text::concat_pieces(ps)),
    decreases ps.len(),
{
    if k == ps.len() {
        assert(ps.take(k) =~= ps);
    } else {
        assert(ps.take(k) =~= ps.drop_last().take(k));
        lemma_concat_take_prefix(ps.drop_last(), k);
    }
}

proof fn lemma_piece_at(ps: Seq<Seq<char>>, k: int, content: Seq<char>)
    requires
        crate::text::concat_pieces(ps) == content,
        0 <= k < ps.len(),
    ensures
        crate::text::concat_pieces(ps.take(k + 1)) == crate::text::concat_pieces(ps.take(k)) + ps[k],
        crate::text::concat_pieces(ps.take(k)).len() + ps[k].len() <= content.len(),
        content.subrange(
            crate::text::concat_pieces(ps.take(k)).len() as int,
            (crate::text::concat_pieces(ps.take(k)).len() + ps[k].len()) as int,
        ) == ps[k],
{
    let a = crate::text::concat_pieces(ps.take(k));
    let b = crate::text::concat_pieces(ps.take(k + 1));
    assert(ps.take(k + 1).drop_last() =~= ps.take(k));
    assert(ps.take(k + 1).last() == ps[k]);
    assert(b == a + ps[k]);
    lemma_concat_take_prefix(ps, k + 1);
    assert(b.is_prefix_of(content));
    assert(content.subrange(a.len() as int, (a.len() + ps[k].len()) as int) =~= ps[k]) by {
        assert forall|j: int| 0 <= j < ps[k].len() implies content[a.len() + j] == ps[k][j] by {
            assert(content[a.len() + j] == b[a.len() + j]);
        }
    }
}

proof fn lemma_non_blank_push(bs: Seq<Seq<char>>, x: Seq<char>, m: int)
    requires
        0 <= m <= bs.len(),
    ensures
        non_blank(bs.push(x), m) == non_blank(bs, m),
    decreases m,
{
    if m > 0 {
        lemma_non_blank_push(bs, x, m - 1);
        assert(bs.push(x)[m - 1] == bs[m - 1]);
    }
}

/// The messages of an `.mbox` file.
pub fn split_mbox_messages<'a>(content: &'a str) -> (r: Vec<&'a str>)
    ensures
        r@.map_values(|b: &str| b@) == mbox_blocks(content@),
{
    let v = chars_of(content);
    let ls = crate::text::split_inclusive_nl_vec(&v);
    let ghost ps = crate::text::split_inclusive_nl(content@);
    proof {
        crate::text::lemma_split_inclusive_concat(content@);
    }
    let from = lit("From ");
    proof {
        reveal_strlit("From ");
    }
    assert(from@ =~= from_line());
    let mut blocks: Vec<&'a str> = Vec::new();
    let mut start: usize = 0;
    let mut offset: usize = 0;
    let mut k: usize = 0;
    let ghost mut done: Seq<Seq<char>> = seq![];
    while k < ls.len()
        invariant
            k <= ls@.len(),
            v@ == content@,
            ls@.len() == ps.len(),
            forall|j: int| 0 <= j < ls@.len() ==> #[trigger] ls@[j]@ == ps[j],
            crate::text::concat_pieces(ps) == content@,
            from@ == from_line(),
            offset == crate::text::concat_pieces(ps.take(k as int)).len(),
            start <= offset <= content@.len(),
            mbox_fold(ps, k as int) == (done, content@.subrange(start as int, offset as int)),
            blocks@.map_values(|b: &str| b@) == non_blank(done, done.len() as int),
        decreases ls.len() - k,
    {
        proof {
            lemma_piece_at(ps, k as int, content@);
        }
        let piece_len = ls[k].len();
        assert(ls@[k as int]@ == ps[k as int]);
        assert(offset + piece_len <= content@.len());
        assert(content@.subrange(offset as int, offset + piece_len) == ps[k as int]);
        if k >= 1 && starts_with_vec(&ls[k], &from) {
            let cur = slice_vec(&v, start, offset);
            let ghost old_blocks = blocks@.map_values(|b: &str| b@);
            proof {
                lemma_non_blank_push(done, cur@, done.len() as int);
            }
            if !is_blank_vec(&cur) {
                let b = content.substring_char(start, offset);
                blocks.push(b);
                assert(blocks@.map_values(|b: &str| b@) =~= old_blocks.push(cur@));
            }
            proof {
                done = done.push(cur@);
            }
            start = offset;
        } else {
            assert(content@.subrange(start as int, offset + piece_len) =~= content@.subrange(
                start as int,
                offset as int,
            ) + ps[k as int]);
        }
        offset = offset + piece_len;
        k += 1;
    }
    assert(ps.take(ls@.len() as int) =~= ps);
    let cur = slice_vec(&v, start, offset);
    let ghost all = done.push(cur@);
    proof {
        lemma_non_blank_push(done, cur@, done.len() as int);
    }
    if !is_blank_vec(&cur) {
        let b = content.substring_char(start, offset);
        let ghost old_blocks = blocks@.map_values(|b: &str| b@);
        blocks.push(b);
        assert(blocks@.map_values(|b: &str| b@) =~= old_blocks.push(cur@));
    }
    blocks
}

} // verus!

verus! {

// ---------------------------------------------------------------------------
// Import plan of a mailbox
// ---------------------------------------------------------------------------

/// The `X-Gmail-Labels` value holds the label `sent` (labels are compared
/// lowercased and trimmed, split on commas).
pub open spec fn sent_label(labels: Seq<char>) -> bool {
    exists|k: int|
        0 <= k < split_set(lowercase(labels), seq![',']).len() && trim(
            #[trigger] split_set(lowercase(labels), seq![','])[k],
        ) == "sent"@
}

/// Splitting on commas a text whose first comma ends `p`.
proof fn lemma_split_at_first_comma(p: Seq<char>, q: Seq<char>)
    requires
        !p.contains(','),
    ensures
        split_set(p + seq![','] + q, seq![',']) == seq![p] + split_set(q, seq![',']),
{
    let s = p + seq![','] + q;
    lemma_first_in(s, seq![',']);
    assert(s[p.len() as int] == ',');
    assert(seq![','].contains(s[p.len() as int]));
    match first_in(s, seq![',']) {
        Some(i) => {
            if i < p.len() {
                assert(s[i] == p[i]);
                assert(seq![','].contains(s[i]));
                assert(s[i] == ',');
                assert(p.contains(p[i]));
            }
            assert(s.take(i) =~= p);
            assert(s.skip(i + 1) =~= q);
        },
        None => {},
    }
}

/// Law of authorship, one label: when the lowercased labels hold no comma,
/// the mail is the user's exactly when they are, trimmed, `"sent"` (so
/// `"Sent"` marks it and `"Inbox"` does not).
pub proof fn law_single_label_sent(labels: Seq<char>)
    requires
        !lowercase(labels).contains(','),
    ensures
        sent_label(labels) <==> trim(lowercase(labels)) == "sent"@,
{
    let lw = lowercase(labels);
    lemma_first_in(lw, seq![',']);
    match first_in(lw, seq![',']) {
        Some(i) => {
            assert(seq![','].contains(lw[i]));
            assert(lw[i] == ',');
            assert(lw.contains(lw[i]));
        },
        None => {},
    }
    assert(split_set(lw, seq![',']) == seq![lw]);
    if trim(lw) == "sent"@ {
        assert(trim(split_set(lw, seq![','])[0]) == "sent"@);
    }
}

/// Law of authorship, a list of labels: when the lowercased labels are a
/// first label `p`, a comma and the rest `q`, the mail is the user's exactly
/// when `p`, trimmed, is `"sent"` or one of the comma-separated labels of `q`,
/// trimmed, is.
pub proof fn law_label_list_sent(labels: Seq<char>, p: Seq<char>, q: Seq<char>)
    requires
        lowercase(labels) == p + seq![','] + q,
        !p.contains(','),
    ensures
        sent_label(labels) <==> (trim(p) == "sent"@ || exists|k: int|
            0 <= k < split_set(q, seq![',']).len() && trim(#[trigger] split_set(q, seq![','])[k])
                == "sent"@),
{
    lemma_split_at_first_comma(p, q);
    let all = split_set(lowercase(labels), seq![',']);
    let rest = split_set(q, seq![',']);
    assert(all == seq![p] + rest);
    if sent_label(labels) {
        let k = choose|k: int| 0 <= k < all.len() && trim(#[trigger] all[k]) == "sent"@;
        if k > 0 {
            assert(all[k] == rest[k - 1]);
        }
    }
    if trim(p) == "sent"@ {
        assert(trim(all[0]) == "sent"@);
    }
    if exists|k: int| 0 <= k < rest.len() && trim(#[trigger] rest[k]) == "sent"@ {
        let k = choose|k: int| 0 <= k < rest.len() && trim(#[trigger] rest[k]) == "sent"@;
        assert(all[k + 1] == rest[k]);
        assert(trim(all[k + 1]) == "sent"@);
    }
}

fn has_sent_label(labels: &str) -> (b: bool)
    ensures
        b == sent_label(labels@),
{
    let lower = lowercase_vec(&chars_of(labels));
    let mut comma: Vec<char> = Vec::new();
    comma.push(',');
    assert(comma@ =~= seq![',']);
    let pieces = split_set_vec(&lower, &comma);
    let sent = lit("sent");
    proof {
        reveal_strlit("sent");
    }
    let ghost ps = split_set(lowercase(labels@), seq![',']);
    let mut k: usize = 0;
    while k < pieces.len()
        invariant
            k <= pieces@.len(),
            lower@ == lowercase(labels@),
            comma@ == seq![','],
            ps == split_set(lowercase(labels@), seq![',']),
            pieces@.len() == ps.len(),
            forall|i: int| 0 <= i < pieces@.len() ==> #[trigger] pieces@[i]@ == ps[i],
            sent@ == "sent"@,
            forall|j: int| 0 <= j < k ==> trim(#[trigger] ps[j]) != "sent"@,
        decreases pieces.len() - k,
    {
        let t = trim_vec(&pieces[k]);
        if t.len() == sent.len() && starts_with_vec(&t, &sent) {
            assert(t@ =~= sent@);
            assert(trim(ps[k as int]) == "sent"@);
            return true;
        }
        assert(t@ != sent@);
        k += 1;
    }
    false
}

/// What one message of a mailbox contributes to an import.
pub struct MailRecord {
    /// The plain text, trimmed.
    pub text: String,
    /// RFC 3339 form of the `Date:` header, when it reads as one (the import
    /// uses the current time otherwise).
    pub timestamp: Option<String>,
    /// Labelled `sent`: written by the user.
    pub is_user: bool,
    /// Display name of the sender, for a message not written by the user.
    pub sender: Option<String>,
}

/// One block of a mailbox.
pub enum MailBlock {
    /// Nothing to import: no line after the `From ` line, or no text.
    Skipped,
    Record(MailRecord),
    /// A header whose parts cannot be sliced out (see `boundary_fault` and
    /// `sender_name`): the import cannot go on past it.
    Unsliceable,
}

/// `(text, timestamp, is_user, sender)` of a record.
pub type MailView = (Seq<char>, Option<Seq<char>>, bool, Option<Seq<char>>);

pub open spec fn mail_view(b: MailBlock) -> Option<Option<MailView>> {
    match b {
        MailBlock::Skipped => Some(None),
        MailBlock::Record(r) => Some(Some((r.text@, opt_view(r.timestamp), r.is_user, opt_view(r.sender)))),
        MailBlock::Unsliceable => None,
    }
}

/// The record of one mailbox block: the line after the `From ` line starts
/// the headers; the content type defaults to `text/plain` and the transfer
/// encoding to `7bit`; a block without text is skipped; the sender defaults
/// to `"Desconocido"`. `None` in the unsliceable cases.
pub open spec fn mail_block(block: Seq<char>) -> Option<Option<MailView>> {
    match find(block, seq!['\n']) {
        None => Some(None),
        Some(i) => {
            let hb = headers_body(block.skip(i + 1));
            let hs = headers_of(hb.0);
            let ct = header_or(hs, "content-type"@, "text/plain"@);
            let te = header_or(hs, "content-transfer-encoding"@, "7bit"@);
            match mime_text(ct, te, hb.1) {
                None => None,
                Some(None) => Some(None),
                Some(Some(t)) => if is_blank(t) {
                    Some(None)
                } else {
                    let ts = match header_value(hs, "date"@) {
                        Some(d) => mail_date(d),
                        None => None,
                    };
                    if sent_label(header_or(hs, "x-gmail-labels"@, ""@)) {
                        Some(Some((trim(t), ts, true, None)))
                    } else {
                        match sender_name(header_or(hs, "from"@, "Desconocido"@)) {
                            None => None,
                            Some(n) => Some(Some((trim(t), ts, false, Some(n)))),
                        }
                    }
                },
            }
        },
    }
}

fn header_or_default(hs: &Vec<(String, String)>, name: &str, default: &str) -> (r: String)
    ensures
        r@ == header_or(header_views(hs@), name@, default@),
{
    match get_header(hs.as_slice(), name) {
        Some(v) => v.to_owned(),
        None => default.to_owned(),
    }
}

/// Reads one block of a mailbox (see `mail_block`).
pub fn plan_mail_block(block: &str) -> (r: MailBlock)
    ensures
        mail_view(r) == mail_block(block@),
{
    let v = chars_of(block);
    proof {
        lemma_find_bound(v@, seq!['\n']);
    }
    let i = match find_char(&v, '\n') {
        None => return MailBlock::Skipped,
        Some(i) => i,
    };
    let n = v.len();
    assert(i + 1 <= n);
    let after = block.substring_char(i + 1, n);
    assert(after@ =~= block@.skip(i + 1));
    let (hraw, body) = split_headers_body(after);
    let hs = parse_headers(hraw);
    let ct = header_or_default(&hs, "content-type", "text/plain");
    let te = header_or_default(&hs, "content-transfer-encoding", "7bit");
    if try_extract_plain_text(ct.as_str(), te.as_str(), body).is_none() {
        return MailBlock::Unsliceable;
    }
    let text = match extract_plain_text(ct.as_str(), te.as_str(), body) {
        None => return MailBlock::Skipped,
        Some(t) => t,
    };
    let tv = chars_of(text.as_str());
    if is_blank_vec(&tv) {
        return MailBlock::Skipped;
    }
    let trimmed = string_of(&trim_vec(&tv));
    let timestamp = match get_header(hs.as_slice(), "date") {
        Some(d) => parse_gmail_date(d),
        None => None,
    };
    let labels = header_or_default(&hs, "x-gmail-labels", "");
    if has_sent_label(labels.as_str()) {
        return MailBlock::Record(MailRecord { text: trimmed, timestamp, is_user: true, sender: None });
    }
    let from = header_or_default(&hs, "from", "Desconocido");
    match try_parse_from_header(from.as_str()) {
        None => MailBlock::Unsliceable,
        Some(_) => {
            let name = parse_from_header(from.as_str());
            MailBlock::Record(
                MailRecord { text: trimmed, timestamp, is_user: false, sender: Some(name) },
            )
        },
    }
}

pub open spec fn no_mail_error() -> Seq<char> {
    "no se encontraron mensajes en el archivo .mbox"@
}

/// The blocks of an `.mbox` file, each read with `plan_mail_block`; an error
/// when the file holds no message at all.
pub fn plan_mailbox(content: &str) -> (r: Result<Vec<MailBlock>, String>)
    ensures
        match r {
            Ok(bs) => mbox_blocks(content@).len() > 0 && bs@.len() == mbox_blocks(content@).len()
                && forall|k: int|
                0 <= k < bs@.len() ==> mail_view(#[trigger] bs@[k]) == mail_block(mbox_blocks(content@)[k]),
            Err(e) => mbox_blocks(content@).len() == 0 && e@ == no_mail_error(),
        },
{
    let blocks = split_mbox_messages(content);
    let ghost bv = mbox_blocks(content@);
    assert(blocks@.len() == bv.len());
    if blocks.len() == 0 {
        return Err("no se encontraron mensajes en el archivo .mbox".to_owned());
    }
    let mut out: Vec<MailBlock> = Vec::new();
    let mut k: usize = 0;
    while k < blocks.len()
        invariant
            k <= blocks@.len(),
            bv == mbox_blocks(content@),
            blocks@.map_values(|b: &str| b@) == bv,
            out@.len() == k,
            forall|j: int| 0 <= j < k ==> mail_view(#[trigger] out@[j]) == mail_block(bv[j]),
        decreases blocks.len() - k,
    {
        assert(blocks@[k as int]@ == bv[k as int]);
        out.push(plan_mail_block(blocks[k]));
        k += 1;
    }
    Ok(out)
}

} // verus!

verus! {

proof fn lemma_mbox_fold_concat(ls: Seq<Seq<char>>, n: int)
    requires
        0 <= n <= ls.len(),
    ensures
        crate::text::concat_pieces(mbox_fold(ls, n).0) + mbox_fold(ls, n).1
            == crate::text::concat_pieces(ls.take(n)),
    decreases n,
{
    let r = mbox_fold(ls, n);
    if n == 0 {
        assert(ls.take(0) =~= Seq::<Seq<char>>::empty());
        assert(crate::text::concat_pieces(r.0) + r.1 =~= Seq::<char>::empty());
    } else {
        lemma_mbox_fold_concat(ls, n - 1);
        let p = mbox_fold(ls, n - 1);
        let l = ls[n - 1];
        assert(ls.take(n).drop_last() =~= ls.take(n - 1));
        assert(ls.take(n).last() == l);
        if n - 1 >= 1 && from_line().is_prefix_of(l) {
            assert(p.0.push(p.1).drop_last() =~= p.0);
            assert(crate::text::concat_pieces(p.0.push(p.1)) == crate::text::concat_pieces(p.0) + p.1);
        } else {
            assert(crate::text::concat_pieces(p.0) + (p.1 + l) =~= (crate::text::concat_pieces(p.0)
                + p.1) + l);
        }
    }
}

/// Splitting a mailbox loses no text: the pieces cut before each `"From "`
/// line (blank ones included, before they are dropped) put back together
/// give the whole file.
pub proof fn law_mbox_split_keeps_text(content: Seq<char>)
    ensures
        ({
            let ls = crate::text::split_inclusive_nl(content);
            let r = mbox_fold(ls, ls.len() as int);
            crate::text::concat_pieces(r.0.push(r.1)) == content
        }),
{
    let ls = crate::text::split_inclusive_nl(content);
    let r = mbox_fold(ls, ls.len() as int);
    lemma_mbox_fold_concat(ls, ls.len() as int);
    assert(ls.take(ls.len() as int) =~= ls);
    crate::text::lemma_split_inclusive_concat(content);
    assert(r.0.push(r.1).drop_last() =~= r.0);
}

} // verus!
