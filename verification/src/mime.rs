//! MIME decoding used by the mailbox importer: header encoded-words
//! (`=?charset?Q|B?text?=`), the `quoted-printable` and `base64` transfer
//! encodings, and the plain text of HTML bodies.
use vstd::prelude::*;
use vstd::string::StringSliceAdditionalSpecFns;
use vstd::utf8::{decode_utf8, encode_utf8, valid_utf8};

use base64::Engine;

use crate::text::{
    chars_of, extend_vec, find, find_char, find_vec, is_whitespace, is_ws, lemma_find_bound, lit,
    lowercase, lowercase_vec, replace_all, replace_all_vec, slice_vec, string_of, trim, trim_vec,
    uppercase, uppercase_vec,
};

verus! {

// ---------------------------------------------------------------------------
// Outside decoders
// ---------------------------------------------------------------------------

/// What the standard base64 engine (`base64::engine::general_purpose::STANDARD`,
/// alphabet `A-Z a-z 0-9 + /` with canonical padding) decodes from `input`, or
/// `None` when `input` is not valid base64 for it.
pub uninterp spec fn base64_decoded(input: Seq<u8>) -> Option<Seq<u8>>;

/// What `quoted_printable::decode(input, ParseMode::Robust)` returns, or `None`
/// when it reports an error.
pub uninterp spec fn qp_decoded(input: Seq<u8>) -> Option<Seq<u8>>;

/// What `String::from_utf8_lossy` makes of `bytes`: the text they encode, with
/// U+FFFD for every invalid sequence.
pub uninterp spec fn utf8_lossy(bytes: Seq<u8>) -> Seq<char>;

/// Calls `Engine::decode` on `base64::engine::general_purpose::STANDARD`; the
/// result is `base64_decoded` of the input, the error mapped to `None`.
#[verifier::external_body]
fn base64_decode(input: &[u8]) -> (r: Option<Vec<u8>>)
    ensures
        r is Some <==> base64_decoded(input@) is Some,
        r matches Some(b) ==> base64_decoded(input@) == Some(b@),
{
    base64::engine::general_purpose::STANDARD.decode(input).ok()
}

/// Calls `quoted_printable::decode` in `ParseMode::Robust`; the result is
/// `qp_decoded` of the input, the error mapped to `None`.
#[verifier::external_body]
fn qp_decode(input: &[u8]) -> (r: Option<Vec<u8>>)
    ensures
        r is Some <==> qp_decoded(input@) is Some,
        r matches Some(b) ==> qp_decoded(input@) == Some(b@),
{
    quoted_printable::decode(input, quoted_printable::ParseMode::Robust).ok()
}

/// Calls `String::from_utf8_lossy`; the result is `utf8_lossy` of the bytes
/// and, as its documentation states, the decoded text itself when the bytes
/// are valid UTF-8.
#[verifier::external_body]
pub(crate) fn lossy_string(bytes: &[u8]) -> (r: String)
    ensures
        r@ == utf8_lossy(bytes@),
        valid_utf8(bytes@) ==> r@ == decode_utf8(bytes@),
{
    String::from_utf8_lossy(bytes).to_string()
}

/// The UTF-8 bytes of a character vector.
fn utf8_of(v: &Vec<char>) -> (b: Vec<u8>)
    ensures
        b@ == encode_utf8(v@),
{
    let s = string_of(v);
    let bytes = s.as_str().as_bytes();
    let mut out: Vec<u8> = Vec::new();
    let mut i: usize = 0;
    while i < bytes.len()
        invariant
            i <= bytes@.len(),
            out@ == bytes@.take(i as int),
        decreases bytes.len() - i,
    {
        out.push(bytes[i]);
        i += 1;
        assert(bytes@.take(i as int) =~= bytes@.take((i - 1) as int).push(bytes@[i - 1]));
    }
    assert(bytes@.take(bytes@.len() as int) =~= bytes@);
    out
}

fn push_bytes(out: &mut Vec<u8>, b: &Vec<u8>)
    ensures
        final(out)@ == old(out)@ + b@,
{
    let mut i: usize = 0;
    while i < b.len()
        invariant
            i <= b@.len(),
            out@ == old(out)@ + b@.take(i as int),
        decreases b.len() - i,
    {
        out.push(b[i]);
        i += 1;
        assert(b@.take(i as int) =~= b@.take((i - 1) as int).push(b@[i - 1]));
    }
    assert(b@.take(b@.len() as int) =~= b@);
}

// ---------------------------------------------------------------------------
// Q encoding
// ---------------------------------------------------------------------------

pub open spec fn hex_value(c: char) -> Option<int> {
    if '0' <= c && c <= '9' {
        Some(c as int - '0' as int)
    } else if 'a' <= c && c <= 'f' {
        Some(c as int - 'a' as int + 10)
    } else if 'A' <= c && c <= 'F' {
        Some(c as int - 'A' as int + 10)
    } else {
        None
    }
}

/// `u8::from_str_radix(h, 16)` for a text of at most two characters: an
/// optional `'+'` and one or two hexadecimal digits.
pub open spec fn hex_byte(h: Seq<char>) -> Option<u8> {
    let body = if h.len() > 0 && h[0] == '+' {
        h.drop_first()
    } else {
        h
    };
    if body.len() == 1 {
        match hex_value(body[0]) {
            Some(v) => Some(v as u8),
            None => None,
        }
    } else if body.len() == 2 {
        match (hex_value(body[0]), hex_value(body[1])) {
            (Some(a), Some(b)) => Some((a * 16 + b) as u8),
            _ => None,
        }
    } else {
        None
    }
}

/// The "Q" encoding of MIME headers: `'_'` is a space, `'='` takes the next
/// (at most two) characters as a hexadecimal byte (dropped when they are not
/// one), any other character stands for its UTF-8 bytes.
pub open spec fn decode_q(s: Seq<char>) -> Seq<u8>
    decreases s.len(),
{
    if s.len() == 0 {
        seq![]
    } else if s[0] == '_' {
        seq![32u8] + decode_q(s.drop_first())
    } else if s[0] == '=' {
        let rest = s.drop_first();
        let n: int = if rest.len() < 2 {
            rest.len() as int
        } else {
            2
        };
        (match hex_byte(rest.take(n)) {
            Some(b) => seq![b],
            None => seq![],
        }) + decode_q(rest.skip(n))
    } else {
        encode_utf8(seq![s[0]]) + decode_q(s.drop_first())
    }
}

fn hex_value_exec(c: char) -> (r: Option<u8>)
    ensures
        match r {
            Some(v) => hex_value(c) == Some(v as int),
            None => hex_value(c) is None,
        },
{
    if '0' <= c && c <= '9' {
        Some((c as u32 - '0' as u32) as u8)
    } else if 'a' <= c && c <= 'f' {
        Some((c as u32 - 'a' as u32 + 10) as u8)
    } else if 'A' <= c && c <= 'F' {
        Some((c as u32 - 'A' as u32 + 10) as u8)
    } else {
        None
    }
}

fn hex_byte_exec(h: &Vec<char>) -> (r: Option<u8>)
    requires
        h@.len() <= 2,
    ensures
        r == hex_byte(h@),
{
    let body = if h.len() > 0 && h[0] == '+' {
        slice_vec(h, 1, h.len())
    } else {
        slice_vec(h, 0, h.len())
    };
    assert(h@.len() > 0 && h@[0] == '+' ==> body@ =~= h@.drop_first());
    assert(!(h@.len() > 0 && h@[0] == '+') ==> body@ =~= h@);
    if body.len() == 1 {
        match hex_value_exec(body[0]) {
            Some(v) => Some(v),
            None => None,
        }
    } else if body.len() == 2 {
        match (hex_value_exec(body[0]), hex_value_exec(body[1])) {
            (Some(a), Some(b)) => Some(a * 16 + b),
            _ => None,
        }
    } else {
        None
    }
}

/// Decodes the text of a "Q" encoded-word into bytes.
pub fn decode_q_encoding(text: &str) -> (out: Vec<u8>)
    ensures
        out@ == decode_q(text@),
{
    let v = chars_of(text);
    let mut out: Vec<u8> = Vec::new();
    let mut i: usize = 0;
    assert(v@.skip(0) =~= v@);
    while i < v.len()
        invariant
            i <= v@.len(),
            v@ == text@,
            out@ + decode_q(v@.skip(i as int)) == decode_q(v@),
        decreases v.len() - i,
    {
        let ghost rest = v@.skip(i as int);
        let ghost before = out@;
        let c = v[i];
        if c == '_' {
            out.push(32u8);
            assert(rest.drop_first() =~= v@.skip(i + 1));
            assert(before + (seq![32u8] + decode_q(rest.drop_first())) =~= out@ + decode_q(
                v@.skip(i + 1),
            ));
            i += 1;
        } else if c == '=' {
            let n: usize = if v.len() - (i + 1) < 2 {
                v.len() - (i + 1)
            } else {
                2
            };
            let h = slice_vec(&v, i + 1, i + 1 + n);
            assert(h@ =~= rest.drop_first().take(n as int));
            assert(rest.drop_first().skip(n as int) =~= v@.skip(i + 1 + n));
            match hex_byte_exec(&h) {
                Some(b) => {
                    out.push(b);
                    assert(before + (seq![b] + decode_q(v@.skip(i + 1 + n))) =~= out@ + decode_q(
                        v@.skip(i + 1 + n),
                    ));
                },
                None => {
                    assert(before + (Seq::<u8>::empty() + decode_q(v@.skip(i + 1 + n))) =~= out@
                        + decode_q(v@.skip(i + 1 + n)));
                },
            }
            i += 1 + n;
        } else {
            let mut one: Vec<char> = Vec::new();
            one.push(c);
            assert(one@ =~= seq![c]);
            let bytes = utf8_of(&one);
            push_bytes(&mut out, &bytes);
            assert(rest.drop_first() =~= v@.skip(i + 1));
            assert(before + (encode_utf8(seq![c]) + decode_q(rest.drop_first())) =~= out@
                + decode_q(v@.skip(i + 1)));
            i += 1;
        }
    }
    assert(v@.skip(v@.len() as int) =~= Seq::<char>::empty());
    assert(decode_q(Seq::<char>::empty()) =~= Seq::<u8>::empty());
    assert(out@ + Seq::<u8>::empty() =~= out@);
    out
}

// ---------------------------------------------------------------------------
// Encoded words in headers
// ---------------------------------------------------------------------------

/// Decoded text of one encoded-word, given the text that follows its `"=?"`,
/// and how many characters of that text it takes: `charset?E?payload?=`.
/// The charset is ignored (the bytes are read as UTF-8); `E` is `B` (base64,
/// undecodable payloads giving no bytes), `Q`, or anything else (the payload
/// taken as is). `None` when the word is not closed.
pub open spec fn encoded_word(after: Seq<char>) -> Option<(Seq<char>, int)> {
    match find(after, seq!['?']) {
        None => None,
        Some(q1) => {
            let enc = after.skip(q1 + 1);
            match find(enc, seq!['?']) {
                None => None,
                Some(q2) => {
                    let ec = uppercase(enc.take(q2));
                    let ae = enc.skip(q2 + 1);
                    match find(ae, seq!['?', '=']) {
                        None => None,
                        Some(end) => {
                            let payload = ae.take(end);
                            let bytes = if ec == seq!['B'] {
                                match base64_decoded(encode_utf8(payload)) {
                                    Some(b) => b,
                                    None => seq![],
                                }
                            } else if ec == seq!['Q'] {
                                decode_q(payload)
                            } else {
                                encode_utf8(payload)
                            };
                            Some((utf8_lossy(bytes), q1 + 1 + q2 + 1 + end + 2))
                        },
                    }
                },
            }
        },
    }
}

pub proof fn lemma_encoded_word_bound(after: Seq<char>)
    ensures
        encoded_word(after) matches Some((d, n)) ==> 0 <= n <= after.len(),
{
    lemma_find_bound(after, seq!['?']);
    if let Some(q1) = find(after, seq!['?']) {
        let enc = after.skip(q1 + 1);
        lemma_find_bound(enc, seq!['?']);
        if let Some(q2) = find(enc, seq!['?']) {
            let ae = enc.skip(q2 + 1);
            lemma_find_bound(ae, seq!['?', '=']);
        }
    }
}

/// Header text with every encoded-word decoded; an unclosed `"=?"` stays as is.
pub open spec fn decode_words(rest: Seq<char>) -> Seq<char>
    decreases rest.len(),
{
    proof {
        lemma_find_bound(rest, seq!['=', '?']);
    }
    match find(rest, seq!['=', '?']) {
        None => rest,
        Some(start) => {
            let after = rest.skip(start + 2);
            proof {
                lemma_encoded_word_bound(after);
            }
            rest.take(start) + match encoded_word(after) {
                Some((d, n)) => d + decode_words(after.skip(n)),
                None => seq!['=', '?'] + decode_words(after),
            }
        },
    }
}

fn encoded_word_exec(after: &Vec<char>) -> (r: Option<(Vec<char>, usize)>)
    ensures
        match r {
            Some((d, n)) => encoded_word(after@) == Some((d@, n as int)),
            None => encoded_word(after@) is None,
        },
{
    proof {
        lemma_find_bound(after@, seq!['?']);
    }
    let q1 = match find_char(after, '?') {
        Some(x) => x,
        None => return None,
    };
    let alen = after.len();
    assert(q1 + 1 <= alen);
    let enc = slice_vec(after, q1 + 1, alen);
    assert(enc@ =~= after@.skip(q1 + 1));
    proof {
        lemma_find_bound(enc@, seq!['?']);
    }
    let q2 = match find_char(&enc, '?') {
        Some(x) => x,
        None => return None,
    };
    let elen = enc.len();
    assert(q2 + 1 <= elen);
    let ecs = slice_vec(&enc, 0, q2);
    assert(ecs@ =~= enc@.take(q2 as int));
    let ec = uppercase_vec(&ecs);
    let ae = slice_vec(&enc, q2 + 1, elen);
    assert(ae@ =~= enc@.skip(q2 + 1));
    let close = lit("?=");
    proof {
        reveal_strlit("?=");
        lemma_find_bound(ae@, seq!['?', '=']);
    }
    assert(close@ =~= seq!['?', '=']);
    let end = match find_vec(&ae, &close) {
        Some(x) => x,
        None => return None,
    };
    let aelen = ae.len();
    assert(end + 2 <= aelen);
    let payload = slice_vec(&ae, 0, end);
    assert(payload@ =~= ae@.take(end as int));
    let is_b = ec.len() == 1 && ec[0] == 'B';
    let is_q = ec.len() == 1 && ec[0] == 'Q';
    assert(is_b == (ec@ == seq!['B'])) by {
        if ec@ == seq!['B'] {
            assert(ec@[0] == 'B');
        }
        if is_b {
            assert(ec@ =~= seq!['B']);
        }
    }
    assert(is_q == (ec@ == seq!['Q'])) by {
        if ec@ == seq!['Q'] {
            assert(ec@[0] == 'Q');
        }
        if is_q {
            assert(ec@ =~= seq!['Q']);
        }
    }
    let bytes: Vec<u8> = if is_b {
        let raw = utf8_of(&payload);
        match base64_decode(raw.as_slice()) {
            Some(b) => b,
            None => Vec::new(),
        }
    } else if is_q {
        let ps = string_of(&payload);
        decode_q_encoding(ps.as_str())
    } else {
        utf8_of(&payload)
    };
    let decoded = lossy_string(bytes.as_slice());
    let d = chars_of(decoded.as_str());
    Some((d, q1 + 1 + q2 + 1 + end + 2))
}

/// Decodes the MIME "encoded-words" (`=?charset?Q|B?text?=`) of a header. The
/// charset is not consulted: the bytes are read as UTF-8.
pub fn decode_encoded_words(input: &str) -> (r: String)
    ensures
        r@ == decode_words(input@),
{
    let mut result: Vec<char> = Vec::new();
    let mut rest = chars_of(input);
    let open = lit("=?");
    proof {
        reveal_strlit("=?");
    }
    assert(open@ =~= seq!['=', '?']);
    loop
        invariant_except_break
            open@ == seq!['=', '?'],
            decode_words(input@) == result@ + decode_words(rest@),
        ensures
            decode_words(input@) == result@,
        decreases rest@.len(),
    {
        proof {
            lemma_find_bound(rest@, seq!['=', '?']);
        }
        match find_vec(&rest, &open) {
            None => {
                extend_vec(&mut result, &rest);
                break ;
            },
            Some(start) => {
                let rlen = rest.len();
                assert(start + 2 <= rlen);
                let before = slice_vec(&rest, 0, start);
                let after = slice_vec(&rest, start + 2, rlen);
                assert(before@ =~= rest@.take(start as int));
                assert(after@ =~= rest@.skip(start + 2));
                proof {
                    lemma_encoded_word_bound(after@);
                }
                let ghost r0 = result@;
                extend_vec(&mut result, &before);
                match encoded_word_exec(&after) {
                    Some((d, n)) => {
                        extend_vec(&mut result, &d);
                        let next = slice_vec(&after, n, after.len());
                        assert(next@ =~= after@.skip(n as int));
                        assert(r0 + (before@ + (d@ + decode_words(next@))) =~= result@
                            + decode_words(next@));
                        rest = next;
                    },
                    None => {
                        extend_vec(&mut result, &open);
                        assert(r0 + (before@ + (seq!['=', '?'] + decode_words(after@))) =~= result@
                            + decode_words(after@));
                        rest = after;
                    },
                }
            },
        }
    }
    string_of(&result)
}

// ---------------------------------------------------------------------------
// Transfer encodings
// ---------------------------------------------------------------------------

/// The characters of `s` that are not whitespace.
pub open spec fn without_ws(s: Seq<char>) -> Seq<char>
    decreases s.len(),
{
    if s.len() == 0 {
        seq![]
    } else if is_ws(s.last()) {
        without_ws(s.drop_last())
    } else {
        without_ws(s.drop_last()).push(s.last())
    }
}

/// Body text after undoing its `Content-Transfer-Encoding`
/// (`quoted-printable` or `base64`, case-insensitive); an undecodable body,
/// or any other encoding, is kept as is. Decoded bytes are read as UTF-8.
pub open spec fn decoded_body(body: Seq<char>, te: Seq<char>) -> Seq<char> {
    let enc = trim(lowercase(te));
    if enc == "quoted-printable"@ {
        match qp_decoded(encode_utf8(body)) {
            Some(b) => utf8_lossy(b),
            None => body,
        }
    } else if enc == "base64"@ {
        match base64_decoded(encode_utf8(without_ws(body))) {
            Some(b) => utf8_lossy(b),
            None => body,
        }
    } else {
        body
    }
}

fn without_ws_vec(s: &Vec<char>) -> (r: Vec<char>)
    ensures
        r@ == without_ws(s@),
{
    let mut out: Vec<char> = Vec::new();
    let mut i: usize = 0;
    while i < s.len()
        invariant
            i <= s@.len(),
            out@ == without_ws(s@.take(i as int)),
        decreases s.len() - i,
    {
        assert(s@.take(i + 1).drop_last() =~= s@.take(i as int));
        if !is_whitespace(s[i]) {
            out.push(s[i]);
        }
        i += 1;
    }
    assert(s@.take(s@.len() as int) =~= s@);
    out
}

/// Undoes the transfer encoding of a body.
pub fn decode_body(body: &str, transfer_encoding: &str) -> (r: String)
    ensures
        r@ == decoded_body(body@, transfer_encoding@),
{
    let te = chars_of(transfer_encoding);
    let enc = trim_vec(&lowercase_vec(&te));
    let qp = lit("quoted-printable");
    let b64 = lit("base64");
    let b = chars_of(body);
    if crate::text::matches_at(&enc, &qp, 0) && enc.len() == qp.len() {
        assert(enc@ =~= qp@) by {
            assert(enc@.subrange(0, qp@.len() as int) =~= enc@);
        }
        let raw = utf8_of(&b);
        match qp_decode(raw.as_slice()) {
            Some(bytes) => lossy_string(bytes.as_slice()),
            None => string_of(&b),
        }
    } else if crate::text::matches_at(&enc, &b64, 0) && enc.len() == b64.len() {
        assert(enc@ =~= b64@) by {
            assert(enc@.subrange(0, b64@.len() as int) =~= enc@);
        }
        assert(enc@ != "quoted-printable"@) by {
            if enc@ == "quoted-printable"@ {
                assert(enc@.subrange(0, qp@.len() as int) =~= enc@);
            }
        }
        let cleaned = without_ws_vec(&b);
        let raw = utf8_of(&cleaned);
        match base64_decode(raw.as_slice()) {
            Some(bytes) => lossy_string(bytes.as_slice()),
            None => string_of(&b),
        }
    } else {
        assert(enc@ != "quoted-printable"@) by {
            if enc@ == "quoted-printable"@ {
                assert(enc@.subrange(0, qp@.len() as int) =~= enc@);
            }
        }
        assert(enc@ != "base64"@) by {
            if enc@ == "base64"@ {
                assert(enc@.subrange(0, b64@.len() as int) =~= enc@);
            }
        }
        string_of(&b)
    }
}

// ---------------------------------------------------------------------------
// HTML to text
// ---------------------------------------------------------------------------

/// The characters of `s` outside `<...>` tags.
pub open spec fn untagged(s: Seq<char>, in_tag: bool) -> Seq<char>
    decreases s.len(),
{
    if s.len() == 0 {
        seq![]
    } else if s[0] == '<' {
        untagged(s.drop_first(), true)
    } else if s[0] == '>' {
        untagged(s.drop_first(), false)
    } else if !in_tag {
        seq![s[0]] + untagged(s.drop_first(), in_tag)
    } else {
        untagged(s.drop_first(), in_tag)
    }
}

/// Plain text of an HTML body: tags removed, then the entities `&nbsp;`,
/// `&amp;`, `&lt;`, `&gt;`, `&quot;` and `&#39;` replaced, in that order.
pub open spec fn html_text(html: Seq<char>) -> Seq<char> {
    let t = untagged(html, false);
    let t1 = replace_all(t, "&nbsp;"@, " "@);
    let t2 = replace_all(t1, "&amp;"@, "&"@);
    let t3 = replace_all(t2, "&lt;"@, "<"@);
    let t4 = replace_all(t3, "&gt;"@, ">"@);
    let t5 = replace_all(t4, "&quot;"@, "\""@);
    replace_all(t5, "&#39;"@, "'"@)
}

/// Removes HTML tags and decodes the common entities.
pub fn strip_html_tags(html: &str) -> (r: String)
    ensures
        r@ == html_text(html@),
{
    let v = chars_of(html);
    let mut out: Vec<char> = Vec::new();
    let mut in_tag = false;
    let mut i: usize = 0;
    assert(v@.skip(0) =~= v@);
    while i < v.len()
        invariant
            i <= v@.len(),
            v@ == html@,
            out@ + untagged(v@.skip(i as int), in_tag) == untagged(v@, false),
        decreases v.len() - i,
    {
        let c = v[i];
        let ghost rest = v@.skip(i as int);
        assert(rest.drop_first() =~= v@.skip(i + 1));
        if c == '<' {
            in_tag = true;
        } else if c == '>' {
            in_tag = false;
        } else if !in_tag {
            let ghost before = out@;
            out.push(c);
            assert(before + (seq![c] + untagged(v@.skip(i + 1), in_tag)) =~= out@ + untagged(
                v@.skip(i + 1),
                in_tag,
            ));
        }
        i += 1;
    }
    assert(v@.skip(v@.len() as int) =~= Seq::<char>::empty());
    assert(out@ + Seq::<char>::empty() =~= out@);
    let e1 = lit("&nbsp;");
    let r1 = lit(" ");
    let e2 = lit("&amp;");
    let r2 = lit("&");
    let e3 = lit("&lt;");
    let r3 = lit("<");
    let e4 = lit("&gt;");
    let r4 = lit(">");
    let e5 = lit("&quot;");
    let r5 = lit("\"");
    let e6 = lit("&#39;");
    let r6 = lit("'");
    proof {
        reveal_strlit("&nbsp;");
        reveal_strlit("&amp;");
        reveal_strlit("&lt;");
        reveal_strlit("&gt;");
        reveal_strlit("&quot;");
        reveal_strlit("&#39;");
    }
    let t1 = replace_all_vec(&out, &e1, &r1);
    let t2 = replace_all_vec(&t1, &e2, &r2);
    let t3 = replace_all_vec(&t2, &e3, &r3);
    let t4 = replace_all_vec(&t3, &e4, &r4);
    let t5 = replace_all_vec(&t4, &e5, &r5);
    let t6 = replace_all_vec(&t5, &e6, &r6);
    string_of(&t6)
}

} // verus!
