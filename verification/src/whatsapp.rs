//! WhatsApp chat exports (`.txt`, Android or iOS layout): message headers,
//! their date and time, multi-line messages, and the stable fingerprint of a
//! chat (its sorted set of authors).
use vstd::prelude::*;
use vstd::string::StrSliceExecFns;

use crate::datetime::{rfc3339_utc, utc_rfc3339, valid_hms, valid_ymd};
use crate::text::{
    chars_of, contains, contains_vec, find, find_char, find_vec, is_blank, is_blank_vec,
    lemma_find_bound, lines, lines_vec, lit, parse_i32, parse_i32_vec, parse_u32, parse_u32_vec,
    slice_vec, split_once, split_once_vec, split_set, split_set_vec, starts_with_char,
    strip_suffix, strip_suffix_vec, string_of, trim, trim_end_char, trim_end_char_vec, trim_start,
    trim_vec,
};

verus! {

/// iOS header: `"[12/1/23, 10:15:00 AM] rest"`. The header is the text between
/// the leading `'['` and the first `']'`, and must contain a comma; the rest
/// loses its leading whitespace.
pub open spec fn ios_header(line: Seq<char>) -> Option<(Seq<char>, Seq<char>)> {
    if !starts_with_char(line, '[') {
        None
    } else {
        match find(line, seq![']']) {
            None => None,
            Some(end) => {
                let header = line.subrange(1, end);
                if !contains(header, seq![',']) {
                    None
                } else {
                    Some((header, trim_start(line.skip(end + 1))))
                }
            },
        }
    }
}

/// Android header: `"12/1/23, 10:15 - rest"`. The header is the text before
/// the first `" - "`, and must contain a comma.
pub open spec fn android_header(line: Seq<char>) -> Option<(Seq<char>, Seq<char>)> {
    match find(line, seq![' ', '-', ' ']) {
        None => None,
        Some(idx) => {
            let header = line.take(idx);
            if !contains(header, seq![',']) {
                None
            } else {
                Some((header, line.skip(idx + 3)))
            }
        },
    }
}

/// Splits an iOS-style header line; `None` if the line does not have one.
pub fn split_ios_header<'a>(line: &'a str) -> (r: Option<(&'a str, &'a str)>)
    ensures
        match r {
            Some((h, rest)) => ios_header(line@) == Some((h@, rest@)),
            None => ios_header(line@) is None,
        },
{
    let v = chars_of(line);
    if v.len() == 0 || v[0] != '[' {
        return None;
    }
    let end = match find_char(&v, ']') {
        Some(e) => e,
        None => return None,
    };
    proof {
        lemma_find_bound(v@, seq![']']);
        crate::text::lemma_find(v@, seq![']']);
        if end == 0 {
            assert(v@.subrange(0, 1)[0] == v@[0]);
        }
    }
    let header_v = slice_vec(&v, 1, end);
    let comma = lit(",");
    proof {
        reveal_strlit(",");
    }
    assert(comma@ =~= seq![',']);
    if !contains_vec(&header_v, &comma) {
        return None;
    }
    let header = line.substring_char(1, end);
    let after = slice_vec(&v, end + 1, v.len());
    let lead = crate::text::lead_ws_len(&after);
    proof {
        crate::text::lemma_lead_ws_bound(after@);
        assert(after@ =~= v@.skip(end + 1));
    }
    let rest = line.substring_char(end + 1 + lead, v.len());
    assert(rest@ =~= trim_start(v@.skip(end + 1)));
    Some((header, rest))
}

/// Splits an Android-style header line; `None` if the line does not have one.
pub fn split_android_header<'a>(line: &'a str) -> (r: Option<(&'a str, &'a str)>)
    ensures
        match r {
            Some((h, rest)) => android_header(line@) == Some((h@, rest@)),
            None => android_header(line@) is None,
        },
{
    let v = chars_of(line);
    let sep = lit(" - ");
    proof {
        reveal_strlit(" - ");
    }
    assert(sep@ =~= seq![' ', '-', ' ']);
    let idx = match find_vec(&v, &sep) {
        Some(i) => i,
        None => return None,
    };
    proof {
        lemma_find_bound(v@, seq![' ', '-', ' ']);
    }
    let header_v = slice_vec(&v, 0, idx);
    let comma = lit(",");
    proof {
        reveal_strlit(",");
    }
    assert(comma@ =~= seq![',']);
    assert(header_v@ =~= v@.take(idx as int));
    if !contains_vec(&header_v, &comma) {
        return None;
    }
    let header = line.substring_char(0, idx);
    let vlen = v.len();
    assert(idx + 3 <= vlen);
    let rest = line.substring_char(idx + 3, vlen);
    assert(header@ =~= v@.take(idx as int));
    assert(rest@ =~= v@.skip(idx + 3));
    Some((header, rest))
}

/// The time without its meridiem marker, and whether it was PM (`Some(true)`),
/// AM (`Some(false)`) or absent (`None`). `"AM"`/`"a. m."` and
/// `"PM"`/`"p. m."` are recognised, in that order.
pub open spec fn meridiem(t: Seq<char>) -> (Seq<char>, Option<bool>) {
    if let Some(s) = strip_suffix(t, seq!['A', 'M']) {
        (trim(s), Some(false))
    } else if let Some(s) = strip_suffix(t, seq!['a', '.', ' ', 'm', '.']) {
        (trim(s), Some(false))
    } else if let Some(s) = strip_suffix(t, seq!['P', 'M']) {
        (trim(s), Some(true))
    } else if let Some(s) = strip_suffix(t, seq!['p', '.', ' ', 'm', '.']) {
        (trim(s), Some(true))
    } else {
        (t, None)
    }
}

/// 12-hour clock to 24-hour clock: PM adds 12 except at 12 (with `u32`
/// wrap-around, as a release build computes it), and 12 AM is 0.
pub open spec fn clock_hour(h: u32, pm: Option<bool>) -> u32 {
    match pm {
        Some(true) => if h != 12 {
            ((h as int + 12) % 0x1_0000_0000) as u32
        } else {
            h
        },
        Some(false) => if h == 12 {
            0
        } else {
            h
        },
        None => h,
    }
}

/// Date and time of a WhatsApp header as RFC 3339 (UTC). The date is
/// `day/month/year` (or with dots), a year below 100 means 2000 plus it; the
/// time is `h:mm[:ss]` with an optional AM/PM marker; seconds that do not parse
/// count as 0.
pub open spec fn wa_timestamp(date_str: Seq<char>, time_str: Seq<char>) -> Option<Seq<char>> {
    let bits = split_set(trim(date_str), seq!['/', '.']);
    if bits.len() != 3 {
        None
    } else {
        match (parse_u32(bits[0]), parse_u32(bits[1]), parse_i32(bits[2])) {
            (Some(day), Some(month), Some(y)) => {
                let year: int = if y < 100 {
                    y + 2000
                } else {
                    y as int
                };
                let m = meridiem(trim(time_str));
                let tb = split_set(m.0, seq![':']);
                if tb.len() < 2 {
                    None
                } else {
                    match (parse_u32(tb[0]), parse_u32(tb[1])) {
                        (Some(h), Some(mi)) => {
                            let sec: u32 = if tb.len() > 2 {
                                match parse_u32(tb[2]) {
                                    Some(s) => s,
                                    None => 0,
                                }
                            } else {
                                0
                            };
                            let hour = clock_hour(h, m.1);
                            if valid_ymd(year, month as int, day as int) && valid_hms(
                                hour as int,
                                mi as int,
                                sec as int,
                            ) {
                                Some(
                                    rfc3339_utc(
                                        year,
                                        month as int,
                                        day as int,
                                        hour as int,
                                        mi as int,
                                        sec as int,
                                    ),
                                )
                            } else {
                                None
                            }
                        },
                        _ => None,
                    }
                }
            },
            _ => None,
        }
    }
}

/// Timestamp of a header `"date, time"`: split at the first `", "`.
pub open spec fn header_timestamp(header: Seq<char>) -> Option<Seq<char>> {
    match split_once(header, seq![',', ' ']) {
        Some((d, t)) => wa_timestamp(d, t),
        None => None,
    }
}

fn meridiem_vec(t: &Vec<char>) -> (r: (Vec<char>, Option<bool>))
    ensures
        (r.0@, r.1) == meridiem(t@),
{
    let am = lit("AM");
    let am2 = lit("a. m.");
    let pm = lit("PM");
    let pm2 = lit("p. m.");
    proof {
        reveal_strlit("AM");
        reveal_strlit("a. m.");
        reveal_strlit("PM");
        reveal_strlit("p. m.");
    }
    assert(am@ =~= seq!['A', 'M']);
    assert(am2@ =~= seq!['a', '.', ' ', 'm', '.']);
    assert(pm@ =~= seq!['P', 'M']);
    assert(pm2@ =~= seq!['p', '.', ' ', 'm', '.']);
    if let Some(s) = strip_suffix_vec(t, &am) {
        return (trim_vec(&s), Some(false));
    }
    if let Some(s) = strip_suffix_vec(t, &am2) {
        return (trim_vec(&s), Some(false));
    }
    if let Some(s) = strip_suffix_vec(t, &pm) {
        return (trim_vec(&s), Some(true));
    }
    if let Some(s) = strip_suffix_vec(t, &pm2) {
        return (trim_vec(&s), Some(true));
    }
    (slice_vec(t, 0, t.len()), None)
}

fn parse_whatsapp_timestamp(date_str: &Vec<char>, time_str: &Vec<char>) -> (r: Option<String>)
    ensures
        match r {
            Some(s) => wa_timestamp(date_str@, time_str@) == Some(s@),
            None => wa_timestamp(date_str@, time_str@) is None,
        },
{
    let mut seps: Vec<char> = Vec::new();
    seps.push('/');
    seps.push('.');
    assert(seps@ =~= seq!['/', '.']);
    let d = trim_vec(date_str);
    let bits = split_set_vec(&d, &seps);
    if bits.len() != 3 {
        return None;
    }
    let day = match parse_u32_vec(&bits[0]) {
        Some(x) => x,
        None => return None,
    };
    let month = match parse_u32_vec(&bits[1]) {
        Some(x) => x,
        None => return None,
    };
    let y = match parse_i32_vec(&bits[2]) {
        Some(x) => x,
        None => return None,
    };
    let year: i32 = if y < 100 {
        y + 2000
    } else {
        y
    };
    let t = trim_vec(time_str);
    let (main, mer) = meridiem_vec(&t);
    let mut colon: Vec<char> = Vec::new();
    colon.push(':');
    assert(colon@ =~= seq![':']);
    let tb = split_set_vec(&main, &colon);
    if tb.len() < 2 {
        return None;
    }
    let h = match parse_u32_vec(&tb[0]) {
        Some(x) => x,
        None => return None,
    };
    let mi = match parse_u32_vec(&tb[1]) {
        Some(x) => x,
        None => return None,
    };
    let sec: u32 = if tb.len() > 2 {
        match parse_u32_vec(&tb[2]) {
            Some(s) => s,
            None => 0,
        }
    } else {
        0
    };
    let hour: u32 = match mer {
        Some(true) => if h != 12 {
            h.wrapping_add(12)
        } else {
            h
        },
        Some(false) => if h == 12 {
            0
        } else {
            h
        },
        None => h,
    };
    assert(hour == clock_hour(h, mer));
    utc_rfc3339(year, month, day, hour, mi, sec)
}

/// Parses the `"date, time"` header of a WhatsApp line into an RFC 3339 UTC
/// timestamp.
pub fn parse_header_datetime(header: &str) -> (r: Option<String>)
    ensures
        match r {
            Some(s) => header_timestamp(header@) == Some(s@),
            None => header_timestamp(header@) is None,
        },
{
    let h = chars_of(header);
    let sep = lit(", ");
    proof {
        reveal_strlit(", ");
    }
    assert(sep@ =~= seq![',', ' ']);
    match split_once_vec(&h, &sep) {
        Some((d, t)) => parse_whatsapp_timestamp(&d, &t),
        None => None,
    }
}

/// The 24-hour clock hour of `h` o'clock AM or PM (`1 <= h <= 12`): 12 AM
/// is 0, 12 PM is 12, any other PM hour is 12 more.
pub open spec fn twelve_hour_clock(h: int, pm: bool) -> int {
    if h == 12 {
        if pm {
            12
        } else {
            0
        }
    } else if pm {
        h + 12
    } else {
        h
    }
}

/// Law of 12-hour times: when a header's time reads `h:mm` with `1 <= h <= 12`
/// and an AM or PM marker, the timestamp's hour is `h + 12` for `h` PM, 12 for
/// 12 PM, 0 for 12 AM and `h` for `h` AM. So a PM time never gives an hour
/// below 12, and an AM time never one of 12 or more.
pub proof fn law_twelve_hour_clock(date_str: Seq<char>, time_str: Seq<char>, h: u32)
    requires
        meridiem(trim(time_str)).1 is Some,
        split_set(meridiem(trim(time_str)).0, seq![':']).len() >= 2,
        parse_u32(split_set(meridiem(trim(time_str)).0, seq![':'])[0]) == Some(h),
        1 <= h <= 12,
        wa_timestamp(date_str, time_str) is Some,
    ensures
        exists|y: int, mo: int, d: int, mi: int, sec: int|
            wa_timestamp(date_str, time_str) == Some(
                #[trigger] rfc3339_utc(y, mo, d, twelve_hour_clock(h as int, meridiem(trim(time_str)).1->0), mi, sec),
            ),
        meridiem(trim(time_str)).1 == Some(true) ==> 12 <= twelve_hour_clock(h as int, true) <= 23,
        meridiem(trim(time_str)).1 == Some(false) ==> 0 <= twelve_hour_clock(h as int, false) < 12,
{
    let m = meridiem(trim(time_str));
    let tb = split_set(m.0, seq![':']);
    let bits = split_set(trim(date_str), seq!['/', '.']);
    assert(bits.len() == 3);
    match (parse_u32(bits[0]), parse_u32(bits[1]), parse_i32(bits[2])) {
        (Some(day), Some(month), Some(y)) => {
            let year: int = if y < 100 {
                y + 2000
            } else {
                y as int
            };
            match (parse_u32(tb[0]), parse_u32(tb[1])) {
                (Some(h0), Some(mi)) => {
                    assert(h0 == h);
                    let sec: u32 = if tb.len() > 2 {
                        match parse_u32(tb[2]) {
                            Some(s) => s,
                            None => 0,
                        }
                    } else {
                        0
                    };
                    let s = wa_timestamp(date_str, time_str)->0;
                    assert(s == rfc3339_utc(
                        year,
                        month as int,
                        day as int,
                        clock_hour(h, m.1) as int,
                        mi as int,
                        sec as int,
                    ));
                    assert(clock_hour(h, m.1) as int == twelve_hour_clock(h as int, m.1->0));
                    assert(wa_timestamp(date_str, time_str) == Some(
                        rfc3339_utc(
                            year,
                            month as int,
                            day as int,
                            twelve_hour_clock(h as int, m.1->0),
                            mi as int,
                            sec as int,
                        ),
                    ));
                },
                _ => {
                    assert(false);
                },
            }
        },
        _ => {
            assert(false);
        },
    }
}

/// A message of a WhatsApp export.
pub struct ParsedMessage {
    pub author: String,
    pub text: String,
    pub timestamp: String,
}

/// `(author, text, timestamp)` of a parsed message.
pub open spec fn msg_view(m: ParsedMessage) -> (Seq<char>, Seq<char>, Seq<char>) {
    (m.author@, m.text@, m.timestamp@)
}

/// The header of a line, iOS layout tried first.
pub open spec fn line_header(line: Seq<char>) -> Option<(Seq<char>, Seq<char>)> {
    match ios_header(line) {
        Some(x) => Some(x),
        None => android_header(line),
    }
}

/// The rest of a line after a header with a valid date, and that date.
pub open spec fn stamped_line(line: Seq<char>) -> Option<(Seq<char>, Seq<char>)> {
    match line_header(line) {
        Some((h, rest)) => match header_timestamp(h) {
            Some(ts) => Some((rest, ts)),
            None => None,
        },
        None => None,
    }
}

/// Effect of one line of the export on the messages parsed so far: a header
/// with a valid date and `"Name: text"` starts a message; a header with a
/// valid date but no author (a system message) is dropped; any other non-blank
/// line continues the last message.
pub open spec fn wa_step(msgs: Seq<(Seq<char>, Seq<char>, Seq<char>)>, raw_line: Seq<char>) -> Seq<
    (Seq<char>, Seq<char>, Seq<char>),
> {
    let line = trim_end_char(raw_line, '\r');
    if is_blank(line) {
        msgs
    } else {
        match stamped_line(line) {
            Some((rest, ts)) => match split_once(rest, seq![':', ' ']) {
                Some((name, text)) => msgs.push((trim(name), trim(text), ts)),
                None => msgs,
            },
            None => if msgs.len() > 0 {
                let last = msgs.last();
                msgs.drop_last().push((last.0, last.1 + seq!['\n'] + trim(line), last.2))
            } else {
                msgs
            },
        }
    }
}

/// Messages parsed from the first `n` lines.
pub open spec fn wa_messages(ls: Seq<Seq<char>>, n: int) -> Seq<(Seq<char>, Seq<char>, Seq<char>)>
    decreases n,
{
    if n <= 0 {
        seq![]
    } else {
        wa_step(wa_messages(ls, n - 1), ls[n - 1])
    }
}

/// All messages of an export.
pub open spec fn wa_parse(content: Seq<char>) -> Seq<(Seq<char>, Seq<char>, Seq<char>)> {
    wa_messages(lines(content), lines(content).len() as int)
}

/// Parses the full text of a WhatsApp export. System messages (someone
/// joined, changed the icon, ...) have no `"Name: text"` and are discarded;
/// lines without a header are appended to the last real message.
pub fn parse_whatsapp_text(content: &str) -> (r: Vec<ParsedMessage>)
    ensures
        r@.map_values(|m: ParsedMessage| msg_view(m)) == wa_parse(content@),
{
    let c = chars_of(content);
    let ls = lines_vec(&c);
    let mut msgs: Vec<ParsedMessage> = Vec::new();
    let sep = lit(": ");
    proof {
        reveal_strlit(": ");
    }
    assert(sep@ =~= seq![':', ' ']);
    let mut i: usize = 0;
    while i < ls.len()
        invariant
            i <= ls@.len(),
            ls@.len() == lines(c@).len(),
            forall|k: int| 0 <= k < ls@.len() ==> #[trigger] ls@[k]@ == lines(c@)[k],
            c@ == content@,
            sep@ == seq![':', ' '],
            msgs@.map_values(|m: ParsedMessage| msg_view(m)) == wa_messages(
                lines(c@),
                i as int,
            ),
        decreases ls.len() - i,
    {
        let ghost before = msgs@.map_values(|m: ParsedMessage| msg_view(m));
        let line = trim_end_char_vec(&ls[i], '\r');
        assert(line@ == trim_end_char(lines(c@)[i as int], '\r'));
        if !is_blank_vec(&line) {
            let line_s = string_of(&line);
            let header_and_rest = match split_ios_header(line_s.as_str()) {
                Some(x) => Some(x),
                None => split_android_header(line_s.as_str()),
            };
            let mut stamped: Option<(Vec<char>, String)> = None;
            if let Some((header, rest)) = header_and_rest {
                if let Some(ts) = parse_header_datetime(header) {
                    stamped = Some((chars_of(rest), ts));
                }
            }
            assert(line_s@ == line@);
            assert(match stamped {
                Some((r, t)) => stamped_line(line@) == Some((r@, t@)),
                None => stamped_line(line@) is None,
            });
            match stamped {
                Some((rest, ts)) => {
                    if let Some((name, text)) = split_once_vec(&rest, &sep) {
                        let m = ParsedMessage {
                            author: string_of(&trim_vec(&name)),
                            text: string_of(&trim_vec(&text)),
                            timestamp: ts,
                        };
                        msgs.push(m);
                        assert(msgs@.map_values(|m: ParsedMessage| msg_view(m)) =~= before.push(
                            msg_view(m),
                        ));
                        assert(msgs@.map_values(|m: ParsedMessage| msg_view(m)) =~= wa_step(before, lines(c@)[i as int]));
                    }
                },
                None => {
                    let n = msgs.len();
                    if n > 0 {
                        let mut last = msgs.pop().unwrap();
                        assert(msg_view(last) == before.last());
                        let mut t = chars_of(last.text.as_str());
                        t.push('\n');
                        let tl = trim_vec(&line);
                        crate::text::extend_vec(&mut t, &tl);
                        last.text = string_of(&t);
                        assert(msgs@.map_values(|m: ParsedMessage| msg_view(m)) =~= before.drop_last());
                        msgs.push(last);
                        assert(msgs@.map_values(|m: ParsedMessage| msg_view(m)) =~= before.drop_last().push(
                            msg_view(last),
                        ));
                        assert(msg_view(last) == (before.last().0, before.last().1 + seq!['\n'] + trim(line@), before.last().2));
                        assert(msgs@.map_values(|m: ParsedMessage| msg_view(m)) =~= wa_step(before, lines(c@)[i as int]));
                    }
                },
            }
        }
        assert(msgs@.map_values(|m: ParsedMessage| msg_view(m)) =~= wa_step(before, lines(c@)[i as int]));
        i += 1;
    }
    assert(ls@.len() == lines(c@).len());
    msgs
}

} // verus!
