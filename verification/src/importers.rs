//! What each importer takes from a file: the messages to store, with their
//! author, whether the user wrote them, their text and their timestamp, and
//! the errors that refuse a file. Storing them (and the duplicate check that
//! goes with it) is the database's part.
use vstd::prelude::*;
use vstd::string::StrSliceExecFns;

use crate::import_common::{
    chat_fingerprint, distinct_in_order, fingerprint, first_seen, normalize_timestamp, normalized,
    now_rfc3339, string_views,
};
use crate::text::{
    chars_of, is_blank, is_blank_vec, lines, lines_vec, lowercase, lowercase_vec, string_of, trim,
    trim_vec,
};
use crate::whatsapp::{msg_view, parse_whatsapp_text, wa_parse, ParsedMessage};

verus! {

// ---------------------------------------------------------------------------
// Shared pieces
// ---------------------------------------------------------------------------

/// A message an importer hands over for storage.
pub struct PlannedMessage {
    /// The person who wrote it, when the format says so.
    pub author: Option<String>,
    pub is_user: bool,
    pub text: String,
    pub timestamp: String,
}

pub open spec fn opt_view(o: Option<String>) -> Option<Seq<char>> {
    match o {
        Some(s) => Some(s@),
        None => None,
    }
}

/// `(author, is_user, text)` of a planned message (its timestamp is stated
/// apart, as it may be the current time).
pub open spec fn planned_view(m: PlannedMessage) -> (Option<Seq<char>>, bool, Seq<char>) {
    (opt_view(m.author), m.is_user, m.text@)
}

/// The name of a file (or of an archive entry) ends with `ext` once
/// lowercased, as the importers pick a format by extension.
pub fn has_extension(name: &str, ext: &str) -> (b: bool)
    ensures
        b == ext@.is_suffix_of(lowercase(name@)),
        crate::text::all_ascii(name@) ==> b == ext@.is_suffix_of(
            name@.map_values(|c: char| crate::text::ascii_lower_char(c)),
        ),
{
    let l = lowercase_vec(&chars_of(name));
    let e = chars_of(ext);
    crate::text::ends_with_vec(&l, &e)
}

/// The fingerprint of a single-thread source (Twitter, Discord, Reddit,
/// generic files, mailboxes): its file name, lowercased, so that importing
/// the same file again lands in the same conversation.
pub fn file_thread_key(file_name: &str) -> (r: String)
    ensures
        r@ == lowercase(file_name@),
        crate::text::all_ascii(file_name@) ==> r@ == file_name@.map_values(
            |c: char| crate::text::ascii_lower_char(c),
        ),
{
    crate::text::to_lowercase(file_name)
}

// ---------------------------------------------------------------------------
// CSV tables
// ---------------------------------------------------------------------------

/// What the `csv` crate (default `ReaderBuilder`: comma-separated, first row
/// as headers) reads as the header row of a text, or its error message.
pub uninterp spec fn csv_header_row(content: Seq<char>) -> Result<Seq<Seq<char>>, Seq<char>>;

/// What the same reader yields for each following record, in order: its
/// fields, or the error message of a record it cannot read.
pub uninterp spec fn csv_record_rows(content: Seq<char>) -> Seq<Result<Seq<Seq<char>>, Seq<char>>>;

pub open spec fn row_view(r: Result<Vec<String>, String>) -> Result<Seq<Seq<char>>, Seq<char>> {
    match r {
        Ok(fs) => Ok(string_views(fs@)),
        Err(e) => Err(e@),
    }
}

/// Builds a `csv::Reader` over the text with `ReaderBuilder::new()` and
/// reads `Reader::headers`; the result is `csv_header_row` of the text.
#[verifier::external_body]
fn read_csv_headers(content: &str) -> (r: Result<Vec<String>, String>)
    ensures
        row_view(r) == csv_header_row(content@),
{
    let mut reader = csv::ReaderBuilder::new().from_reader(content.as_bytes());
    reader.headers().map(|h| h.iter().map(|f| f.to_string()).collect()).map_err(|e| e.to_string())
}

/// Builds the same reader and collects `Reader::records`, each record as
/// its fields or its error message; the result is `csv_record_rows` of the
/// text.
#[verifier::external_body]
fn read_csv_records(content: &str) -> (r: Vec<Result<Vec<String>, String>>)
    ensures
        r@.map_values(|x: Result<Vec<String>, String>| row_view(x)) == csv_record_rows(content@),
{
    let mut reader = csv::ReaderBuilder::new().from_reader(content.as_bytes());
    reader.records().map(|r| r.map(|rec| rec.iter().map(|f| f.to_string()).collect()).map_err(
        |e| e.to_string(),
    )).collect()
}

/// The code of `c` with ASCII capitals lowered.
pub open spec fn ascii_lower(c: char) -> int {
    if 'A' <= c && c <= 'Z' {
        (c as int) + 32
    } else {
        c as int
    }
}

/// `str::eq_ignore_ascii_case`.
pub open spec fn same_ignoring_ascii_case(a: Seq<char>, b: Seq<char>) -> bool {
    a.len() == b.len() && forall|i: int| 0 <= i < a.len() ==> ascii_lower(#[trigger] a[i]) == ascii_lower(b[i])
}

fn ascii_lower_exec(c: char) -> (r: u32)
    ensures
        r == ascii_lower(c),
{
    if 'A' <= c && c <= 'Z' {
        (c as u32) + 32
    } else {
        c as u32
    }
}

fn header_matches(h: &String, name: &str, ignore_case: bool) -> (b: bool)
    ensures
        b == if ignore_case {
            same_ignoring_ascii_case(h@, name@)
        } else {
            h@ == name@
        },
{
    let a = chars_of(h.as_str());
    let n = chars_of(name);
    if a.len() != n.len() {
        return false;
    }
    let mut i: usize = 0;
    while i < a.len()
        invariant
            i <= a@.len(),
            a@.len() == n@.len(),
            a@ == h@,
            n@ == name@,
            forall|j: int| 0 <= j < i ==> if ignore_case {
                ascii_lower(#[trigger] a@[j]) == ascii_lower(n@[j])
            } else {
                a@[j] == n@[j]
            },
        decreases a.len() - i,
    {
        let same = if ignore_case {
            ascii_lower_exec(a[i]) == ascii_lower_exec(n[i])
        } else {
            a[i] == n[i]
        };
        if !same {
            return false;
        }
        i += 1;
    }
    if !ignore_case {
        assert(a@ =~= n@);
    }
    true
}

/// Position of the first header equal to `name` (ignoring ASCII case when
/// asked), searching from `from`.
pub open spec fn column_from(headers: Seq<Seq<char>>, name: Seq<char>, ignore_case: bool, from: int) -> Option<
    int,
>
    decreases headers.len() - from,
{
    if from < 0 || from >= headers.len() {
        None
    } else if (if ignore_case {
        same_ignoring_ascii_case(headers[from], name)
    } else {
        headers[from] == name
    }) {
        Some(from)
    } else {
        column_from(headers, name, ignore_case, from + 1)
    }
}

pub open spec fn column(headers: Seq<Seq<char>>, name: Seq<char>, ignore_case: bool) -> Option<int> {
    column_from(headers, name, ignore_case, 0)
}

/// Position of the column called `name` (ignoring ASCII case when asked).
pub fn find_column(headers: &Vec<String>, name: &str, ignore_case: bool) -> (r: Option<usize>)
    ensures
        match r {
            Some(i) => column(string_views(headers@), name@, ignore_case) == Some(i as int),
            None => column(string_views(headers@), name@, ignore_case) is None,
        },
{
    let ghost hv = string_views(headers@);
    let mut i: usize = 0;
    while i < headers.len()
        invariant
            i <= headers@.len(),
            hv == string_views(headers@),
            column(hv, name@, ignore_case) == column_from(hv, name@, ignore_case, i as int),
        decreases headers.len() - i,
    {
        assert(hv[i as int] == headers@[i as int]@);
        if header_matches(&headers[i], name, ignore_case) {
            return Some(i);
        }
        i += 1;
    }
    None
}

/// The field at `i` of a record, or empty text when the record is shorter.
pub open spec fn field(row: Seq<Seq<char>>, i: int) -> Seq<char> {
    if 0 <= i < row.len() {
        row[i]
    } else {
        seq![]
    }
}

fn field_exec(row: &Vec<String>, i: usize) -> (r: String)
    ensures
        r@ == field(string_views(row@), i as int),
{
    if i < row.len() {
        row[i].clone()
    } else {
        String::new()
    }
}

/// Rows read until the first unreadable record, and that record's error:
/// an importer stores the rows before it and then fails with it.
pub struct CsvImport {
    pub messages: Vec<PlannedMessage>,
    pub error: Option<String>,
}

/// The index of the first unreadable record, or the number of records.
pub open spec fn readable_prefix(rows: Seq<Result<Seq<Seq<char>>, Seq<char>>>, from: int) -> int
    decreases rows.len() - from,
{
    if from < 0 || from >= rows.len() {
        rows.len() as int
    } else if rows[from] is Err {
        from
    } else {
        readable_prefix(rows, from + 1)
    }
}

pub open spec fn first_error(rows: Seq<Result<Seq<Seq<char>>, Seq<char>>>) -> Option<Seq<char>> {
    let k = readable_prefix(rows, 0);
    if k < rows.len() {
        match rows[k] {
            Err(e) => Some(e),
            Ok(_) => None,
        }
    } else {
        None
    }
}

proof fn lemma_readable_prefix(rows: Seq<Result<Seq<Seq<char>>, Seq<char>>>, from: int)
    requires
        0 <= from <= rows.len(),
    ensures
        from <= readable_prefix(rows, from) <= rows.len(),
        forall|j: int| from <= j < readable_prefix(rows, from) ==> (#[trigger] rows[j]) is Ok,
        readable_prefix(rows, from) < rows.len() ==> rows[readable_prefix(rows, from)] is Err,
    decreases rows.len() - from,
{
    if from < rows.len() && rows[from] is Ok {
        lemma_readable_prefix(rows, from + 1);
    }
}

// ---------------------------------------------------------------------------
// Discord
// ---------------------------------------------------------------------------

pub open spec fn discord_timestamp_error() -> Seq<char> {
    "el CSV necesita una columna 'Timestamp' o 'Date'"@
}

pub open spec fn discord_contents_error() -> Seq<char> {
    "el CSV necesita una columna 'Contents' o 'Content'"@
}

/// The timestamp and text columns of a Discord `messages.csv` (names
/// compared ignoring ASCII case, `Timestamp` before `Date`, `Contents`
/// before `Content`).
pub open spec fn discord_columns(headers: Seq<Seq<char>>) -> Result<(int, int), Seq<char>> {
    let ts = match column(headers, "Timestamp"@, true) {
        Some(i) => Some(i),
        None => column(headers, "Date"@, true),
    };
    let ct = match column(headers, "Contents"@, true) {
        Some(i) => Some(i),
        None => column(headers, "Content"@, true),
    };
    match (ts, ct) {
        (None, _) => Err(discord_timestamp_error()),
        (Some(_), None) => Err(discord_contents_error()),
        (Some(t), Some(c)) => Ok((t, c)),
    }
}

/// A Discord row: its trimmed text (skipped when blank), written by the
/// user, at the normalised timestamp.
pub open spec fn discord_row(row: Seq<Seq<char>>, ts: int, ct: int) -> Option<(Option<Seq<char>>, bool, Seq<char>)> {
    let text = trim(field(row, ct));
    if text.len() == 0 {
        None
    } else {
        Some((None, true, text))
    }
}

/// The messages of the readable rows of a table, each by `row_fn`.
pub open spec fn planned_rows(
    rows: Seq<Result<Seq<Seq<char>>, Seq<char>>>,
    n: int,
    row_fn: spec_fn(Seq<Seq<char>>) -> Option<(Option<Seq<char>>, bool, Seq<char>)>,
) -> Seq<(Option<Seq<char>>, bool, Seq<char>)>
    decreases n,
{
    if n <= 0 {
        seq![]
    } else {
        let prev = planned_rows(rows, n - 1, row_fn);
        match rows[n - 1] {
            Ok(r) => match row_fn(r) {
                Some(m) => prev.push(m),
                None => prev,
            },
            Err(_) => prev,
        }
    }
}

/// The raw timestamp cell of each stored row, in the order of the messages.
pub open spec fn planned_cells(
    rows: Seq<Result<Seq<Seq<char>>, Seq<char>>>,
    n: int,
    row_fn: spec_fn(Seq<Seq<char>>) -> Option<(Option<Seq<char>>, bool, Seq<char>)>,
    ts: int,
) -> Seq<Seq<char>>
    decreases n,
{
    if n <= 0 {
        seq![]
    } else {
        let prev = planned_cells(rows, n - 1, row_fn, ts);
        match rows[n - 1] {
            Ok(r) => match row_fn(r) {
                Some(_) => prev.push(field(r, ts)),
                None => prev,
            },
            Err(_) => prev,
        }
    }
}

/// What an import of a table gives: the messages of the rows before the
/// first unreadable one (by `row_fn`), each at the normalised timestamp of
/// its cell in column `ts` when that cell reads as one, and that record's
/// error.
pub open spec fn csv_import_ok(
    r: CsvImport,
    rows: Seq<Result<Seq<Seq<char>>, Seq<char>>>,
    row_fn: spec_fn(Seq<Seq<char>>) -> Option<(Option<Seq<char>>, bool, Seq<char>)>,
    ts: int,
) -> bool {
    let k = readable_prefix(rows, 0);
    &&& r.messages@.map_values(|m: PlannedMessage| planned_view(m)) == planned_rows(rows, k, row_fn)
    &&& r.messages@.len() == planned_cells(rows, k, row_fn, ts).len()
    &&& forall|j: int|
        0 <= j < r.messages@.len() ==> (normalized(#[trigger] planned_cells(rows, k, row_fn, ts)[j]) matches Some(x)
            ==> r.messages@[j].timestamp@ == x)
    &&& opt_view(r.error) == first_error(rows)
}

/// Where the columns an importer reads are.
pub enum CsvLayout {
    /// Discord: the timestamp and the text.
    Discord { timestamp: usize, contents: usize },
    /// Reddit: the date and, at least one of them, the title and the body.
    Reddit { date: usize, title: Option<usize>, body: Option<usize> },
}

pub open spec fn opt_index(o: Option<usize>) -> Option<int> {
    match o {
        Some(i) => Some(i as int),
        None => None,
    }
}

/// A Reddit cell: trimmed, empty when the column is absent.
pub open spec fn reddit_cell(row: Seq<Seq<char>>, col: Option<int>) -> Seq<char> {
    match col {
        Some(i) => trim(field(row, i)),
        None => seq![],
    }
}

/// A Reddit row (comments or posts, all of it the user's own text): the
/// title and the body joined by a blank line when both are there, either one
/// alone otherwise; skipped when both are empty.
pub open spec fn reddit_row(row: Seq<Seq<char>>, title: Option<int>, body: Option<int>) -> Option<
    (Option<Seq<char>>, bool, Seq<char>),
> {
    let t = reddit_cell(row, title);
    let b = reddit_cell(row, body);
    if t.len() > 0 && b.len() > 0 {
        Some((None, true, t + "\n\n"@ + b))
    } else if t.len() > 0 {
        Some((None, true, t))
    } else if b.len() > 0 {
        Some((None, true, b))
    } else {
        None
    }
}

/// Law of Reddit rows: with `t` the trimmed title and `b` the trimmed body
/// (empty when the column is absent), a row gives a message exactly when `t`
/// or `b` is not empty; the message is the user's own, without author; a
/// comment with a body and no title is its body, a post with a title and no
/// body is its title, and with both the text starts with the title and ends
/// with the body.
pub proof fn law_reddit_row_text(row: Seq<Seq<char>>, title: Option<int>, body: Option<int>)
    ensures
        ({
            let t = match title {
                Some(i) => trim(field(row, i)),
                None => Seq::<char>::empty(),
            };
            let b = match body {
                Some(i) => trim(field(row, i)),
                None => Seq::<char>::empty(),
            };
            let r = reddit_row(row, title, body);
            &&& r is Some <==> (t.len() > 0 || b.len() > 0)
            &&& r matches Some(m) ==> m.0 is None && m.1
            &&& (t.len() == 0 && b.len() > 0) ==> r == Some((None::<Seq<char>>, true, b))
            &&& (t.len() > 0 && b.len() == 0) ==> r == Some((None::<Seq<char>>, true, t))
            &&& (t.len() > 0 && b.len() > 0) ==> (r matches Some(m) && t.is_prefix_of(m.2)
                && b.is_suffix_of(m.2) && m.2.len() == t.len() + 2 + b.len())
        }),
{
    let t = reddit_cell(row, title);
    let b = reddit_cell(row, body);
    if t.len() > 0 && b.len() > 0 {
        let x = t + "\n\n"@ + b;
        assert(x.len() == t.len() + 2 + b.len()) by {
            reveal_strlit("\n\n");
        }
        assert(x.take(t.len() as int) =~= t);
        assert(x.skip(x.len() - b.len()) =~= b);
    }
}

pub open spec fn layout_fn(l: CsvLayout) -> spec_fn(Seq<Seq<char>>) -> Option<(Option<Seq<char>>, bool, Seq<char>)> {
    match l {
        CsvLayout::Discord { timestamp, contents } => |r: Seq<Seq<char>>|
            discord_row(r, timestamp as int, contents as int),
        CsvLayout::Reddit { date, title, body } => |r: Seq<Seq<char>>|
            reddit_row(r, opt_index(title), opt_index(body)),
    }
}

/// The column of the timestamp cell.
pub open spec fn layout_ts(l: CsvLayout) -> int {
    match l {
        CsvLayout::Discord { timestamp, .. } => timestamp as int,
        CsvLayout::Reddit { date, .. } => date as int,
    }
}

fn reddit_cell_exec(row: &Vec<String>, col: Option<usize>) -> (r: Vec<char>)
    ensures
        r@ == reddit_cell(string_views(row@), opt_index(col)),
{
    match col {
        Some(i) => trim_vec(&chars_of(field_exec(row, i).as_str())),
        None => Vec::new(),
    }
}

fn layout_row_exec(row: &Vec<String>, layout: &CsvLayout) -> (r: Option<PlannedMessage>)
    ensures
        match r {
            Some(m) => (layout_fn(*layout))(string_views(row@)) == Some(planned_view(m)) && (normalized(
                field(string_views(row@), layout_ts(*layout)),
            ) matches Some(x) ==> m.timestamp@ == x),
            None => (layout_fn(*layout))(string_views(row@)) is None,
        },
{
    match layout {
        CsvLayout::Discord { timestamp, contents } => {
            let text = trim_vec(&chars_of(field_exec(row, *contents).as_str()));
            if text.len() == 0 {
                return None;
            }
            let raw = field_exec(row, *timestamp);
            let ts = normalize_timestamp(raw.as_str());
            Some(PlannedMessage { author: None, is_user: true, text: string_of(&text), timestamp: ts })
        },
        CsvLayout::Reddit { date, title, body } => {
            let t = reddit_cell_exec(row, *title);
            let b = reddit_cell_exec(row, *body);
            let text = if t.len() > 0 && b.len() > 0 {
                let mut s = string_of(&t);
                s.push_str("\n\n");
                s.push_str(string_of(&b).as_str());
                s
            } else if t.len() > 0 {
                string_of(&t)
            } else if b.len() > 0 {
                string_of(&b)
            } else {
                return None;
            };
            let raw = field_exec(row, *date);
            let ts = normalize_timestamp(raw.as_str());
            Some(PlannedMessage { author: None, is_user: true, text, timestamp: ts })
        },
    }
}

/// The messages of the rows of a table read with `layout`, up to the first
/// unreadable record (see `csv_import_ok`).
pub fn plan_rows(rows: &Vec<Result<Vec<String>, String>>, layout: &CsvLayout) -> (r: CsvImport)
    ensures
        csv_import_ok(
            r,
            rows@.map_values(|x: Result<Vec<String>, String>| row_view(x)),
            layout_fn(*layout),
            layout_ts(*layout),
        ),
{
    let ghost rv = rows@.map_values(|x: Result<Vec<String>, String>| row_view(x));
    let ghost f = layout_fn(*layout);
    let ghost ts = layout_ts(*layout);
    let mut messages: Vec<PlannedMessage> = Vec::new();
    let mut i: usize = 0;
    proof {
        lemma_readable_prefix(rv, 0);
    }
    while i < rows.len()
        invariant
            i <= rows@.len(),
            rv == rows@.map_values(|x: Result<Vec<String>, String>| row_view(x)),
            f == layout_fn(*layout),
            ts == layout_ts(*layout),
            i <= readable_prefix(rv, 0),
            forall|j: int| 0 <= j < readable_prefix(rv, 0) ==> (#[trigger] rv[j]) is Ok,
            readable_prefix(rv, 0) <= rv.len(),
            readable_prefix(rv, 0) < rv.len() ==> rv[readable_prefix(rv, 0)] is Err,
            messages@.map_values(|m: PlannedMessage| planned_view(m)) == planned_rows(rv, i as int, f),
            messages@.len() == planned_cells(rv, i as int, f, ts).len(),
            forall|j: int|
                0 <= j < messages@.len() ==> (normalized(#[trigger] planned_cells(rv, i as int, f, ts)[j])
                    matches Some(x) ==> messages@[j].timestamp@ == x),
        decreases rows.len() - i,
    {
        assert(row_view(rows@[i as int]) == rv[i as int]);
        match &rows[i] {
            Err(e) => {
                assert(readable_prefix(rv, 0) == i);
                assert(rv[i as int] == Err::<Seq<Seq<char>>, Seq<char>>(e@));
                return CsvImport { messages, error: Some(e.clone()) };
            },
            Ok(row) => {
                let ghost before = messages@;
                match layout_row_exec(row, layout) {
                    Some(m) => {
                        messages.push(m);
                        assert(messages@.map_values(|m: PlannedMessage| planned_view(m)) =~= before.map_values(
                            |m: PlannedMessage| planned_view(m),
                        ).push(planned_view(m)));
                    },
                    None => {},
                }
                proof {
                    let cells = planned_cells(rv, i + 1, f, ts);
                    assert forall|j: int| 0 <= j < messages@.len() implies (normalized(
                        #[trigger] cells[j],
                    ) matches Some(x) ==> messages@[j].timestamp@ == x) by {
                        if j < before.len() {
                            assert(cells[j] == planned_cells(rv, i as int, f, ts)[j]);
                        }
                    }
                }
            },
        }
        i += 1;
    }
    assert(readable_prefix(rv, 0) == rows@.len());
    CsvImport { messages, error: None }
}

fn first_column(headers: &Vec<String>, a: &str, b: &str) -> (r: Option<usize>)
    ensures
        opt_index(r) == match column(string_views(headers@), a@, true) {
            Some(i) => Some(i),
            None => column(string_views(headers@), b@, true),
        },
{
    match find_column(headers, a, true) {
        Some(i) => Some(i),
        None => find_column(headers, b, true),
    }
}

/// Reads a Discord `messages.csv` (one channel, all of it the user's own
/// text): the `Timestamp`/`Date` and `Contents`/`Content` columns are
/// required; blank texts are skipped; timestamps are normalised.
pub fn plan_discord(content: &str) -> (r: Result<CsvImport, String>)
    ensures
        match r {
            Err(e) => match csv_header_row(content@) {
                Err(h) => e@ == h,
                Ok(hs) => discord_columns(hs) == Err::<(int, int), Seq<char>>(e@),
            },
            Ok(imp) => csv_header_row(content@) matches Ok(hs) && discord_columns(hs) matches Ok(
                (ts, ct),
            ) && csv_import_ok(imp, csv_record_rows(content@), |r: Seq<Seq<char>>| discord_row(r, ts, ct), ts),
        },
{
    let headers = match read_csv_headers(content) {
        Ok(h) => h,
        Err(e) => return Err(e),
    };
    let ts = match first_column(&headers, "Timestamp", "Date") {
        Some(i) => i,
        None => return Err("el CSV necesita una columna 'Timestamp' o 'Date'".to_owned()),
    };
    let ct = match first_column(&headers, "Contents", "Content") {
        Some(i) => i,
        None => return Err("el CSV necesita una columna 'Contents' o 'Content'".to_owned()),
    };
    let rows = read_csv_records(content);
    let layout = CsvLayout::Discord { timestamp: ts, contents: ct };
    let imp = plan_rows(&rows, &layout);
    assert(layout_fn(layout) =~= (|r: Seq<Seq<char>>| discord_row(r, ts as int, ct as int)));
    Ok(imp)
}

pub open spec fn reddit_date_error() -> Seq<char> {
    "el CSV necesita una columna 'date'"@
}

pub open spec fn reddit_text_error() -> Seq<char> {
    "el CSV no tiene columnas 'title' ni 'body' reconocibles (comments.csv o posts.csv de Reddit)"@
}

/// Reads a Reddit `comments.csv` or `posts.csv` (told apart by the `title`
/// column, which only posts have): the `date` column is required, and a
/// `title` or a `body` column; see `reddit_row`.
pub fn plan_reddit(content: &str) -> (r: Result<CsvImport, String>)
    ensures
        match r {
            Err(e) => match csv_header_row(content@) {
                Err(h) => e@ == h,
                Ok(hs) => if column(hs, "date"@, true) is None {
                    e@ == reddit_date_error()
                } else {
                    column(hs, "body"@, true) is None && column(hs, "title"@, true) is None && e@
                        == reddit_text_error()
                },
            },
            Ok(imp) => csv_header_row(content@) matches Ok(hs) && column(hs, "date"@, true) matches Some(d)
                && !(column(hs, "body"@, true) is None && column(hs, "title"@, true) is None)
                && csv_import_ok(
                imp,
                csv_record_rows(content@),
                |r: Seq<Seq<char>>| reddit_row(r, column(hs, "title"@, true), column(hs, "body"@, true)),
                d,
            ),
        },
{
    let headers = match read_csv_headers(content) {
        Ok(h) => h,
        Err(e) => return Err(e),
    };
    let date = match find_column(&headers, "date", true) {
        Some(i) => i,
        None => return Err("el CSV necesita una columna 'date'".to_owned()),
    };
    let body = find_column(&headers, "body", true);
    let title = find_column(&headers, "title", true);
    if body.is_none() && title.is_none() {
        return Err(
            "el CSV no tiene columnas 'title' ni 'body' reconocibles (comments.csv o posts.csv de Reddit)".to_owned(),
        );
    }
    let rows = read_csv_records(content);
    let layout = CsvLayout::Reddit { date, title, body };
    let imp = plan_rows(&rows, &layout);
    assert(layout_fn(layout) =~= (|r: Seq<Seq<char>>|
        reddit_row(
            r,
            column(string_views(headers@), "title"@, true),
            column(string_views(headers@), "body"@, true),
        )));
    Ok(imp)
}

// ---------------------------------------------------------------------------
// WhatsApp
// ---------------------------------------------------------------------------

/// A WhatsApp chat ready to store: its messages, its participants in order
/// of first appearance, and the fingerprint that identifies the chat.
pub struct WhatsappPlan {
    pub messages: Vec<ParsedMessage>,
    pub participants: Vec<String>,
    pub external_id: String,
}

pub open spec fn whatsapp_error() -> Seq<char> {
    "no se reconoció ningún mensaje en el archivo (formato de WhatsApp no soportado)"@
}

/// The authors of parsed messages, in order.
pub open spec fn authors(ms: Seq<(Seq<char>, Seq<char>, Seq<char>)>) -> Seq<Seq<char>> {
    ms.map_values(|m: (Seq<char>, Seq<char>, Seq<char>)| m.0)
}

/// Reads a WhatsApp export (its `.txt` text): the messages, the
/// participants, and the chat's fingerprint (its authors sorted, so that a
/// re-import of the same chat lands in the same conversation); an error when
/// no message is recognised.
pub fn plan_whatsapp(content: &str) -> (r: Result<WhatsappPlan, String>)
    ensures
        match r {
            Err(e) => wa_parse(content@).len() == 0 && e@ == whatsapp_error(),
            Ok(p) => {
                let ms = wa_parse(content@);
                &&& ms.len() > 0
                &&& p.messages@.map_values(|m: ParsedMessage| msg_view(m)) == ms
                &&& string_views(p.participants@) == first_seen(authors(ms), ms.len() as int)
                &&& p.external_id@ == fingerprint(first_seen(authors(ms), ms.len() as int))
            },
        },
{
    let messages = parse_whatsapp_text(content);
    let ghost ms = wa_parse(content@);
    if messages.len() == 0 {
        return Err(
            "no se reconoció ningún mensaje en el archivo (formato de WhatsApp no soportado)".to_owned(),
        );
    }
    let mut names: Vec<String> = Vec::new();
    let mut i: usize = 0;
    while i < messages.len()
        invariant
            i <= messages@.len(),
            messages@.map_values(|m: ParsedMessage| msg_view(m)) == ms,
            string_views(names@) == authors(ms).take(i as int),
        decreases messages.len() - i,
    {
        assert(ms[i as int] == msg_view(messages@[i as int]));
        let ghost before = string_views(names@);
        names.push(messages[i].author.clone());
        assert(string_views(names@) =~= before.push(messages@[i as int].author@));
        assert(authors(ms).take(i + 1) =~= authors(ms).take(i as int).push(authors(ms)[i as int]));
        i += 1;
    }
    assert(authors(ms).take(messages@.len() as int) =~= authors(ms));
    let participants = distinct_in_order(&names);
    let external_id = chat_fingerprint(&participants);
    Ok(WhatsappPlan { messages, participants, external_id })
}

// ---------------------------------------------------------------------------
// Twitter / X
// ---------------------------------------------------------------------------

/// What `chrono::DateTime::parse_from_str(s, "%a %b %d %H:%M:%S %z %Y")`
/// followed by `to_rfc3339` gives, or `None` when `s` does not match.
pub uninterp spec fn twitter_reparsed(s: Seq<char>) -> Option<Seq<char>>;

/// Calls `chrono::DateTime::parse_from_str` with the archive's layout
/// (`"Wed Oct 10 20:19:24 +0000 2018"`) and renders the result with
/// `to_rfc3339`; the result is `twitter_reparsed` of the argument.
#[verifier::external_body]
fn reparse_twitter_date(s: &str) -> (r: Option<String>)
    ensures
        opt_view(r) == twitter_reparsed(s@),
{
    chrono::DateTime::parse_from_str(s, "%a %b %d %H:%M:%S %z %Y").ok().map(|dt| dt.to_rfc3339())
}

/// RFC 3339 form of a tweet's `created_at`.
pub fn parse_twitter_timestamp(created_at: &str) -> (r: Option<String>)
    ensures
        opt_view(r) == twitter_reparsed(created_at@),
{
    reparse_twitter_date(created_at)
}

pub open spec fn no_tweet_array_error() -> Seq<char> {
    "no se encontró el array de tweets en el archivo"@
}

/// `data/tweet.js` assigns the array to a JavaScript variable
/// (`window.YTD.tweet.part0 = [ ... ]`): the JSON is the text from the first
/// `'['` on.
pub fn tweets_json<'a>(content: &'a str) -> (r: Result<&'a str, String>)
    ensures
        match r {
            Ok(j) => crate::text::find(content@, seq!['[']) matches Some(i) && j@ == content@.skip(i),
            Err(e) => crate::text::find(content@, seq!['[']) is None && e@ == no_tweet_array_error(),
        },
{
    let v = chars_of(content);
    proof {
        crate::text::lemma_find_bound(v@, seq!['[']);
    }
    match crate::text::find_char(&v, '[') {
        Some(i) => {
            let n = v.len();
            let j = content.substring_char(i, n);
            assert(j@ =~= content@.skip(i as int));
            Ok(j)
        },
        None => Err("no se encontró el array de tweets en el archivo".to_owned()),
    }
}

pub open spec fn no_tweets_error() -> Seq<char> {
    "no se encontraron tweets en el archivo"@
}

/// The texts of the tweets that are not blank, trimmed.
pub open spec fn tweet_texts(tweets: Seq<(Seq<char>, Seq<char>)>, n: int) -> Seq<Seq<char>>
    decreases n,
{
    if n <= 0 {
        seq![]
    } else {
        let prev = tweet_texts(tweets, n - 1);
        if is_blank(tweets[n - 1].1) {
            prev
        } else {
            prev.push(trim(tweets[n - 1].1))
        }
    }
}

/// The `created_at` of the tweets that are not blank.
pub open spec fn tweet_dates(tweets: Seq<(Seq<char>, Seq<char>)>, n: int) -> Seq<Seq<char>>
    decreases n,
{
    if n <= 0 {
        seq![]
    } else {
        let prev = tweet_dates(tweets, n - 1);
        if is_blank(tweets[n - 1].1) {
            prev
        } else {
            prev.push(tweets[n - 1].0)
        }
    }
}

/// Law of tweet dates: each planned tweet keeps its own date. Among the
/// first `n` tweets, the j-th kept text and the j-th date come from one and
/// the same tweet, a non-blank one (its trimmed text, its `created_at`); and
/// every non-blank tweet is kept with its own date.
pub proof fn law_tweets_keep_their_dates(tweets: Seq<(Seq<char>, Seq<char>)>, n: int)
    requires
        0 <= n <= tweets.len(),
    ensures
        tweet_dates(tweets, n).len() == tweet_texts(tweets, n).len(),
        forall|j: int|
            0 <= j < tweet_texts(tweets, n).len() ==> exists|i: int|
                0 <= i < n && !is_blank(tweets[i].1) && #[trigger] tweet_texts(tweets, n)[j] == trim(
                    tweets[i].1,
                ) && tweet_dates(tweets, n)[j] == tweets[i].0,
        forall|i: int|
            0 <= i < n && !is_blank(#[trigger] tweets[i].1) ==> exists|j: int|
                0 <= j < tweet_texts(tweets, n).len() && tweet_texts(tweets, n)[j] == trim(tweets[i].1)
                    && #[trigger] tweet_dates(tweets, n)[j] == tweets[i].0,
    decreases n,
{
    if n > 0 {
        law_tweets_keep_their_dates(tweets, n - 1);
        let pt = tweet_texts(tweets, n - 1);
        let pd = tweet_dates(tweets, n - 1);
        let tt = tweet_texts(tweets, n);
        let td = tweet_dates(tweets, n);
        assert forall|j: int| 0 <= j < tt.len() implies exists|i: int|
            0 <= i < n && !is_blank(tweets[i].1) && #[trigger] tt[j] == trim(tweets[i].1) && td[j]
                == tweets[i].0 by {
            if j < pt.len() {
                assert(tt[j] == pt[j] && td[j] == pd[j]);
                let i = choose|i: int|
                    0 <= i < n - 1 && !is_blank(tweets[i].1) && #[trigger] pt[j] == trim(tweets[i].1)
                        && pd[j] == tweets[i].0;
                assert(tt[j] == trim(tweets[i].1));
            } else {
                assert(tt[j] == trim(tweets[n - 1].1));
            }
        }
        assert forall|i: int| 0 <= i < n && !is_blank(#[trigger] tweets[i].1) implies exists|j: int|
            0 <= j < tt.len() && tt[j] == trim(tweets[i].1) && #[trigger] td[j] == tweets[i].0 by {
            if i < n - 1 {
                let j = choose|j: int|
                    0 <= j < pt.len() && pt[j] == trim(tweets[i].1) && #[trigger] pd[j] == tweets[i].0;
                assert(tt[j] == pt[j] && td[j] == pd[j]);
            } else {
                let j = pt.len() as int;
                assert(tt[j] == trim(tweets[i].1) && td[j] == tweets[i].0);
            }
        }
    }
}

/// The tweets of an archive, given as `(created_at, full_text)`: all of them
/// the user's own; blank ones skipped; an error when the archive has none.
pub fn plan_twitter(tweets: &Vec<(String, String)>) -> (r: Result<Vec<PlannedMessage>, String>)
    ensures
        match r {
            Err(e) => tweets@.len() == 0 && e@ == no_tweets_error(),
            Ok(ms) => {
                let tv = crate::prompts::pair_views(tweets@);
                &&& tweets@.len() > 0
                &&& ms@.len() == tweet_texts(tv, tv.len() as int).len()
                &&& forall|j: int|
                    0 <= j < ms@.len() ==> planned_view(#[trigger] ms@[j]) == (
                        None::<Seq<char>>,
                        true,
                        tweet_texts(tv, tv.len() as int)[j],
                    ) && (twitter_reparsed(tweet_dates(tv, tv.len() as int)[j]) matches Some(x)
                        ==> ms@[j].timestamp@ == x)
            },
        },
{
    if tweets.len() == 0 {
        return Err("no se encontraron tweets en el archivo".to_owned());
    }
    let ghost tv = crate::prompts::pair_views(tweets@);
    let mut out: Vec<PlannedMessage> = Vec::new();
    let mut i: usize = 0;
    while i < tweets.len()
        invariant
            i <= tweets@.len(),
            tv == crate::prompts::pair_views(tweets@),
            out@.len() == tweet_texts(tv, i as int).len(),
            tweet_dates(tv, i as int).len() == out@.len(),
            forall|j: int|
                0 <= j < out@.len() ==> planned_view(#[trigger] out@[j]) == (
                    None::<Seq<char>>,
                    true,
                    tweet_texts(tv, i as int)[j],
                ) && (twitter_reparsed(tweet_dates(tv, i as int)[j]) matches Some(x)
                    ==> out@[j].timestamp@ == x),
        decreases tweets.len() - i,
    {
        assert(tv[i as int] == (tweets@[i as int].0@, tweets@[i as int].1@));
        let text = trim_vec(&chars_of(tweets[i].1.as_str()));
        proof {
            crate::text::lemma_trim_empty_iff_blank(tweets@[i as int].1@);
        }
        if text.len() > 0 {
            let timestamp = match parse_twitter_timestamp(tweets[i].0.as_str()) {
                Some(t) => t,
                None => now_rfc3339(),
            };
            out.push(PlannedMessage { author: None, is_user: true, text: string_of(&text), timestamp });
        }
        i += 1;
    }
    Ok(out)
}

// ---------------------------------------------------------------------------
// Generic files
// ---------------------------------------------------------------------------

/// A record of a generic import (`.json`, `.csv` or plain text).
pub struct GenericRecord {
    pub text: String,
    pub timestamp: Option<String>,
    pub author: Option<String>,
    pub is_user: Option<bool>,
}

pub open spec fn record_view(r: GenericRecord) -> (Seq<char>, Option<Seq<char>>, Option<Seq<char>>, Option<bool>) {
    (r.text@, opt_view(r.timestamp), opt_view(r.author), r.is_user)
}

/// The field at `i` of a record, if the record has one.
pub open spec fn cell(row: Seq<Seq<char>>, i: Option<int>) -> Option<Seq<char>> {
    match i {
        Some(k) => if 0 <= k < row.len() {
            Some(row[k])
        } else {
            None
        },
        None => None,
    }
}

pub open spec fn non_empty(c: Option<Seq<char>>) -> Option<Seq<char>> {
    match c {
        Some(s) => if s.len() > 0 {
            Some(s)
        } else {
            None
        },
        None => None,
    }
}

/// A row of a generic CSV: the trimmed text (skipped when blank), the
/// timestamp and the author when present and not empty, and `is_user` read
/// as `"true"` or `"1"` when the column is there.
pub open spec fn generic_row(row: Seq<Seq<char>>, text: int, ts: Option<int>, author: Option<int>, user: Option<int>) -> Option<
    (Seq<char>, Option<Seq<char>>, Option<Seq<char>>, Option<bool>),
> {
    let t = trim(field(row, text));
    if t.len() == 0 {
        None
    } else {
        Some(
            (
                t,
                non_empty(cell(row, ts)),
                non_empty(cell(row, author)),
                match cell(row, user) {
                    Some(s) => Some(s == "true"@ || s == "1"@),
                    None => None,
                },
            ),
        )
    }
}

/// The records of the rows of a generic CSV.
pub open spec fn generic_rows(
    rows: Seq<Seq<Seq<char>>>,
    n: int,
    text: int,
    ts: Option<int>,
    author: Option<int>,
    user: Option<int>,
) -> Seq<(Seq<char>, Option<Seq<char>>, Option<Seq<char>>, Option<bool>)>
    decreases n,
{
    if n <= 0 {
        seq![]
    } else {
        let prev = generic_rows(rows, n - 1, text, ts, author, user);
        match generic_row(rows[n - 1], text, ts, author, user) {
            Some(r) => prev.push(r),
            None => prev,
        }
    }
}

pub open spec fn generic_text_error() -> Seq<char> {
    "el CSV necesita una columna 'text'"@
}

fn cell_exec(row: &Vec<String>, i: Option<usize>) -> (r: Option<String>)
    ensures
        opt_view(r) == cell(string_views(row@), opt_index(i)),
{
    match i {
        Some(k) => if k < row.len() {
            Some(row[k].clone())
        } else {
            None
        },
        None => None,
    }
}

fn non_empty_exec(c: Option<String>) -> (r: Option<String>)
    ensures
        opt_view(r) == non_empty(opt_view(c)),
{
    match c {
        Some(s) => if s.as_str().unicode_len() > 0 {
            Some(s)
        } else {
            None
        },
        None => None,
    }
}

/// All the rows of a table, if every record is readable.
pub open spec fn all_rows(rows: Seq<Result<Seq<Seq<char>>, Seq<char>>>) -> Seq<Seq<Seq<char>>> {
    rows.map_values(|r: Result<Seq<Seq<char>>, Seq<char>>| match r {
        Ok(fs) => fs,
        Err(_) => seq![],
    })
}

/// Reads a generic CSV with the columns `text` (required), `timestamp`,
/// `author` and `is_user` (names compared exactly); the first unreadable
/// record fails the whole file.
pub fn parse_csv(content: &str) -> (r: Result<Vec<GenericRecord>, String>)
    ensures
        match r {
            Err(e) => match csv_header_row(content@) {
                Err(h) => e@ == h,
                Ok(hs) => if column(hs, "text"@, false) is None {
                    e@ == generic_text_error()
                } else {
                    first_error(csv_record_rows(content@)) == Some(e@)
                },
            },
            Ok(recs) => csv_header_row(content@) matches Ok(hs) && column(hs, "text"@, false) matches Some(t)
                && first_error(csv_record_rows(content@)) is None && recs@.map_values(
                |x: GenericRecord| record_view(x),
            ) == generic_rows(
                all_rows(csv_record_rows(content@)),
                csv_record_rows(content@).len() as int,
                t,
                column(hs, "timestamp"@, false),
                column(hs, "author"@, false),
                column(hs, "is_user"@, false),
            ),
        },
{
    let headers = match read_csv_headers(content) {
        Ok(h) => h,
        Err(e) => return Err(e),
    };
    let text_idx = match find_column(&headers, "text", false) {
        Some(i) => i,
        None => return Err("el CSV necesita una columna 'text'".to_owned()),
    };
    let ts_idx = find_column(&headers, "timestamp", false);
    let author_idx = find_column(&headers, "author", false);
    let user_idx = find_column(&headers, "is_user", false);
    let rows = read_csv_records(content);
    let ghost rv = csv_record_rows(content@);
    let ghost ar = all_rows(rv);
    let ghost ti = opt_index(ts_idx);
    let ghost ai = opt_index(author_idx);
    let ghost ui = opt_index(user_idx);
    let yes = "true".to_owned();
    let one = "1".to_owned();
    let mut records: Vec<GenericRecord> = Vec::new();
    let mut i: usize = 0;
    proof {
        lemma_readable_prefix(rv, 0);
    }
    while i < rows.len()
        invariant
            i <= rows@.len(),
            rows@.map_values(|x: Result<Vec<String>, String>| row_view(x)) == rv,
            rv == csv_record_rows(content@),
            csv_header_row(content@) == Ok::<Seq<Seq<char>>, Seq<char>>(string_views(headers@)),
            column(string_views(headers@), "text"@, false) == Some(text_idx as int),
            ti == opt_index(ts_idx),
            ai == opt_index(author_idx),
            ui == opt_index(user_idx),
            ar == all_rows(rv),
            yes@ == "true"@,
            one@ == "1"@,
            i <= readable_prefix(rv, 0),
            forall|j: int| 0 <= j < readable_prefix(rv, 0) ==> (#[trigger] rv[j]) is Ok,
            readable_prefix(rv, 0) <= rv.len(),
            readable_prefix(rv, 0) < rv.len() ==> rv[readable_prefix(rv, 0)] is Err,
            records@.map_values(|x: GenericRecord| record_view(x)) == generic_rows(ar, i as int, text_idx as int, ti, ai, ui),
        decreases rows.len() - i,
    {
        assert(row_view(rows@[i as int]) == rv[i as int]);
        match &rows[i] {
            Err(e) => {
                assert(readable_prefix(rv, 0) == i);
                assert(rv[i as int] == Err::<Seq<Seq<char>>, Seq<char>>(e@));
                return Err(e.clone());
            },
            Ok(row) => {
                assert(ar[i as int] == string_views(row@));
                let text = trim_vec(&chars_of(field_exec(row, text_idx).as_str()));
                if text.len() > 0 {
                    let timestamp = non_empty_exec(cell_exec(row, ts_idx));
                    let author = non_empty_exec(cell_exec(row, author_idx));
                    let is_user = match cell_exec(row, user_idx) {
                        Some(s) => Some(s == yes || s == one),
                        None => None,
                    };
                    let rec = GenericRecord { text: string_of(&text), timestamp, author, is_user };
                    let ghost before = records@.map_values(|x: GenericRecord| record_view(x));
                    records.push(rec);
                    assert(records@.map_values(|x: GenericRecord| record_view(x)) =~= before.push(
                        record_view(rec),
                    ));
                }
            },
        }
        i += 1;
    }
    assert(readable_prefix(rv, 0) == rows@.len());
    Ok(records)
}

/// The non-blank lines of a text, trimmed.
pub open spec fn text_lines(ls: Seq<Seq<char>>, n: int) -> Seq<Seq<char>>
    decreases n,
{
    if n <= 0 {
        seq![]
    } else if is_blank(ls[n - 1]) {
        text_lines(ls, n - 1)
    } else {
        text_lines(ls, n - 1).push(trim(ls[n - 1]))
    }
}

/// A plain text file: each non-blank line is one of the user's own
/// messages, trimmed, without timestamp or author.
pub fn text_records(content: &str) -> (r: Vec<GenericRecord>)
    ensures
        r@.map_values(|x: GenericRecord| record_view(x)) == text_lines(lines(content@), lines(content@).len() as int).map_values(
            |t: Seq<char>| (t, None::<Seq<char>>, None::<Seq<char>>, Some(true)),
        ),
{
    let c = chars_of(content);
    let ls = lines_vec(&c);
    let ghost lv = lines(content@);
    let mut out: Vec<GenericRecord> = Vec::new();
    let mut i: usize = 0;
    while i < ls.len()
        invariant
            i <= ls@.len(),
            c@ == content@,
            lv == lines(content@),
            ls@.len() == lv.len(),
            forall|k: int| 0 <= k < ls@.len() ==> #[trigger] ls@[k]@ == lv[k],
            out@.map_values(|x: GenericRecord| record_view(x)) == text_lines(lv, i as int).map_values(
                |t: Seq<char>| (t, None::<Seq<char>>, None::<Seq<char>>, Some(true)),
            ),
        decreases ls.len() - i,
    {
        assert(ls@[i as int]@ == lv[i as int]);
        if !is_blank_vec(&ls[i]) {
            let t = string_of(&trim_vec(&ls[i]));
            let rec = GenericRecord { text: t, timestamp: None, author: None, is_user: Some(true) };
            let ghost before = out@.map_values(|x: GenericRecord| record_view(x));
            out.push(rec);
            assert(out@.map_values(|x: GenericRecord| record_view(x)) =~= before.push(record_view(rec)));
            assert(text_lines(lv, i + 1).map_values(
                |t: Seq<char>| (t, None::<Seq<char>>, None::<Seq<char>>, Some(true)),
            ) =~= text_lines(lv, i as int).map_values(
                |t: Seq<char>| (t, None::<Seq<char>>, None::<Seq<char>>, Some(true)),
            ).push(record_view(rec)));
        }
        i += 1;
    }
    out
}

/// A generic import ready to store: its messages and the authors it names.
pub struct GenericPlan {
    pub messages: Vec<PlannedMessage>,
    pub participants: Vec<String>,
}

pub open spec fn no_messages_error() -> Seq<char> {
    "no se encontraron mensajes en el archivo"@
}

/// Who wrote a generic record: with an author, the user only when the record
/// says so; without one, the user unless the record says otherwise.
pub open spec fn generic_is_user(r: (Seq<char>, Option<Seq<char>>, Option<Seq<char>>, Option<bool>)) -> bool {
    match r.3 {
        Some(b) => b,
        None => r.2 is None,
    }
}

/// The authors named by records, in order.
pub open spec fn named_authors(rs: Seq<(Seq<char>, Option<Seq<char>>, Option<Seq<char>>, Option<bool>)>, n: int) -> Seq<
    Seq<char>,
>
    decreases n,
{
    if n <= 0 {
        seq![]
    } else {
        match rs[n - 1].2 {
            Some(a) => named_authors(rs, n - 1).push(a),
            None => named_authors(rs, n - 1),
        }
    }
}

/// The records of a generic file ready to store: a record without timestamp
/// gets the current time; an error when the file has no record.
pub fn plan_generic(records: Vec<GenericRecord>) -> (r: Result<GenericPlan, String>)
    ensures
        match r {
            Err(e) => records@.len() == 0 && e@ == no_messages_error(),
            Ok(p) => {
                let rv = records@.map_values(|x: GenericRecord| record_view(x));
                let names = named_authors(rv, rv.len() as int);
                &&& records@.len() > 0
                &&& p.messages@.len() == rv.len()
                &&& forall|j: int|
                    0 <= j < rv.len() ==> planned_view(#[trigger] p.messages@[j]) == (
                        rv[j].2,
                        generic_is_user(rv[j]),
                        rv[j].0,
                    ) && (rv[j].1 matches Some(t) ==> p.messages@[j].timestamp@ == t)
                &&& string_views(p.participants@) == first_seen(names, names.len() as int)
            },
        },
{
    if records.len() == 0 {
        return Err("no se encontraron mensajes en el archivo".to_owned());
    }
    let ghost rv = records@.map_values(|x: GenericRecord| record_view(x));
    let mut messages: Vec<PlannedMessage> = Vec::new();
    let mut names: Vec<String> = Vec::new();
    let mut i: usize = 0;
    while i < records.len()
        invariant
            i <= records@.len(),
            rv == records@.map_values(|x: GenericRecord| record_view(x)),
            messages@.len() == i,
            forall|j: int|
                0 <= j < i ==> planned_view(#[trigger] messages@[j]) == (rv[j].2, generic_is_user(rv[j]), rv[j].0)
                    && (rv[j].1 matches Some(t) ==> messages@[j].timestamp@ == t),
            string_views(names@) == named_authors(rv, i as int),
        decreases records.len() - i,
    {
        let rec = &records[i];
        assert(rv[i as int] == record_view(*rec));
        let timestamp = match &rec.timestamp {
            Some(t) => t.clone(),
            None => now_rfc3339(),
        };
        let is_user = match rec.author {
            Some(_) => match rec.is_user {
                Some(b) => b,
                None => false,
            },
            None => match rec.is_user {
                Some(b) => b,
                None => true,
            },
        };
        if let Some(a) = &rec.author {
            let ghost before = string_views(names@);
            names.push(a.clone());
            assert(string_views(names@) =~= before.push(a@));
        }
        messages.push(
            PlannedMessage { author: rec.author.clone(), is_user, text: rec.text.clone(), timestamp },
        );
        i += 1;
    }
    let participants = distinct_in_order(&names);
    Ok(GenericPlan { messages, participants })
}

} // verus!
