//! The records the application shows (memories, drafts, traits, people,
//! sources, turns, metrics...) and the small rules that shape them: the
//! evidence kept in a memory's metadata, what a saved provider reveals,
//! the order of the chat history, the settings' defaults.
use vstd::prelude::*;

use crate::prompts::pair_views;

verus! {

// ---------------------------------------------------------------------------
// Memories
// ---------------------------------------------------------------------------

/// A memory about the user, as listed for review.
pub struct MemoryItem {
    pub id: String,
    /// `preferencias`, `autobiografica`, `estilo_linguistico`,
    /// `perfil_estable` or `dinamica`.
    pub layer: String,
    /// `candidate`, `confirmed`, `edited` or `rejected`.
    pub status: String,
    pub content: String,
    /// The quoted text that backs the memory.
    pub evidence: Option<String>,
    pub created_at: String,
}

/// What `serde_json::from_str::<serde_json::Value>` followed by the lookup
/// of the string field `"evidence"` gives for a metadata text; `None` when
/// the text is not JSON or the field is absent or not a string.
pub uninterp spec fn json_evidence(metadata: Seq<char>) -> Option<Seq<char>>;

/// What `serde_json::to_string` writes for the object
/// `{"evidence": evidence}`.
pub uninterp spec fn evidence_json(evidence: Seq<char>) -> Seq<char>;

pub open spec fn opt_string(o: Option<String>) -> Option<Seq<char>> {
    match o {
        Some(s) => Some(s@),
        None => None,
    }
}

/// Parses a memory's metadata with `serde_json::from_str` into a
/// `serde_json::Value` and reads its `"evidence"` field with `Value::get`
/// and `Value::as_str`; the result is `json_evidence` of the text.
#[verifier::external_body]
fn read_evidence(metadata: &str) -> (r: Option<String>)
    ensures
        opt_string(r) == json_evidence(metadata@),
{
    serde_json::from_str::<serde_json::Value>(metadata).ok().and_then(
        |v| v.get("evidence").and_then(|e| e.as_str()).map(|s| s.to_string()),
    )
}

/// Writes `{"evidence": evidence}` with `serde_json::to_string` (a string
/// map, which serialises infallibly); the result is `evidence_json` of the
/// argument, and, as serde_json reads back what it writes, looking up
/// `"evidence"` in it gives the argument again.
#[verifier::external_body]
fn write_evidence(evidence: &str) -> (r: String)
    ensures
        r@ == evidence_json(evidence@),
        json_evidence(r@) == Some(evidence@),
{
    let mut m = std::collections::BTreeMap::new();
    m.insert("evidence", evidence);
    serde_json::to_string(&m).unwrap_or_default()
}

/// The metadata stored with a generated memory: its evidence as JSON, which
/// `row_to_memory` reads back.
pub fn evidence_metadata(evidence: &str) -> (r: String)
    ensures
        r@ == evidence_json(evidence@),
        json_evidence(r@) == Some(evidence@),
{
    write_evidence(evidence)
}

/// A memory from its stored columns; the evidence is read from the JSON
/// metadata, if there is any.
pub fn row_to_memory(
    id: String,
    layer: String,
    status: String,
    content: String,
    metadata: Option<String>,
    created_at: String,
) -> (m: MemoryItem)
    ensures
        m.id@ == id@,
        m.layer@ == layer@,
        m.status@ == status@,
        m.content@ == content@,
        m.created_at@ == created_at@,
        opt_string(m.evidence) == match metadata {
            Some(t) => json_evidence(t@),
            None => None,
        },
{
    let evidence = match &metadata {
        Some(t) => read_evidence(t.as_str()),
        None => None,
    };
    MemoryItem { id, layer, status, content, evidence, created_at }
}

// ---------------------------------------------------------------------------
// Drafts
// ---------------------------------------------------------------------------

/// A message written "as the user" for a contact; it is never sent, only
/// kept for the user to review.
pub struct Draft {
    pub id: String,
    pub contact_name: Option<String>,
    pub content: String,
    /// `pending`, `approved`, `edited` or `rejected`.
    pub status: String,
    pub created_at: String,
}

impl Draft {
    /// A freshly generated draft: always `pending`, waiting for the user.
    pub fn pending(id: String, contact_name: Option<String>, content: String, created_at: String) -> (d:
        Draft)
        ensures
            d.id@ == id@,
            opt_string(d.contact_name) == opt_string(contact_name),
            d.content@ == content@,
            d.status@ == "pending"@,
            d.created_at@ == created_at@,
    {
        Draft { id, contact_name, content, status: "pending".to_owned(), created_at }
    }
}

pub open spec fn excluded_contact_error() -> Seq<char> {
    "este contacto está marcado como excluido de la memoria del clon; no se genera ningún borrador para él"@
}

/// Drafts are refused for a contact excluded from the clone's memory (and
/// the model is then not called at all).
pub fn check_draft_contact(excluded: bool) -> (r: Result<(), String>)
    ensures
        r is Ok <==> !excluded,
        r matches Err(e) ==> e@ == excluded_contact_error(),
{
    if excluded {
        Err(
            "este contacto está marcado como excluido de la memoria del clon; no se genera ningún borrador para él".to_owned(),
        )
    } else {
        Ok(())
    }
}

// ---------------------------------------------------------------------------
// External providers
// ---------------------------------------------------------------------------

/// A saved external provider as the interface sees it: never the key
/// itself, only whether one is saved.
pub struct ProviderInfo {
    pub provider: String,
    pub base_url: String,
    pub model: String,
    pub has_api_key: bool,
}

impl ProviderInfo {
    /// The public view of saved credentials.
    pub fn from_credentials(provider: String, base_url: String, model: String, api_key: &str) -> (p:
        ProviderInfo)
        ensures
            p.provider@ == provider@,
            p.base_url@ == base_url@,
            p.model@ == model@,
            p.has_api_key == (api_key@.len() > 0),
    {
        let k = crate::text::chars_of(api_key);
        ProviderInfo { provider, base_url, model, has_api_key: k.len() > 0 }
    }
}

pub open spec fn groq_base_url() -> Seq<char> {
    "https://api.groq.com/openai/v1"@
}

pub open spec fn openai_base_url() -> Seq<char> {
    "https://api.openai.com/v1"@
}

/// The suggested base URL of a known provider (`groq`, `openai`), empty
/// for any other.
pub fn default_base_url(provider: String) -> (r: String)
    ensures
        r@ == if provider@ == "groq"@ {
            groq_base_url()
        } else if provider@ == "openai"@ {
            openai_base_url()
        } else {
            Seq::<char>::empty()
        },
{
    if provider == "groq".to_owned() {
        "https://api.groq.com/openai/v1".to_owned()
    } else if provider == "openai".to_owned() {
        "https://api.openai.com/v1".to_owned()
    } else {
        String::new()
    }
}

/// One entry of the log of what was sent to an external provider.
pub struct SendLogEntry {
    pub provider: String,
    pub model: String,
    pub anonymized: bool,
    /// The exact text that was sent, as previewed.
    pub content: String,
    pub created_at: String,
}

// ---------------------------------------------------------------------------
// Profile, interview, people, sources, metrics
// ---------------------------------------------------------------------------

/// A trait of the user's profile, entered by hand or inferred.
pub struct ProfileTrait {
    pub id: String,
    pub category: String,
    pub trait_name: String,
    pub value: String,
    /// `manual` or `inferred`.
    pub source: String,
    pub evidence: Option<String>,
    pub created_at: String,
    pub updated_at: String,
}

/// A saved answer of the guided interview.
pub struct InterviewAnswer {
    pub module: String,
    pub question_id: String,
    pub question_text: String,
    pub answer: String,
    pub updated_at: String,
}

/// An imported file and how many messages it brought.
pub struct SourceSummary {
    pub id: String,
    pub kind: String,
    pub file_name: Option<String>,
    pub imported_at: String,
    pub message_count: i64,
}

/// A person of the imported conversations.
pub struct PersonSummary {
    pub id: String,
    pub name: String,
    pub is_user: bool,
    pub relationship: Option<String>,
    pub excluded: bool,
    pub message_count: i64,
}

/// How many messages exist and how many have an embedding.
pub struct EmbeddingCoverage {
    pub total_messages: i64,
    pub with_embedding: i64,
}

/// The counts of the metrics panel, all taken from the local database.
pub struct Metrics {
    pub total_messages: i64,
    pub messages_with_embedding: i64,
    pub sensitive_messages: i64,
    pub memories_candidate: i64,
    pub memories_confirmed: i64,
    pub memories_edited: i64,
    pub memories_rejected: i64,
    pub feedback_count: i64,
    pub drafts_pending: i64,
    pub drafts_approved: i64,
    pub drafts_edited: i64,
    pub drafts_rejected: i64,
    pub interview_answered: i64,
    pub total_sessions: i64,
    pub total_turns: i64,
}

// ---------------------------------------------------------------------------
// Chat history
// ---------------------------------------------------------------------------

/// One turn of a chat session.
pub struct ChatTurn {
    pub id: String,
    pub role: String,
    pub content: String,
    pub created_at: String,
}

/// The turns read newest first, put back in the order they happened.
pub fn chronological(turns: Vec<ChatTurn>) -> (r: Vec<ChatTurn>)
    ensures
        r@ == turns@.reverse(),
{
    let mut rest = turns;
    let ghost orig = rest@;
    let mut out: Vec<ChatTurn> = Vec::new();
    while rest.len() > 0
        invariant
            out@ + rest@.reverse() == orig.reverse(),
        decreases rest@.len(),
    {
        let ghost before = rest@;
        let t = rest.pop().unwrap();
        proof {
            assert(before == rest@.push(t));
            assert(before.reverse() =~= seq![t] + rest@.reverse());
        }
        out.push(t);
        assert(out@ + rest@.reverse() =~= orig.reverse());
    }
    assert(rest@.reverse() =~= Seq::<ChatTurn>::empty());
    assert(out@ =~= out@ + rest@.reverse());
    out
}

// ---------------------------------------------------------------------------
// Settings
// ---------------------------------------------------------------------------

/// The default of each setting: the local engine's URL, the chat and
/// embedding models, the API style, the theme and the onboarding flag.
pub open spec fn setting_defaults() -> Seq<(Seq<char>, Seq<char>)> {
    seq![
        ("ollama_base_url"@, "http://localhost:11434"@),
        ("chat_model"@, "gemma3:4b"@),
        ("embedding_model"@, "nomic-embed-text"@),
        ("local_api_style"@, "ollama"@),
        ("theme"@, "system"@),
        ("onboarding_completed"@, "false"@),
    ]
}

fn default_pairs() -> (r: Vec<(String, String)>)
    ensures
        pair_views(r@) == setting_defaults(),
{
    let mut v: Vec<(String, String)> = Vec::new();
    v.push(("ollama_base_url".to_owned(), "http://localhost:11434".to_owned()));
    v.push(("chat_model".to_owned(), "gemma3:4b".to_owned()));
    v.push(("embedding_model".to_owned(), "nomic-embed-text".to_owned()));
    v.push(("local_api_style".to_owned(), "ollama".to_owned()));
    v.push(("theme".to_owned(), "system".to_owned()));
    v.push(("onboarding_completed".to_owned(), "false".to_owned()));
    assert(pair_views(v@) =~= setting_defaults());
    v
}

pub open spec fn has_key(rows: Seq<(Seq<char>, Seq<char>)>, key: Seq<char>) -> bool {
    exists|i: int| 0 <= i < rows.len() && (#[trigger] rows[i]).0 == key
}

/// The defaults whose key none of `rows` has, in their order.
pub open spec fn missing_defaults(rows: Seq<(Seq<char>, Seq<char>)>, n: int) -> Seq<(Seq<char>, Seq<char>)>
    decreases n,
{
    if n <= 0 {
        seq![]
    } else {
        let d = setting_defaults()[n - 1];
        let m = missing_defaults(rows, n - 1);
        if has_key(rows, d.0) {
            m
        } else {
            m.push(d)
        }
    }
}

fn has_key_exec(rows: &Vec<(String, String)>, key: &String) -> (b: bool)
    ensures
        b == has_key(pair_views(rows@), key@),
{
    let ghost rv = pair_views(rows@);
    let mut i: usize = 0;
    while i < rows.len()
        invariant
            i <= rows@.len(),
            rv == pair_views(rows@),
            forall|j: int| 0 <= j < i ==> (#[trigger] rv[j]).0 != key@,
        decreases rows.len() - i,
    {
        if rows[i].0 == *key {
            assert(rv[i as int].0 == key@);
            return true;
        }
        i += 1;
    }
    false
}

/// The stored settings followed by the default of every setting that is
/// not stored: inserted in this order into a map, they give the stored
/// value of each stored key and the default of every other known key.
pub fn settings_with_defaults(rows: Vec<(String, String)>) -> (r: Vec<(String, String)>)
    ensures
        pair_views(r@) == pair_views(rows@) + missing_defaults(pair_views(rows@), 6),
{
    let defaults = default_pairs();
    let ghost rv = pair_views(rows@);
    let mut extra: Vec<(String, String)> = Vec::new();
    let mut i: usize = 0;
    assert(setting_defaults().len() == 6);
    assert(defaults@.len() == pair_views(defaults@).len());
    assert(pair_views(extra@) =~= missing_defaults(rv, 0));
    while i < defaults.len()
        invariant
            i <= defaults@.len(),
            defaults@.len() == 6,
            pair_views(defaults@) == setting_defaults(),
            rv == pair_views(rows@),
            pair_views(extra@) == missing_defaults(rv, i as int),
        decreases defaults.len() - i,
    {
        assert(pair_views(defaults@)[i as int] == (defaults@[i as int].0@, defaults@[i as int].1@));
        if !has_key_exec(&rows, &defaults[i].0) {
            let ghost before = pair_views(extra@);
            extra.push((defaults[i].0.clone(), defaults[i].1.clone()));
            assert(pair_views(extra@) =~= before.push(setting_defaults()[i as int]));
        }
        i += 1;
    }
    let mut out = rows;
    let ghost before = pair_views(out@);
    let mut j: usize = 0;
    assert(before + pair_views(extra@).take(0) =~= before);
    while j < extra.len()
        invariant
            j <= extra@.len(),
            pair_views(out@) == before + pair_views(extra@).take(j as int),
        decreases extra.len() - j,
    {
        let ghost prev = pair_views(out@);
        out.push((extra[j].0.clone(), extra[j].1.clone()));
        assert(pair_views(out@) =~= prev.push((extra@[j as int].0@, extra@[j as int].1@)));
        assert(pair_views(extra@)[j as int] == (extra@[j as int].0@, extra@[j as int].1@));
        assert(pair_views(extra@).take(j + 1) =~= pair_views(extra@).take(j as int).push(
            pair_views(extra@)[j as int],
        ));
        assert(pair_views(out@) =~= before + pair_views(extra@).take(j + 1));
        j += 1;
    }
    assert(pair_views(extra@).take(extra@.len() as int) =~= pair_views(extra@));
    out
}

/// The map that inserting `pairs` in order builds (a later pair replaces an
/// earlier one with the same key).
pub open spec fn to_map(pairs: Seq<(Seq<char>, Seq<char>)>) -> Map<Seq<char>, Seq<char>>
    decreases pairs.len(),
{
    if pairs.len() == 0 {
        Map::empty()
    } else {
        to_map(pairs.drop_last()).insert(pairs.last().0, pairs.last().1)
    }
}

proof fn lemma_to_map_keys(pairs: Seq<(Seq<char>, Seq<char>)>, k: Seq<char>)
    ensures
        to_map(pairs).dom().contains(k) <==> has_key(pairs, k),
    decreases pairs.len(),
{
    if pairs.len() > 0 {
        let init = pairs.drop_last();
        lemma_to_map_keys(init, k);
        if has_key(init, k) {
            let i = choose|i: int| 0 <= i < init.len() && (#[trigger] init[i]).0 == k;
            assert(pairs[i] == init[i]);
        }
        if has_key(pairs, k) {
            let i = choose|i: int| 0 <= i < pairs.len() && (#[trigger] pairs[i]).0 == k;
            if i < pairs.len() - 1 {
                assert(init[i] == pairs[i]);
            }
        }
        if pairs.last().0 == k {
            assert(pairs[pairs.len() - 1].0 == k);
        }
    }
}

proof fn lemma_to_map_append(a: Seq<(Seq<char>, Seq<char>)>, b: Seq<(Seq<char>, Seq<char>)>, k: Seq<char>)
    requires
        !has_key(b, k),
    ensures
        to_map(a + b).dom().contains(k) == to_map(a).dom().contains(k),
        to_map(a).dom().contains(k) ==> to_map(a + b)[k] == to_map(a)[k],
    decreases b.len(),
{
    if b.len() == 0 {
        assert(a + b =~= a);
    } else {
        let bi = b.drop_last();
        assert((a + b).drop_last() =~= a + bi);
        assert((a + b).last() == b.last());
        assert(b[b.len() - 1].0 != k);
        assert forall|i: int| 0 <= i < bi.len() implies (#[trigger] bi[i]).0 != k by {
            assert(bi[i] == b[i]);
        }
        lemma_to_map_append(a, bi, k);
    }
}

proof fn lemma_default_keys_distinct(a: int, b: int)
    requires
        0 <= a < 6,
        0 <= b < 6,
        a != b,
    ensures
        setting_defaults()[a].0 != setting_defaults()[b].0,
{
    reveal_strlit("ollama_base_url");
    reveal_strlit("chat_model");
    reveal_strlit("embedding_model");
    reveal_strlit("local_api_style");
    reveal_strlit("theme");
    reveal_strlit("onboarding_completed");
    let d = setting_defaults();
    assert(d[a].0[0] != d[b].0[0] || d[a].0.len() != d[b].0.len());
}

proof fn lemma_missing_defaults(rows: Seq<(Seq<char>, Seq<char>)>, n: int, j: int)
    requires
        0 <= j < n <= 6,
        !has_key(rows, setting_defaults()[j].0),
    ensures
        to_map(missing_defaults(rows, n)).dom().contains(setting_defaults()[j].0),
        to_map(missing_defaults(rows, n))[setting_defaults()[j].0] == setting_defaults()[j].1,
    decreases n,
{
    let d = setting_defaults();
    let m = missing_defaults(rows, n - 1);
    if j < n - 1 {
        lemma_missing_defaults(rows, n - 1, j);
        lemma_default_keys_distinct(n - 1, j);
        if !has_key(rows, d[n - 1].0) {
            assert(missing_defaults(rows, n).drop_last() =~= m);
        }
    } else {
        assert(missing_defaults(rows, n).drop_last() =~= m);
    }
}

proof fn lemma_missing_defaults_absent(rows: Seq<(Seq<char>, Seq<char>)>, n: int, k: Seq<char>)
    requires
        0 <= n <= 6,
        has_key(rows, k),
    ensures
        !has_key(missing_defaults(rows, n), k),
    decreases n,
{
    if n > 0 {
        lemma_missing_defaults_absent(rows, n - 1, k);
        let m = missing_defaults(rows, n - 1);
        let d = setting_defaults()[n - 1];
        if !has_key(rows, d.0) {
            let mm = m.push(d);
            assert forall|i: int| 0 <= i < mm.len() implies (#[trigger] mm[i]).0 != k by {
                if i < m.len() {
                    assert(mm[i] == m[i]);
                }
            }
        }
    }
}

/// Reading the settings gives, for every stored key, its stored value, and,
/// for every known setting that is not stored, its default: defaults never
/// override what the user saved.
pub proof fn law_stored_settings_win(rows: Seq<(Seq<char>, Seq<char>)>, key: Seq<char>, j: int)
    requires
        0 <= j < 6,
    ensures
        ({
            let all = rows + missing_defaults(rows, 6);
            &&& has_key(rows, key) ==> to_map(all).dom().contains(key) && to_map(all)[key] == to_map(
                rows,
            )[key]
            &&& !has_key(rows, setting_defaults()[j].0) ==> to_map(all).dom().contains(
                setting_defaults()[j].0,
            ) && to_map(all)[setting_defaults()[j].0] == setting_defaults()[j].1
            &&& to_map(all).dom().contains(setting_defaults()[j].0)
        }),
{
    let md = missing_defaults(rows, 6);
    let all = rows + md;
    let d = setting_defaults();
    if has_key(rows, key) {
        lemma_missing_defaults_absent(rows, 6, key);
        lemma_to_map_keys(rows, key);
        lemma_to_map_append(rows, md, key);
    }
    if has_key(rows, d[j].0) {
        lemma_missing_defaults_absent(rows, 6, d[j].0);
        lemma_to_map_keys(rows, d[j].0);
        lemma_to_map_append(rows, md, d[j].0);
    } else {
        lemma_missing_defaults(rows, 6, j);
        lemma_to_map_keys(md, d[j].0);
        lemma_to_map_suffix(rows, md, d[j].0);
    }
}

proof fn lemma_to_map_suffix(a: Seq<(Seq<char>, Seq<char>)>, b: Seq<(Seq<char>, Seq<char>)>, k: Seq<char>)
    requires
        has_key(b, k),
    ensures
        to_map(a + b).dom().contains(k),
        to_map(a + b)[k] == to_map(b)[k],
    decreases b.len(),
{
    let bi = b.drop_last();
    assert((a + b).drop_last() =~= a + bi);
    assert((a + b).last() == b.last());
    if b.last().0 != k {
        let i = choose|i: int| 0 <= i < b.len() && (#[trigger] b[i]).0 == k;
        assert(i < b.len() - 1);
        assert(bi[i] == b[i]);
        lemma_to_map_suffix(a, bi, k);
    }
}

} // verus!
