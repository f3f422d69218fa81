//! Talking to the language models: which endpoint of the local engine
//! (native Ollama or OpenAI-compatible) or of an external provider a request
//! goes to, what is kept of a reply, and the messages of every failure.
use vstd::prelude::*;


verus! {

/// The API a local engine speaks.
pub enum ApiStyle {
    /// Native Ollama: `/api/chat`, `/api/embeddings`, NDJSON streams.
    Ollama,
    /// OpenAI-compatible (e.g. Lemonade Server): `/chat/completions`,
    /// `/embeddings`, Server-Sent Events.
    OpenAi,
}

/// The `local_api_style` setting: `"openai"` selects the OpenAI-compatible
/// API; anything else is native Ollama.
pub fn api_style(setting: &str) -> (r: ApiStyle)
    ensures
        (r is OpenAi) <==> setting@ == "openai"@,
{
    if setting.to_owned() == "openai".to_owned() {
        ApiStyle::OpenAi
    } else {
        ApiStyle::Ollama
    }
}

pub open spec fn chat_path(style: ApiStyle) -> Seq<char> {
    match style {
        ApiStyle::OpenAi => "/chat/completions"@,
        ApiStyle::Ollama => "/api/chat"@,
    }
}

pub open spec fn embeddings_path(style: ApiStyle) -> Seq<char> {
    match style {
        ApiStyle::OpenAi => "/embeddings"@,
        ApiStyle::Ollama => "/api/embeddings"@,
    }
}

/// The chat endpoint of the local engine (streaming or not).
pub fn chat_url(base_url: &str, style: &ApiStyle) -> (r: String)
    ensures
        r@ == base_url@ + chat_path(*style),
{
    let mut u = base_url.to_owned();
    match style {
        ApiStyle::OpenAi => u.push_str("/chat/completions"),
        ApiStyle::Ollama => u.push_str("/api/chat"),
    }
    u
}

/// The embeddings endpoint of the local engine.
pub fn embeddings_url(base_url: &str, style: &ApiStyle) -> (r: String)
    ensures
        r@ == base_url@ + embeddings_path(*style),
{
    let mut u = base_url.to_owned();
    match style {
        ApiStyle::OpenAi => u.push_str("/embeddings"),
        ApiStyle::Ollama => u.push_str("/api/embeddings"),
    }
    u
}

/// Who is named in an error: the local engine in general, or Ollama.
pub enum Speaker {
    LocalEngine,
    Ollama,
}

/// The name used in errors for a request in `style` (a streamed reply always
/// speaks of the local engine).
pub fn speaker_for(style: &ApiStyle) -> (r: Speaker)
    ensures
        (r is Ollama) <==> (*style is Ollama),
{
    match style {
        ApiStyle::Ollama => Speaker::Ollama,
        ApiStyle::OpenAi => Speaker::LocalEngine,
    }
}

pub open spec fn unreachable_text(who: Speaker, base_url: Seq<char>, err: Seq<char>) -> Seq<char> {
    match who {
        Speaker::LocalEngine => "no se pudo contactar al motor local en "@ + base_url + ": "@ + err,
        Speaker::Ollama => "no se pudo contactar a Ollama en "@ + base_url + ": "@ + err,
    }
}

/// The engine at `base_url` could not be reached.
pub fn unreachable_error(who: &Speaker, base_url: &str, err: &str) -> (r: String)
    ensures
        r@ == unreachable_text(*who, base_url@, err@),
{
    let mut m = match who {
        Speaker::LocalEngine => "no se pudo contactar al motor local en ".to_owned(),
        Speaker::Ollama => "no se pudo contactar a Ollama en ".to_owned(),
    };
    m.push_str(base_url);
    m.push_str(": ");
    m.push_str(err);
    m
}

pub open spec fn status_text(who: Speaker, status: Seq<char>, body: Seq<char>) -> Seq<char> {
    match who {
        Speaker::LocalEngine => "El motor local respondió "@ + status + ": "@ + body,
        Speaker::Ollama => "Ollama respondió "@ + status + ": "@ + body,
    }
}

/// The engine answered with an unsuccessful HTTP status (and this body).
pub fn status_error(who: &Speaker, status: &str, body: &str) -> (r: String)
    ensures
        r@ == status_text(*who, status@, body@),
{
    let mut m = match who {
        Speaker::LocalEngine => "El motor local respondió ".to_owned(),
        Speaker::Ollama => "Ollama respondió ".to_owned(),
    };
    m.push_str(status);
    m.push_str(": ");
    m.push_str(body);
    m
}

/// What an unreadable reply is about.
pub enum ReplyKind {
    Chat,
    Embeddings,
}

pub open spec fn unexpected_text(kind: ReplyKind, who: Speaker, err: Seq<char>) -> Seq<char> {
    match (kind, who) {
        (ReplyKind::Chat, Speaker::LocalEngine) => "respuesta de chat inesperada: "@ + err,
        (ReplyKind::Chat, Speaker::Ollama) => "respuesta de chat de Ollama inesperada: "@ + err,
        (ReplyKind::Embeddings, Speaker::LocalEngine) => "respuesta de embeddings inesperada: "@ + err,
        (ReplyKind::Embeddings, Speaker::Ollama) => "respuesta de embeddings de Ollama inesperada: "@
            + err,
    }
}

/// The engine's reply could not be read.
pub fn unexpected_reply(kind: &ReplyKind, who: &Speaker, err: &str) -> (r: String)
    ensures
        r@ == unexpected_text(*kind, *who, err@),
{
    let mut m = match (kind, who) {
        (ReplyKind::Chat, Speaker::LocalEngine) => "respuesta de chat inesperada: ".to_owned(),
        (ReplyKind::Chat, Speaker::Ollama) => "respuesta de chat de Ollama inesperada: ".to_owned(),
        (ReplyKind::Embeddings, Speaker::LocalEngine) => "respuesta de embeddings inesperada: ".to_owned(),
        (ReplyKind::Embeddings, Speaker::Ollama) => "respuesta de embeddings de Ollama inesperada: ".to_owned(),
    };
    m.push_str(err);
    m
}

pub open spec fn no_reply_error() -> Seq<char> {
    "el motor local no devolvió ninguna respuesta"@
}

/// The reply of an OpenAI-compatible local engine: the content of its first
/// choice; an error when there is none.
pub fn first_choice(contents: Vec<String>) -> (r: Result<String, String>)
    ensures
        match r {
            Ok(c) => contents@.len() > 0 && c@ == contents@[0]@,
            Err(e) => contents@.len() == 0 && e@ == no_reply_error(),
        },
{
    if contents.len() == 0 {
        Err("el motor local no devolvió ninguna respuesta".to_owned())
    } else {
        Ok(contents[0].clone())
    }
}

// ---------------------------------------------------------------------------
// External providers
// ---------------------------------------------------------------------------

/// The chat endpoint of an external (OpenAI-compatible) provider.
pub fn provider_url(base_url: &str) -> (r: String)
    ensures
        r@ == base_url@ + "/chat/completions"@,
{
    let mut u = base_url.to_owned();
    u.push_str("/chat/completions");
    u
}

pub open spec fn provider_credentials_text(provider: Seq<char>) -> Seq<char> {
    "no hay credenciales guardadas para '"@ + provider + "'"@
}

/// No credentials are saved for the provider.
pub fn provider_credentials_error(provider: &str) -> (r: String)
    ensures
        r@ == provider_credentials_text(provider@),
{
    let mut m = "no hay credenciales guardadas para '".to_owned();
    m.push_str(provider);
    m.push_str("'");
    m
}

/// The provider at `base_url` could not be reached.
pub fn provider_unreachable(base_url: &str, err: &str) -> (r: String)
    ensures
        r@ == "no se pudo contactar a "@ + base_url@ + ": "@ + err@,
{
    let mut m = "no se pudo contactar a ".to_owned();
    m.push_str(base_url);
    m.push_str(": ");
    m.push_str(err);
    m
}

/// The provider answered with an unsuccessful HTTP status.
pub fn provider_status_error(provider: &str, status: &str, body: &str) -> (r: String)
    ensures
        r@ == provider@ + " respondió "@ + status@ + ": "@ + body@,
{
    let mut m = provider.to_owned();
    m.push_str(" respondió ");
    m.push_str(status);
    m.push_str(": ");
    m.push_str(body);
    m
}

/// The provider's reply could not be read.
pub fn provider_unexpected(provider: &str, err: &str) -> (r: String)
    ensures
        r@ == "respuesta de "@ + provider@ + " inesperada: "@ + err@,
{
    let mut m = "respuesta de ".to_owned();
    m.push_str(provider);
    m.push_str(" inesperada: ");
    m.push_str(err);
    m
}

/// The reply of an external provider: the content of its first choice, or
/// empty text when it has none.
pub fn provider_reply(contents: Vec<String>) -> (r: String)
    ensures
        r@ == if contents@.len() > 0 {
            contents@[0]@
        } else {
            Seq::<char>::empty()
        },
{
    if contents.len() == 0 {
        String::new()
    } else {
        contents[0].clone()
    }
}

} // verus!
