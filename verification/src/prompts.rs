//! The system prompt every chat mode starts from, the context block of the
//! memory-backed chat, the hybrid-mode preview and the anonymisation of
//! contact names that can be applied before anything leaves the machine.
use vstd::prelude::*;

use crate::chat::{render_all, render_messages, ChatMessage};
use crate::import_common::string_views;
use crate::text::{chars_of, find, is_blank, is_blank_vec, replace_all, replace_all_vec, string_of};

verus! {

/// `(first, second)` of each pair, as character sequences.
pub open spec fn pair_views(v: Seq<(String, String)>) -> Seq<(Seq<char>, Seq<char>)> {
    v.map_values(|p: (String, String)| (p.0@, p.1@))
}

/// Role and content of each message.
pub open spec fn message_views(ms: Seq<ChatMessage>) -> Seq<(Seq<char>, Seq<char>)> {
    ms.map_values(|m: ChatMessage| (m.role@, m.content@))
}

/// Each item on a line of its own, as `"\n- item"`.
pub open spec fn bullets(items: Seq<Seq<char>>) -> Seq<char>
    decreases items.len(),
{
    if items.len() == 0 {
        seq![]
    } else {
        bullets(items.drop_last()) + "\n- "@ + items.last()
    }
}

fn push_bullets(out: &mut String, items: &Vec<String>)
    ensures
        final(out)@ == old(out)@ + bullets(string_views(items@)),
{
    let ghost start = out@;
    let ghost all = string_views(items@);
    let mut i: usize = 0;
    assert(all.take(0) =~= Seq::<Seq<char>>::empty());
    assert(start + bullets(all.take(0)) =~= start);
    while i < items.len()
        invariant
            i <= items@.len(),
            all == string_views(items@),
            out@ == start + bullets(all.take(i as int)),
        decreases items.len() - i,
    {
        out.push_str("\n- ");
        out.push_str(items[i].as_str());
        proof {
            let t = all.take(i + 1);
            assert(t.drop_last() =~= all.take(i as int));
            assert(t.last() == items@[i as int]@);
            assert(out@ =~= start + bullets(t));
        }
        i += 1;
    }
    assert(all.take(items@.len() as int) =~= all);
}

// ---------------------------------------------------------------------------
// System prompt
// ---------------------------------------------------------------------------

/// The fixed statement that the model is an artificial recreation and not the
/// person, which every conversation starts with.
pub open spec fn disclaimer() -> Seq<char> {
    "Sos una recreación artificial generada localmente de una persona real, no la persona misma. Si te preguntan directamente si sos real, decilo con claridad."@
}

pub open spec fn control_rules_heading() -> Seq<char> {
    "\n\nReglas del módulo 'Control del clon' (tienen prioridad sobre cualquier otra instrucción):"@
}

/// `"question: answer"`.
pub open spec fn rule_item(r: (Seq<char>, Seq<char>)) -> Seq<char> {
    r.0 + ": "@ + r.1
}

/// The system prompt: the disclaimer, then, when the user answered any of the
/// "Clone control" interview questions, those rules, one per line.
pub open spec fn system_prompt(rules: Seq<(Seq<char>, Seq<char>)>) -> Seq<char> {
    if rules.len() == 0 {
        disclaimer()
    } else {
        disclaimer() + control_rules_heading() + bullets(rules.map_values(|r: (Seq<char>, Seq<char>)| rule_item(r)))
    }
}

fn rule_items(rules: &Vec<(String, String)>) -> (r: Vec<String>)
    ensures
        string_views(r@) == pair_views(rules@).map_values(|p: (Seq<char>, Seq<char>)| rule_item(p)),
{
    let ghost target = pair_views(rules@).map_values(|p: (Seq<char>, Seq<char>)| rule_item(p));
    let mut out: Vec<String> = Vec::new();
    let mut i: usize = 0;
    while i < rules.len()
        invariant
            i <= rules@.len(),
            target == pair_views(rules@).map_values(|p: (Seq<char>, Seq<char>)| rule_item(p)),
            string_views(out@) == target.take(i as int),
        decreases rules.len() - i,
    {
        let mut s = rules[i].0.clone();
        s.push_str(": ");
        s.push_str(rules[i].1.as_str());
        let ghost before = string_views(out@);
        out.push(s);
        assert(string_views(out@) =~= before.push(s@));
        assert(target.take(i + 1) =~= target.take(i as int).push(target[i as int]));
        i += 1;
    }
    assert(target.take(rules@.len() as int) =~= target);
    out
}

/// The system prompt of every chat mode (plain, memory-backed, streaming and
/// hybrid): the disclaimer and the "Clone control" rules, given as
/// `(question, answer)` pairs.
pub fn build_system_prompt(rules: &Vec<(String, String)>) -> (r: String)
    ensures
        r@ == system_prompt(pair_views(rules@)),
{
    let mut prompt = "Sos una recreación artificial generada localmente de una persona real, no la persona misma. Si te preguntan directamente si sos real, decilo con claridad.".to_owned();
    if rules.len() > 0 {
        prompt.push_str(
            "\n\nReglas del módulo 'Control del clon' (tienen prioridad sobre cualquier otra instrucción):",
        );
        let items = rule_items(rules);
        push_bullets(&mut prompt, &items);
    }
    prompt
}

// ---------------------------------------------------------------------------
// Context of the memory-backed chat
// ---------------------------------------------------------------------------

/// `"[category] trait: value"`.
pub open spec fn trait_item(t: (Seq<char>, Seq<char>, Seq<char>)) -> Seq<char> {
    "["@ + t.0 + "] "@ + t.1 + ": "@ + t.2
}

/// `"(timestamp) text"`.
pub open spec fn relevant_item(m: (Seq<char>, Seq<char>)) -> Seq<char> {
    "("@ + m.0 + ") "@ + m.1
}

/// A heading followed by its items, or nothing when there are no items.
pub open spec fn section(heading: Seq<char>, items: Seq<Seq<char>>) -> Seq<char> {
    if items.len() == 0 {
        seq![]
    } else {
        heading + bullets(items)
    }
}

pub open spec fn profile_heading() -> Seq<char> {
    "\n\nPerfil del usuario:"@
}

pub open spec fn memories_heading() -> Seq<char> {
    "\n\nMemorias confirmadas:"@
}

pub open spec fn relevant_heading() -> Seq<char> {
    "\n\nMensajes relevantes tuyos:"@
}

/// What the model is told when there is no profile, memory or relevant
/// message: to say it lacks the information instead of inventing.
pub open spec fn no_context_note() -> Seq<char> {
    "\n\nNo hay perfil, memorias ni mensajes relevantes disponibles todavía. Si la pregunta depende de esa información, decí explícitamente que no tenés suficiente información en vez de inventar."@
}

pub open spec fn triple_views(v: Seq<(String, String, String)>) -> Seq<(Seq<char>, Seq<char>, Seq<char>)> {
    v.map_values(|t: (String, String, String)| (t.0@, t.1@, t.2@))
}

/// The system text of the memory-backed chat: the system prompt, then the
/// profile traits, the confirmed memories and the relevant messages (each
/// section only when it has items), and the no-information note when all
/// three are empty.
pub open spec fn rag_system(
    base: Seq<char>,
    traits: Seq<(Seq<char>, Seq<char>, Seq<char>)>,
    memories: Seq<Seq<char>>,
    relevant: Seq<(Seq<char>, Seq<char>)>,
) -> Seq<char> {
    base + section(profile_heading(), traits.map_values(|t: (Seq<char>, Seq<char>, Seq<char>)| trait_item(t)))
        + section(memories_heading(), memories) + section(
        relevant_heading(),
        relevant.map_values(|m: (Seq<char>, Seq<char>)| relevant_item(m)),
    ) + if traits.len() == 0 && memories.len() == 0 && relevant.len() == 0 {
        no_context_note()
    } else {
        seq![]
    }
}

fn trait_items(traits: &Vec<(String, String, String)>) -> (r: Vec<String>)
    ensures
        string_views(r@) == triple_views(traits@).map_values(
            |t: (Seq<char>, Seq<char>, Seq<char>)| trait_item(t),
        ),
{
    let ghost target = triple_views(traits@).map_values(
        |t: (Seq<char>, Seq<char>, Seq<char>)| trait_item(t),
    );
    let mut out: Vec<String> = Vec::new();
    let mut i: usize = 0;
    while i < traits.len()
        invariant
            i <= traits@.len(),
            target == triple_views(traits@).map_values(
                |t: (Seq<char>, Seq<char>, Seq<char>)| trait_item(t),
            ),
            string_views(out@) == target.take(i as int),
        decreases traits.len() - i,
    {
        let mut s = "[".to_owned();
        s.push_str(traits[i].0.as_str());
        s.push_str("] ");
        s.push_str(traits[i].1.as_str());
        s.push_str(": ");
        s.push_str(traits[i].2.as_str());
        let ghost before = string_views(out@);
        out.push(s);
        assert(string_views(out@) =~= before.push(s@));
        assert(target.take(i + 1) =~= target.take(i as int).push(target[i as int]));
        i += 1;
    }
    assert(target.take(traits@.len() as int) =~= target);
    out
}

fn relevant_items(relevant: &Vec<(String, String)>) -> (r: Vec<String>)
    ensures
        string_views(r@) == pair_views(relevant@).map_values(|m: (Seq<char>, Seq<char>)| relevant_item(m)),
{
    let ghost target = pair_views(relevant@).map_values(|m: (Seq<char>, Seq<char>)| relevant_item(m));
    let mut out: Vec<String> = Vec::new();
    let mut i: usize = 0;
    while i < relevant.len()
        invariant
            i <= relevant@.len(),
            target == pair_views(relevant@).map_values(|m: (Seq<char>, Seq<char>)| relevant_item(m)),
            string_views(out@) == target.take(i as int),
        decreases relevant.len() - i,
    {
        let mut s = "(".to_owned();
        s.push_str(relevant[i].0.as_str());
        s.push_str(") ");
        s.push_str(relevant[i].1.as_str());
        let ghost before = string_views(out@);
        out.push(s);
        assert(string_views(out@) =~= before.push(s@));
        assert(target.take(i + 1) =~= target.take(i as int).push(target[i as int]));
        i += 1;
    }
    assert(target.take(relevant@.len() as int) =~= target);
    out
}

/// The system text of the memory-backed chat (see `rag_system`): `traits`
/// are `(category, trait, value)`, `relevant` are `(timestamp, text)` of the
/// messages the semantic search found.
pub fn build_rag_system(
    base: String,
    traits: &Vec<(String, String, String)>,
    memories: &Vec<String>,
    relevant: &Vec<(String, String)>,
) -> (r: String)
    ensures
        r@ == rag_system(base@, triple_views(traits@), string_views(memories@), pair_views(relevant@)),
{
    let mut system = base;
    let ghost s0 = system@;
    let titems = trait_items(traits);
    if titems.len() > 0 {
        system.push_str("\n\nPerfil del usuario:");
        push_bullets(&mut system, &titems);
    }
    let ghost s1 = system@;
    assert(s1 == s0 + section(profile_heading(), string_views(titems@)));
    if memories.len() > 0 {
        system.push_str("\n\nMemorias confirmadas:");
        push_bullets(&mut system, memories);
    }
    let ghost s2 = system@;
    assert(s2 == s1 + section(memories_heading(), string_views(memories@)));
    let ritems = relevant_items(relevant);
    if ritems.len() > 0 {
        system.push_str("\n\nMensajes relevantes tuyos:");
        push_bullets(&mut system, &ritems);
    }
    let ghost s3 = system@;
    assert(s3 == s2 + section(relevant_heading(), string_views(ritems@)));
    if traits.len() == 0 && memories.len() == 0 && relevant.len() == 0 {
        system.push_str(
            "\n\nNo hay perfil, memorias ni mensajes relevantes disponibles todavía. Si la pregunta depende de esa información, decí explícitamente que no tenés suficiente información en vez de inventar.",
        );
    }
    system
}

/// The messages sent to the model: one `system` message, then the history.
pub open spec fn with_system_view(system: Seq<char>, history: Seq<(Seq<char>, Seq<char>)>) -> Seq<
    (Seq<char>, Seq<char>),
> {
    seq![("system"@, system)] + history
}

/// Law of the messages sent to the model: the first is the `system` message,
/// and after it comes the whole history, every turn in its place: one message
/// more than the history, and message `k + 1` is history message `k`.
pub proof fn law_system_then_whole_history(system: Seq<char>, history: Seq<(Seq<char>, Seq<char>)>)
    ensures
        with_system_view(system, history).len() == history.len() + 1,
        with_system_view(system, history)[0] == ("system"@, system),
        forall|k: int| 0 <= k < history.len() ==> #[trigger] with_system_view(system, history)[k + 1] == history[k],
{
}

/// A `system` message with `system` followed by a copy of the history.
pub fn with_system(system: String, history: &[ChatMessage]) -> (r: Vec<ChatMessage>)
    ensures
        message_views(r@) == with_system_view(system@, message_views(history@)),
        r@.len() == history@.len() + 1,
        r@[0].role@ == "system"@ && r@[0].content@ == system@,
        forall|k: int|
            0 <= k < history@.len() ==> (#[trigger] r@[k + 1]).role@ == history@[k].role@
                && r@[k + 1].content@ == history@[k].content@,
{
    let ghost sys = system@;
    let mut out: Vec<ChatMessage> = Vec::new();
    out.push(ChatMessage::new("system".to_owned(), system));
    let mut i: usize = 0;
    while i < history.len()
        invariant
            i <= history@.len(),
            message_views(out@) == with_system_view(sys, message_views(history@).take(i as int)),
        decreases history.len() - i,
    {
        let m = history[i].duplicate();
        let ghost before = message_views(out@);
        out.push(m);
        assert(message_views(out@) =~= before.push((m.role@, m.content@)));
        assert(message_views(history@).take(i + 1) =~= message_views(history@).take(i as int).push(
            (history@[i as int].role@, history@[i as int].content@),
        ));
        i += 1;
    }
    assert(message_views(history@).take(history@.len() as int) =~= message_views(history@));
    proof {
        law_system_then_whole_history(sys, message_views(history@));
        assert forall|k: int| 0 <= k < history@.len() implies (#[trigger] out@[k + 1]).role@
            == history@[k].role@ && out@[k + 1].content@ == history@[k].content@ by {
            assert(message_views(out@)[k + 1] == with_system_view(sys, message_views(history@))[k + 1]);
            assert(message_views(history@)[k] == (history@[k].role@, history@[k].content@));
        }
        assert(message_views(out@)[0] == ("system"@, sys));
    }
    out
}

/// The messages of the memory-backed chat: the context built by
/// `build_rag_system` on top of the system prompt, then the history.
pub fn build_rag_messages(
    system_prompt: String,
    traits: &Vec<(String, String, String)>,
    memories: &Vec<String>,
    relevant: &Vec<(String, String)>,
    history: &[ChatMessage],
) -> (r: Vec<ChatMessage>)
    ensures
        message_views(r@) == with_system_view(
            rag_system(system_prompt@, triple_views(traits@), string_views(memories@), pair_views(relevant@)),
            message_views(history@),
        ),
{
    let system = build_rag_system(system_prompt, traits, memories, relevant);
    with_system(system, history)
}

// ---------------------------------------------------------------------------
// The question that drives the semantic search
// ---------------------------------------------------------------------------

/// Content of the last `user` message, or empty text when there is none.
pub open spec fn last_user(ms: Seq<(Seq<char>, Seq<char>)>) -> Seq<char>
    decreases ms.len(),
{
    if ms.len() == 0 {
        seq![]
    } else if ms.last().0 == "user"@ {
        ms.last().1
    } else {
        last_user(ms.drop_last())
    }
}

/// The content of the last message written by the user.
pub fn last_user_query(history: &[ChatMessage]) -> (r: String)
    ensures
        r@ == last_user(message_views(history@)),
{
    let ghost hv = message_views(history@);
    let user = "user".to_owned();
    let mut i: usize = history.len();
    assert(hv.take(i as int) =~= hv);
    while i > 0
        invariant
            i <= history@.len(),
            hv == message_views(history@),
            user@ == "user"@,
            last_user(hv) == last_user(hv.take(i as int)),
        decreases i,
    {
        i -= 1;
        proof {
            let t = hv.take(i + 1);
            assert(t.drop_last() =~= hv.take(i as int));
            assert(t.last() == (history@[i as int].role@, history@[i as int].content@));
        }
        if history[i].role == user {
            return history[i].content.clone();
        }
    }
    String::new()
}

/// Content of the last `user` message, if there is one.
pub open spec fn last_user_opt(ms: Seq<(Seq<char>, Seq<char>)>) -> Option<Seq<char>>
    decreases ms.len(),
{
    if ms.len() == 0 {
        None
    } else if ms.last().0 == "user"@ {
        Some(ms.last().1)
    } else {
        last_user_opt(ms.drop_last())
    }
}

/// The last message written by the user, if any (what a send to an external
/// provider records as the user's turn).
pub fn last_user_message(messages: &[ChatMessage]) -> (r: Option<String>)
    ensures
        match r {
            Some(c) => last_user_opt(message_views(messages@)) == Some(c@),
            None => last_user_opt(message_views(messages@)) is None,
        },
{
    let ghost hv = message_views(messages@);
    let user = "user".to_owned();
    let mut i: usize = messages.len();
    assert(hv.take(i as int) =~= hv);
    while i > 0
        invariant
            i <= messages@.len(),
            hv == message_views(messages@),
            user@ == "user"@,
            last_user_opt(hv) == last_user_opt(hv.take(i as int)),
        decreases i,
    {
        i -= 1;
        proof {
            let t = hv.take(i + 1);
            assert(t.drop_last() =~= hv.take(i as int));
            assert(t.last() == (messages@[i as int].role@, messages@[i as int].content@));
        }
        if messages[i].role == user {
            return Some(messages[i].content.clone());
        }
    }
    None
}

/// The text to search the memory with: the last user message, unless it is
/// blank, in which case no search is made.
pub fn rag_query(history: &[ChatMessage]) -> (r: Option<String>)
    ensures
        match r {
            Some(q) => q@ == last_user(message_views(history@)) && !is_blank(q@),
            None => is_blank(last_user(message_views(history@))),
        },
{
    let q = last_user_query(history);
    let v = chars_of(q.as_str());
    if is_blank_vec(&v) {
        None
    } else {
        Some(q)
    }
}

// ---------------------------------------------------------------------------
// Anonymisation and the hybrid-mode preview
// ---------------------------------------------------------------------------

pub open spec fn contact_placeholder() -> Seq<char> {
    "[contacto]"@
}

/// `text` with every occurrence of each non-blank name replaced by
/// `"[contacto]"`, the names taken in order.
pub open spec fn anonymize_text(text: Seq<char>, names: Seq<Seq<char>>) -> Seq<char>
    decreases names.len(),
{
    if names.len() == 0 {
        text
    } else {
        let t = anonymize_text(text, names.drop_last());
        if is_blank(names.last()) {
            t
        } else {
            replace_all(t, names.last(), contact_placeholder())
        }
    }
}

fn anonymize_one(text: &String, names: &Vec<String>) -> (r: String)
    ensures
        r@ == anonymize_text(text@, string_views(names@)),
{
    let ghost nv = string_views(names@);
    let placeholder = chars_of("[contacto]");
    let mut cur = chars_of(text.as_str());
    let mut i: usize = 0;
    assert(nv.take(0) =~= Seq::<Seq<char>>::empty());
    while i < names.len()
        invariant
            i <= names@.len(),
            nv == string_views(names@),
            placeholder@ == contact_placeholder(),
            cur@ == anonymize_text(text@, nv.take(i as int)),
        decreases names.len() - i,
    {
        proof {
            let t = nv.take(i + 1);
            assert(t.drop_last() =~= nv.take(i as int));
            assert(t.last() == names@[i as int]@);
        }
        let name = chars_of(names[i].as_str());
        if !is_blank_vec(&name) {
            assert(name@.len() > 0);
            cur = replace_all_vec(&cur, &name, &placeholder);
        }
        i += 1;
    }
    assert(nv.take(names@.len() as int) =~= nv);
    string_of(&cur)
}

/// Each message with the contact names replaced by `"[contacto]"` (see
/// `anonymize_text`); roles are kept.
pub fn anonymize_messages(messages: &[ChatMessage], names: &Vec<String>) -> (r: Vec<ChatMessage>)
    ensures
        message_views(r@) == message_views(messages@).map_values(
            |m: (Seq<char>, Seq<char>)| (m.0, anonymize_text(m.1, string_views(names@))),
        ),
{
    let ghost target = message_views(messages@).map_values(
        |m: (Seq<char>, Seq<char>)| (m.0, anonymize_text(m.1, string_views(names@))),
    );
    let mut out: Vec<ChatMessage> = Vec::new();
    let mut i: usize = 0;
    while i < messages.len()
        invariant
            i <= messages@.len(),
            target == message_views(messages@).map_values(
                |m: (Seq<char>, Seq<char>)| (m.0, anonymize_text(m.1, string_views(names@))),
            ),
            message_views(out@) == target.take(i as int),
        decreases messages.len() - i,
    {
        let content = anonymize_one(&messages[i].content, names);
        let m = ChatMessage::new(messages[i].role.clone(), content);
        let ghost before = message_views(out@);
        out.push(m);
        assert(message_views(out@) =~= before.push((m.role@, m.content@)));
        assert(target.take(i + 1) =~= target.take(i as int).push(target[i as int]));
        i += 1;
    }
    assert(target.take(messages@.len() as int) =~= target);
    out
}

/// What the user reviews before anything is sent to an external provider:
/// the messages and the exact text they render to.
pub struct HybridPreview {
    pub provider: String,
    pub model: String,
    pub messages: Vec<ChatMessage>,
    /// The exact text shown to the user before confirming; nothing is sent
    /// until this preview is confirmed.
    pub rendered_text: String,
}

pub open spec fn missing_credentials(provider: Seq<char>) -> Seq<char> {
    "no hay credenciales guardadas para el proveedor '"@ + provider + "'"@
}

/// The hybrid-mode preview of `messages` (the memory-backed chat messages),
/// anonymised first when asked; `model` is the model saved with the
/// provider's credentials, and without credentials the preview is refused.
pub fn build_hybrid_preview(
    provider: String,
    model: Option<String>,
    messages: Vec<ChatMessage>,
    anonymize: bool,
    names: &Vec<String>,
) -> (r: Result<HybridPreview, String>)
    ensures
        match r {
            Ok(p) => {
                &&& model is Some
                &&& p.provider@ == provider@
                &&& p.model@ == model.unwrap()@
                &&& message_views(p.messages@) == if anonymize {
                    message_views(messages@).map_values(
                        |m: (Seq<char>, Seq<char>)| (m.0, anonymize_text(m.1, string_views(names@))),
                    )
                } else {
                    message_views(messages@)
                }
                &&& p.rendered_text@ == render_all(p.messages@)
            },
            Err(e) => model is None && e@ == missing_credentials(provider@),
        },
{
    let model = match model {
        Some(m) => m,
        None => {
            let mut e = "no hay credenciales guardadas para el proveedor '".to_owned();
            e.push_str(provider.as_str());
            e.push_str("'");
            return Err(e);
        },
    };
    let msgs = if anonymize {
        anonymize_messages(messages.as_slice(), names)
    } else {
        messages
    };
    let rendered_text = render_messages(msgs.as_slice());
    Ok(HybridPreview { provider, model, messages: msgs, rendered_text })
}

// ---------------------------------------------------------------------------
// Laws
// ---------------------------------------------------------------------------

/// Every chat mode starts from the same system prompt: the plain chat sends
/// it as its system message, and the memory-backed chat (which the hybrid
/// preview and the drafts reuse) sends a system message that begins with it,
/// so the disclaimer and the "Clone control" rules reach the model in all
/// of them.
pub proof fn law_rules_reach_every_mode(
    rules: Seq<(Seq<char>, Seq<char>)>,
    traits: Seq<(Seq<char>, Seq<char>, Seq<char>)>,
    memories: Seq<Seq<char>>,
    relevant: Seq<(Seq<char>, Seq<char>)>,
    history: Seq<(Seq<char>, Seq<char>)>,
)
    ensures
        with_system_view(system_prompt(rules), history)[0] == ("system"@, system_prompt(rules)),
        with_system_view(rag_system(system_prompt(rules), traits, memories, relevant), history)[0].0
            == "system"@,
        system_prompt(rules).is_prefix_of(
            with_system_view(rag_system(system_prompt(rules), traits, memories, relevant), history)[0].1,
        ),
        disclaimer().is_prefix_of(system_prompt(rules)),
{
    let base = system_prompt(rules);
    let full = rag_system(base, traits, memories, relevant);
    assert(full.subrange(0, base.len() as int) =~= base);
    if rules.len() > 0 {
        assert(base.subrange(0, disclaimer().len() as int) =~= disclaimer());
    }
}

/// When there is no profile, no confirmed memory and no relevant message, the
/// model is told, right after the system prompt, to say that it lacks the
/// information instead of inventing; when there is any, it is not.
pub proof fn law_missing_information_is_admitted(
    base: Seq<char>,
    traits: Seq<(Seq<char>, Seq<char>, Seq<char>)>,
    memories: Seq<Seq<char>>,
    relevant: Seq<(Seq<char>, Seq<char>)>,
)
    ensures
        traits.len() == 0 && memories.len() == 0 && relevant.len() == 0 ==> rag_system(
            base,
            traits,
            memories,
            relevant,
        ) == base + no_context_note(),
        traits.len() > 0 || memories.len() > 0 || relevant.len() > 0 ==> rag_system(
            base,
            traits,
            memories,
            relevant,
        ) == base + section(profile_heading(), traits.map_values(|t: (Seq<char>, Seq<char>, Seq<char>)| trait_item(t)))
            + section(memories_heading(), memories) + section(
            relevant_heading(),
            relevant.map_values(|m: (Seq<char>, Seq<char>)| relevant_item(m)),
        ),
{
    let t = traits.map_values(|t: (Seq<char>, Seq<char>, Seq<char>)| trait_item(t));
    let r = relevant.map_values(|m: (Seq<char>, Seq<char>)| relevant_item(m));
    if traits.len() == 0 && memories.len() == 0 && relevant.len() == 0 {
        assert(t.len() == 0);
        assert(r.len() == 0);
        assert(base + section(profile_heading(), t) + section(memories_heading(), memories) + section(
            relevant_heading(),
            r,
        ) =~= base);
    } else {
        let x = base + section(profile_heading(), t) + section(memories_heading(), memories) + section(
            relevant_heading(),
            r,
        );
        assert(x + Seq::<char>::empty() =~= x);
    }
}

/// With no contact names to hide (or only blank ones), anonymising changes
/// nothing.
pub proof fn law_anonymize_without_names(text: Seq<char>, names: Seq<Seq<char>>)
    requires
        forall|i: int| 0 <= i < names.len() ==> is_blank(#[trigger] names[i]),
    ensures
        anonymize_text(text, names) == text,
    decreases names.len(),
{
    if names.len() > 0 {
        assert(is_blank(names[names.len() - 1]));
        law_anonymize_without_names(text, names.drop_last());
    }
}

/// A name that anonymisation removes for good: not empty, without square
/// brackets, and not a piece of `"[contacto]"` itself.
pub open spec fn hideable(name: Seq<char>) -> bool {
    &&& name.len() > 0
    &&& !name.contains('[')
    &&& !name.contains(']')
    &&& find(contact_placeholder(), name) is None
}

proof fn lemma_no_match_across(a: Seq<char>, b: Seq<char>, m: Seq<char>)
    requires
        find(a, m) is None,
        find(b, m) is None,
        hideable(m),
    ensures
        find(a + contact_placeholder() + b, m) is None,
{
    let ph = contact_placeholder();
    reveal_strlit("[contacto]");
    assert(ph.len() == 10);
    assert(ph[0] == '[');
    assert(ph[9] == ']');
    let u = a + ph + b;
    crate::text::lemma_find(a, m);
    crate::text::lemma_find(b, m);
    crate::text::lemma_find(ph, m);
    assert forall|j: int| !#[trigger] crate::text::match_at(u, m, j) by {
        if crate::text::match_at(u, m, j) {
            let k = m.len() as int;
            assert(u.subrange(j, j + k) == m);
            if j + k <= a.len() {
                assert(a.subrange(j, j + k) =~= u.subrange(j, j + k));
                assert(crate::text::match_at(a, m, j));
            } else if j <= a.len() {
                assert(m[a.len() - j] == u[a.len() as int]);
                assert(m.contains('['));
            } else if j + k <= a.len() + 10 {
                assert(ph.subrange(j - a.len(), j - a.len() + k) =~= u.subrange(j, j + k));
                assert(crate::text::match_at(ph, m, j - a.len()));
            } else if j < a.len() + 10 {
                assert(m[a.len() + 9 - j] == u[(a.len() + 9) as int]);
                assert(m.contains(']'));
            } else {
                let d = j - a.len() - 10;
                assert(b.subrange(d, d + k) =~= u.subrange(j, j + k));
                assert(crate::text::match_at(b, m, d));
            }
        }
    }
    crate::text::lemma_find_none(u, m);
}

proof fn lemma_replace_hides(s: Seq<char>, n: Seq<char>, m: Seq<char>)
    requires
        hideable(n),
        hideable(m),
        m == n || find(s, m) is None,
    ensures
        find(replace_all(s, n, contact_placeholder()), m) is None,
    decreases s.len(),
{
    crate::text::lemma_find(s, n);
    crate::text::lemma_find(s, m);
    crate::text::lemma_find_bound(s, n);
    match find(s, n) {
        None => {},
        Some(i) => {
            let k = n.len() as int;
            let a = s.take(i);
            let rest = s.skip(i + k);
            assert forall|j: int| !#[trigger] crate::text::match_at(a, m, j) by {
                if crate::text::match_at(a, m, j) {
                    assert(s.subrange(j, j + m.len()) =~= a.subrange(j, j + m.len()));
                    assert(crate::text::match_at(s, m, j));
                }
            }
            crate::text::lemma_find_none(a, m);
            if m != n {
                assert forall|j: int| !#[trigger] crate::text::match_at(rest, m, j) by {
                    if crate::text::match_at(rest, m, j) {
                        assert(s.subrange(j + i + k, j + i + k + m.len()) =~= rest.subrange(
                            j,
                            j + m.len(),
                        ));
                        assert(crate::text::match_at(s, m, j + i + k));
                    }
                }
                crate::text::lemma_find_none(rest, m);
            }
            lemma_replace_hides(rest, n, m);
            lemma_no_match_across(a, replace_all(rest, n, contact_placeholder()), m);
        },
    }
}

/// After anonymising, none of the contact names is left in the text: every
/// name that is not blank is gone, provided each such name could not be
/// rebuilt from the placeholder (no square brackets, not a piece of
/// `"[contacto]"`).
pub proof fn law_anonymized_names_are_gone(text: Seq<char>, names: Seq<Seq<char>>)
    requires
        forall|i: int| 0 <= i < names.len() ==> is_blank(#[trigger] names[i]) || hideable(names[i]),
    ensures
        forall|i: int|
            0 <= i < names.len() && !is_blank(#[trigger] names[i]) ==> find(
                anonymize_text(text, names),
                names[i],
            ) is None,
    decreases names.len(),
{
    if names.len() > 0 {
        let init = names.drop_last();
        law_anonymized_names_are_gone(text, init);
        let t = anonymize_text(text, init);
        let last = names.last();
        assert forall|i: int| 0 <= i < names.len() && !is_blank(#[trigger] names[i]) implies find(
            anonymize_text(text, names),
            names[i],
        ) is None by {
            if i < names.len() - 1 {
                assert(init[i] == names[i]);
                if !is_blank(last) {
                    lemma_replace_hides(t, last, names[i]);
                }
            } else {
                lemma_replace_hides(t, last, last);
            }
        }
    }
}

} // verus!
