//! The generators that ask the local model about the user: the evidence
//! they show it, the exact prompts, and what they keep of its answers
//! (candidate memories, values, decision patterns, contradictions, the tone
//! of each conversation).
use vstd::prelude::*;
use vstd::string::StringSliceAdditionalSpecFns;
use vstd::utf8::{decode_utf8, encode_utf8};

use crate::datetime::dec;
use crate::import_common::string_views;
use crate::prompts::pair_views;
use crate::text::{
    chars_of, find, is_blank, is_blank_vec, join, join_vec, rfind_char, string_of, trim, trim_char,
    trim_char_vec, trim_vec, views,
};

verus! {

// ---------------------------------------------------------------------------
// Numbers as text
// ---------------------------------------------------------------------------

fn digit(d: usize) -> (c: char)
    requires
        d < 10,
    ensures
        c == crate::datetime::digit_char(d as int),
{
    if d == 0 {
        '0'
    } else if d == 1 {
        '1'
    } else if d == 2 {
        '2'
    } else if d == 3 {
        '3'
    } else if d == 4 {
        '4'
    } else if d == 5 {
        '5'
    } else if d == 6 {
        '6'
    } else if d == 7 {
        '7'
    } else if d == 8 {
        '8'
    } else {
        '9'
    }
}

fn push_decimal(out: &mut String, n: usize)
    ensures
        final(out)@ == old(out)@ + dec(n as nat),
    decreases n,
{
    if n >= 10 {
        push_decimal(out, n / 10);
    }
    out.push(digit(n % 10));
    proof {
        if n >= 10 {
            assert(dec(n as nat) == dec((n / 10) as nat) + seq![crate::datetime::digit_char((n % 10) as int)]);
        }
    }
}

// ---------------------------------------------------------------------------
// Numbered evidence
// ---------------------------------------------------------------------------

/// `"[i] text"` for each text, numbered from 0.
pub open spec fn numbered(texts: Seq<Seq<char>>) -> Seq<Seq<char>> {
    Seq::new(texts.len(), |i: int| "["@ + dec(i as nat) + "] "@ + texts[i])
}

/// The user's messages shown to the candidate-memory generator, one per
/// line, each marked with its index (the model cites it to say which message
/// backs a fact).
pub fn candidate_evidence(texts: &Vec<String>) -> (r: String)
    ensures
        r@ == join(numbered(string_views(texts@)), seq!['\n']),
{
    let ghost target = numbered(string_views(texts@));
    let mut parts: Vec<Vec<char>> = Vec::new();
    let mut i: usize = 0;
    while i < texts.len()
        invariant
            i <= texts@.len(),
            target == numbered(string_views(texts@)),
            views(parts@) == target.take(i as int),
        decreases texts.len() - i,
    {
        let mut s = "[".to_owned();
        push_decimal(&mut s, i);
        s.push_str("] ");
        s.push_str(texts[i].as_str());
        let ghost before = views(parts@);
        parts.push(chars_of(s.as_str()));
        assert(views(parts@) =~= before.push(s@));
        assert(target.take(i + 1) =~= target.take(i as int).push(target[i as int]));
        i += 1;
    }
    assert(target.take(texts@.len() as int) =~= target);
    let mut nl: Vec<char> = Vec::new();
    nl.push('\n');
    assert(parts@.map_values(|v: Vec<char>| v@) == views(parts@));
    let j = join_vec(&parts, &nl);
    assert(nl@ =~= seq!['\n']);
    string_of(&j)
}

/// `"[i] (date) content"` for each confirmed memory, numbered from 0.
pub open spec fn dated(memories: Seq<(Seq<char>, Seq<char>)>) -> Seq<Seq<char>> {
    Seq::new(
        memories.len(),
        |i: int| "["@ + dec(i as nat) + "] ("@ + memories[i].1 + ") "@ + memories[i].0,
    )
}

/// The confirmed memories shown to the contradiction detector, given as
/// `(content, created_at)` in date order, one per line with its index.
pub fn contradiction_evidence(memories: &Vec<(String, String)>) -> (r: String)
    ensures
        r@ == join(dated(pair_views(memories@)), seq!['\n']),
{
    let ghost target = dated(pair_views(memories@));
    let mut parts: Vec<Vec<char>> = Vec::new();
    let mut i: usize = 0;
    while i < memories.len()
        invariant
            i <= memories@.len(),
            target == dated(pair_views(memories@)),
            views(parts@) == target.take(i as int),
        decreases memories.len() - i,
    {
        let mut s = "[".to_owned();
        push_decimal(&mut s, i);
        s.push_str("] (");
        s.push_str(memories[i].1.as_str());
        s.push_str(") ");
        s.push_str(memories[i].0.as_str());
        let ghost before = views(parts@);
        parts.push(chars_of(s.as_str()));
        assert(views(parts@) =~= before.push(s@));
        assert(target.take(i + 1) =~= target.take(i as int).push(target[i as int]));
        i += 1;
    }
    assert(target.take(memories@.len() as int) =~= target);
    let mut nl: Vec<char> = Vec::new();
    nl.push('\n');
    assert(parts@.map_values(|v: Vec<char>| v@) == views(parts@));
    let j = join_vec(&parts, &nl);
    assert(nl@ =~= seq!['\n']);
    string_of(&j)
}

/// The id of the message a fact cites by index, when the index names one
/// of the messages shown.
pub fn cited_message(index: Option<usize>, ids: &Vec<String>) -> (r: Option<String>)
    ensures
        match r {
            Some(id) => index matches Some(i) && i < ids@.len() && id@ == ids@[i as int]@,
            None => index matches Some(i) ==> i >= ids@.len(),
        },
{
    match index {
        Some(i) => if i < ids.len() {
            Some(ids[i].clone())
        } else {
            None
        },
        None => None,
    }
}

// ---------------------------------------------------------------------------
// Interview, memories and messages as context
// ---------------------------------------------------------------------------

/// `"P: question\nR: answer"`.
pub open spec fn qa_item(p: (Seq<char>, Seq<char>)) -> Seq<char> {
    "P: "@ + p.0 + "\nR: "@ + p.1
}

/// `"- text"`.
pub open spec fn dash_item(t: Seq<char>) -> Seq<char> {
    "- "@ + t
}

/// The lines of the context given to the value and decision generators:
/// the interview answers under `heading`, the confirmed memories and a
/// sample of the user's messages, each group only when it has items.
pub open spec fn context_blocks(
    heading: Seq<char>,
    answers: Seq<(Seq<char>, Seq<char>)>,
    memories: Seq<Seq<char>>,
    messages: Seq<Seq<char>>,
) -> Seq<Seq<char>> {
    (if answers.len() > 0 {
        seq![heading] + answers.map_values(|p: (Seq<char>, Seq<char>)| qa_item(p))
    } else {
        seq![]
    }) + (if memories.len() > 0 {
        seq!["\nMemorias confirmadas:"@] + memories.map_values(|t: Seq<char>| dash_item(t))
    } else {
        seq![]
    }) + (if messages.len() > 0 {
        seq!["\nMensajes propios (muestra):"@] + messages.map_values(|t: Seq<char>| dash_item(t))
    } else {
        seq![]
    })
}

/// The context as one text, its lines joined by line feeds.
pub open spec fn context_text(
    heading: Seq<char>,
    answers: Seq<(Seq<char>, Seq<char>)>,
    memories: Seq<Seq<char>>,
    messages: Seq<Seq<char>>,
) -> Seq<char> {
    join(context_blocks(heading, answers, memories, messages), seq!['\n'])
}

fn push_view(parts: &mut Vec<Vec<char>>, s: &String)
    ensures
        views(final(parts)@) == views(old(parts)@).push(s@),
{
    let ghost before = views(parts@);
    parts.push(chars_of(s.as_str()));
    assert(views(parts@) =~= before.push(s@));
}

fn push_dashes(parts: &mut Vec<Vec<char>>, heading: &str, items: &Vec<String>)
    ensures
        views(final(parts)@) == views(old(parts)@) + if items@.len() > 0 {
            seq![heading@] + string_views(items@).map_values(|t: Seq<char>| dash_item(t))
        } else {
            seq![]
        },
{
    if items.len() == 0 {
        assert(views(parts@) + Seq::<Seq<char>>::empty() =~= views(parts@));
        return;
    }
    let ghost start = views(parts@);
    let ghost mapped = string_views(items@).map_values(|t: Seq<char>| dash_item(t));
    push_view(parts, &heading.to_owned());
    let mut i: usize = 0;
    while i < items.len()
        invariant
            i <= items@.len(),
            mapped == string_views(items@).map_values(|t: Seq<char>| dash_item(t)),
            views(parts@) == start + seq![heading@] + mapped.take(i as int),
        decreases items.len() - i,
    {
        let mut s = "- ".to_owned();
        s.push_str(items[i].as_str());
        push_view(parts, &s);
        assert(mapped.take(i + 1) =~= mapped.take(i as int).push(mapped[i as int]));
        assert(views(parts@) =~= start + seq![heading@] + mapped.take(i + 1));
        i += 1;
    }
    assert(mapped.take(items@.len() as int) =~= mapped);
    assert(views(parts@) =~= start + (seq![heading@] + mapped));
}

/// The context shown to the value generator (`heading` is the interview
/// module's title) or to the decision generator: see `context_text`.
pub fn build_context(
    heading: &str,
    answers: &Vec<(String, String)>,
    memories: &Vec<String>,
    messages: &Vec<String>,
) -> (r: String)
    ensures
        r@ == context_text(heading@, pair_views(answers@), string_views(memories@), string_views(messages@)),
{
    let mut parts: Vec<Vec<char>> = Vec::new();
    let ghost av = pair_views(answers@);
    if answers.len() > 0 {
        push_view(&mut parts, &heading.to_owned());
        let ghost mapped = av.map_values(|p: (Seq<char>, Seq<char>)| qa_item(p));
        let mut i: usize = 0;
        while i < answers.len()
            invariant
                i <= answers@.len(),
                av == pair_views(answers@),
                mapped == av.map_values(|p: (Seq<char>, Seq<char>)| qa_item(p)),
                views(parts@) == seq![heading@] + mapped.take(i as int),
            decreases answers.len() - i,
        {
            let mut s = "P: ".to_owned();
            s.push_str(answers[i].0.as_str());
            s.push_str("\nR: ");
            s.push_str(answers[i].1.as_str());
            push_view(&mut parts, &s);
            assert(mapped.take(i + 1) =~= mapped.take(i as int).push(mapped[i as int]));
            assert(views(parts@) =~= seq![heading@] + mapped.take(i + 1));
            i += 1;
        }
        assert(mapped.take(answers@.len() as int) =~= mapped);
    } else {
        assert(views(parts@) =~= Seq::<Seq<char>>::empty());
    }
    push_dashes(&mut parts, "\nMemorias confirmadas:", memories);
    push_dashes(&mut parts, "\nMensajes propios (muestra):", messages);
    let ghost blocks = context_blocks(heading@, av, string_views(memories@), string_views(messages@));
    assert(views(parts@) =~= blocks);
    let mut nl: Vec<char> = Vec::new();
    nl.push('\n');
    assert(nl@ =~= seq!['\n']);
    assert(parts@.map_values(|v: Vec<char>| v@) == views(parts@));
    string_of(&join_vec(&parts, &nl))
}

// ---------------------------------------------------------------------------
// Prompts
// ---------------------------------------------------------------------------

pub open spec fn candidates_instructions() -> Seq<char> {
    "Analizá los siguientes mensajes de una persona (cada uno marcado con [n]) y extraé hechos, preferencias o rasgos concretos sobre ella. Para cada uno indicá: index (el número [n] del mensaje que lo respalda), layer (uno de: preferencias, autobiografica, estilo_linguistico, perfil_estable), content (el hecho, en una oración, en tercera persona), evidence (copia textual del fragmento del mensaje que lo respalda). NO inventes nada que no esté respaldado por el texto. Si un mensaje no aporta nada claro, ignoralo. Respondé ÚNICAMENTE un array JSON de objetos con esas 4 claves, sin texto adicional.\n\nMensajes:\n"@
}

/// The prompt of the candidate-memory generator around the numbered
/// messages.
pub fn candidates_prompt(evidence: &str) -> (r: String)
    ensures
        r@ == candidates_instructions() + evidence@,
{
    let mut p = "Analizá los siguientes mensajes de una persona (cada uno marcado con [n]) y extraé hechos, preferencias o rasgos concretos sobre ella. Para cada uno indicá: index (el número [n] del mensaje que lo respalda), layer (uno de: preferencias, autobiografica, estilo_linguistico, perfil_estable), content (el hecho, en una oración, en tercera persona), evidence (copia textual del fragmento del mensaje que lo respalda). NO inventes nada que no esté respaldado por el texto. Si un mensaje no aporta nada claro, ignoralo. Respondé ÚNICAMENTE un array JSON de objetos con esas 4 claves, sin texto adicional.\n\nMensajes:\n".to_owned();
    p.push_str(evidence);
    p
}

pub open spec fn contradictions_instructions() -> Seq<char> {
    "Estas son memorias confirmadas sobre una persona, ordenadas por fecha (marcadas [n]). Buscá cambios de opinión REALES a través del tiempo (no evolución natural menor ni matices): casos donde algo que dijo o creía antes contradice claramente algo posterior. Para cada contradicción real que encuentres, devolvé un objeto con: content (describí el cambio, ej. 'Cambió de opinión sobre X: antes creía Y, ahora cree Z'), evidence (citá los fragmentos [n] involucrados). Si no hay contradicciones reales, devolvé un array vacío — no inventes cambios menores. Respondé ÚNICAMENTE un array JSON de objetos con esas 2 claves.\n\nMemorias:\n"@
}

/// The prompt of the contradiction detector around the dated memories.
pub fn contradictions_prompt(evidence: &str) -> (r: String)
    ensures
        r@ == contradictions_instructions() + evidence@,
{
    let mut p = "Estas son memorias confirmadas sobre una persona, ordenadas por fecha (marcadas [n]). Buscá cambios de opinión REALES a través del tiempo (no evolución natural menor ni matices): casos donde algo que dijo o creía antes contradice claramente algo posterior. Para cada contradicción real que encuentres, devolvé un objeto con: content (describí el cambio, ej. 'Cambió de opinión sobre X: antes creía Y, ahora cree Z'), evidence (citá los fragmentos [n] involucrados). Si no hay contradicciones reales, devolvé un array vacío — no inventes cambios menores. Respondé ÚNICAMENTE un array JSON de objetos con esas 2 claves.\n\nMemorias:\n".to_owned();
    p.push_str(evidence);
    p
}

pub open spec fn values_instructions() -> Seq<char> {
    "A partir del siguiente contexto sobre una persona, identificá hasta 8 valores que no negocia o que la definen. Para cada uno indicá: trait (nombre corto del valor, ej. 'honestidad'), value (una frase explicando cómo se manifiesta en ella), evidence (cita textual exacta del contexto que lo respalda). NO inventes valores sin respaldo textual claro. Respondé ÚNICAMENTE un array JSON de objetos con esas 3 claves.\n\nContexto:\n"@
}

pub open spec fn values_error() -> Seq<char> {
    "no hay suficiente entrevista, memorias o mensajes propios todavía para generar valores"@
}

/// The prompt of the value generator around its context, or the refusal
/// when the context is blank.
pub fn values_prompt(context: &str) -> (r: Result<String, String>)
    ensures
        match r {
            Ok(p) => !is_blank(context@) && p@ == values_instructions() + context@,
            Err(e) => is_blank(context@) && e@ == values_error(),
        },
{
    if is_blank_vec(&chars_of(context)) {
        return Err(
            "no hay suficiente entrevista, memorias o mensajes propios todavía para generar valores".to_owned(),
        );
    }
    let mut p = "A partir del siguiente contexto sobre una persona, identificá hasta 8 valores que no negocia o que la definen. Para cada uno indicá: trait (nombre corto del valor, ej. 'honestidad'), value (una frase explicando cómo se manifiesta en ella), evidence (cita textual exacta del contexto que lo respalda). NO inventes valores sin respaldo textual claro. Respondé ÚNICAMENTE un array JSON de objetos con esas 3 claves.\n\nContexto:\n".to_owned();
    p.push_str(context);
    Ok(p)
}

pub open spec fn decisions_instructions() -> Seq<char> {
    "A partir del siguiente contexto sobre una persona, identificá hasta 8 patrones de toma de decisiones (cómo decide, qué la hace cambiar de opinión, cómo reacciona bajo presión). Para cada uno indicá: trait (nombre corto del patrón, ej. 'decide rápido bajo presión'), value (una frase explicando cómo se manifiesta), evidence (cita textual exacta del contexto que lo respalda). NO inventes patrones sin respaldo textual claro. Respondé ÚNICAMENTE un array JSON de objetos con esas 3 claves.\n\nContexto:\n"@
}

pub open spec fn decisions_error() -> Seq<char> {
    "no hay suficiente entrevista, memorias o mensajes propios todavía para generar patrones de decisión"@
}

/// The prompt of the decision-pattern generator around its context, or the
/// refusal when the context is blank.
pub fn decisions_prompt(context: &str) -> (r: Result<String, String>)
    ensures
        match r {
            Ok(p) => !is_blank(context@) && p@ == decisions_instructions() + context@,
            Err(e) => is_blank(context@) && e@ == decisions_error(),
        },
{
    if is_blank_vec(&chars_of(context)) {
        return Err(
            "no hay suficiente entrevista, memorias o mensajes propios todavía para generar patrones de decisión".to_owned(),
        );
    }
    let mut p = "A partir del siguiente contexto sobre una persona, identificá hasta 8 patrones de toma de decisiones (cómo decide, qué la hace cambiar de opinión, cómo reacciona bajo presión). Para cada uno indicá: trait (nombre corto del patrón, ej. 'decide rápido bajo presión'), value (una frase explicando cómo se manifiesta), evidence (cita textual exacta del contexto que lo respalda). NO inventes patrones sin respaldo textual claro. Respondé ÚNICAMENTE un array JSON de objetos con esas 3 claves.\n\nContexto:\n".to_owned();
    p.push_str(context);
    Ok(p)
}

/// The request of the candidate-memory generator, or `None` (nothing to
/// ask, no memory created) when there is no message to show.
pub fn candidates_request(texts: &Vec<String>) -> (r: Option<String>)
    ensures
        match r {
            Some(p) => texts@.len() > 0 && p@ == candidates_instructions() + join(
                numbered(string_views(texts@)),
                seq!['\n'],
            ),
            None => texts@.len() == 0,
        },
{
    if texts.len() == 0 {
        return None;
    }
    let evidence = candidate_evidence(texts);
    Some(candidates_prompt(evidence.as_str()))
}

/// The request of the contradiction detector, or `None` (nothing to ask,
/// no memory created) with fewer than two confirmed memories to compare.
pub fn contradictions_request(memories: &Vec<(String, String)>) -> (r: Option<String>)
    ensures
        match r {
            Some(p) => memories@.len() >= 2 && p@ == contradictions_instructions() + join(
                dated(pair_views(memories@)),
                seq!['\n'],
            ),
            None => memories@.len() < 2,
        },
{
    if memories.len() < 2 {
        return None;
    }
    let evidence = contradiction_evidence(memories);
    Some(contradictions_prompt(evidence.as_str()))
}

/// A candidate memory or a contradiction found by the model is kept only
/// when its content is not blank.
pub fn keep_content_finding(content: &str) -> (b: bool)
    ensures
        b == !is_blank(content@),
{
    !is_blank_vec(&chars_of(content))
}

/// A finding of the value or decision generator is kept only with a name
/// and a value that are not blank.
pub fn keep_trait_finding(trait_name: &str, value: &str) -> (b: bool)
    ensures
        b == (!is_blank(trait_name@) && !is_blank(value@)),
{
    !is_blank_vec(&chars_of(trait_name)) && !is_blank_vec(&chars_of(value))
}

// ---------------------------------------------------------------------------
// Tone per conversation
// ---------------------------------------------------------------------------

/// The first `min(8, bytes)` bytes of an id, as text.
pub open spec fn id_prefix(id: Seq<char>) -> Seq<char> {
    let b = encode_utf8(id);
    decode_utf8(b.take(if b.len() < 8 {
        b.len() as int
    } else {
        8
    }))
}

/// The label of a conversation: its title, or, when the title is blank,
/// `"Conversación "` and the first eight bytes of its id.
pub open spec fn tone_label_of(id: Seq<char>, title: Seq<char>) -> Seq<char> {
    if is_blank(title) {
        "Conversación "@ + id_prefix(id)
    } else {
        title
    }
}

/// The cut after the first eight bytes of the id falls between characters.
pub open spec fn label_cut_ok(id: Seq<char>) -> bool {
    let b = encode_utf8(id);
    vstd::utf8::is_char_boundary(
        b,
        if b.len() < 8 {
            b.len() as int
        } else {
            8
        },
    )
}

/// The label under which a conversation's tone is saved.
pub fn tone_label(id: &str, title: &str) -> (r: String)
    requires
        is_blank(title@) ==> label_cut_ok(id@),
    ensures
        r@ == tone_label_of(id@, title@),
{
    if !is_blank_vec(&chars_of(title)) {
        return title.to_owned();
    }
    proof {
        vstd::utf8::encode_utf8_decode_utf8(id@);
        assert(id.spec_bytes() == encode_utf8(id@));
    }
    let n = id.as_bytes().len();
    let k: usize = if n < 8 {
        n
    } else {
        8
    };
    let (first, _) = id.split_at(k);
    proof {
        vstd::utf8::encode_utf8_decode_utf8(first@);
        vstd::utf8::encode_utf8_decode_utf8(id@);
        assert(first.spec_bytes() == encode_utf8(first@));
        assert(id.spec_bytes() == encode_utf8(id@));
        assert(encode_utf8(id@).take(k as int) =~= id.spec_bytes().subrange(0, k as int));
    }
    let mut s = "Conversación ".to_owned();
    s.push_str(first);
    s
}

/// The conversations whose tone is described: those with at least three
/// messages of the user, each under its label.
pub open spec fn tone_targets(convs: Seq<(Seq<char>, Seq<char>, Seq<Seq<char>>)>, n: int) -> Seq<
    (Seq<char>, Seq<Seq<char>>),
>
    decreases n,
{
    if n <= 0 {
        seq![]
    } else {
        let prev = tone_targets(convs, n - 1);
        let c = convs[n - 1];
        if c.2.len() >= 3 {
            prev.push((tone_label_of(c.0, c.1), c.2))
        } else {
            prev
        }
    }
}

pub open spec fn conv_views(v: Seq<(String, String, Vec<String>)>) -> Seq<(Seq<char>, Seq<char>, Seq<Seq<char>>)> {
    v.map_values(|c: (String, String, Vec<String>)| (c.0@, c.1@, string_views(c.2@)))
}

pub open spec fn target_views(v: Seq<(String, Vec<String>)>) -> Seq<(Seq<char>, Seq<Seq<char>>)> {
    v.map_values(|c: (String, Vec<String>)| (c.0@, string_views(c.1@)))
}

pub open spec fn no_tone_error() -> Seq<char> {
    "no hay conversaciones con suficientes mensajes propios todavía para describir el tono"@
}

/// The conversations to describe, given as `(id, title, the user's
/// messages)`; an error when none has enough messages.
pub fn tone_conversations(convs: &Vec<(String, String, Vec<String>)>) -> (r: Result<
    Vec<(String, Vec<String>)>,
    String,
>)
    requires
        forall|i: int|
            0 <= i < convs@.len() ==> (#[trigger] convs@[i]).2@.len() >= 3 && is_blank(convs@[i].1@)
                ==> label_cut_ok(convs@[i].0@),
    ensures
        match r {
            Ok(t) => target_views(t@) == tone_targets(conv_views(convs@), convs@.len() as int)
                && t@.len() > 0,
            Err(e) => tone_targets(conv_views(convs@), convs@.len() as int).len() == 0 && e@
                == no_tone_error(),
        },
{
    let ghost cv = conv_views(convs@);
    let mut out: Vec<(String, Vec<String>)> = Vec::new();
    let mut i: usize = 0;
    while i < convs.len()
        invariant
            i <= convs@.len(),
            cv == conv_views(convs@),
            forall|i: int|
                0 <= i < convs@.len() ==> (#[trigger] convs@[i]).2@.len() >= 3 && is_blank(convs@[i].1@)
                    ==> label_cut_ok(convs@[i].0@),
            target_views(out@) == tone_targets(cv, i as int),
        decreases convs.len() - i,
    {
        let c = &convs[i];
        assert(cv[i as int] == (c.0@, c.1@, string_views(c.2@)));
        if c.2.len() >= 3 {
            let label = tone_label(c.0.as_str(), c.1.as_str());
            let msgs = c.2.clone();
            let ghost before = target_views(out@);
            out.push((label, msgs));
            assert(target_views(out@) =~= before.push((label@, string_views(msgs@))));
        }
        i += 1;
    }
    if out.len() == 0 {
        return Err(
            "no hay conversaciones con suficientes mensajes propios todavía para describir el tono".to_owned(),
        );
    }
    Ok(out)
}

pub open spec fn tone_instructions_head() -> Seq<char> {
    "Estos son mensajes propios de una persona en una sola conversación ('"@
}

pub open spec fn tone_instructions_tail() -> Seq<char> {
    "'). Describí en una o dos frases el tono que usa en este contexto específico (ej. formal, cariñoso, directo, en broma, distante). Basate solo en lo que ves acá, no generalices a otros contextos. Respondé solo texto plano, sin JSON ni comillas.\n\nMensajes:\n"@
}

/// The prompt that asks for the tone of one conversation: its label and
/// its messages, one per line after a dash.
pub fn tone_prompt(label: &str, messages: &Vec<String>) -> (r: String)
    ensures
        r@ == tone_instructions_head() + label@ + tone_instructions_tail() + join(
            string_views(messages@).map_values(|t: Seq<char>| dash_item(t)),
            seq!['\n'],
        ),
{
    let ghost mapped = string_views(messages@).map_values(|t: Seq<char>| dash_item(t));
    let mut parts: Vec<Vec<char>> = Vec::new();
    let mut i: usize = 0;
    while i < messages.len()
        invariant
            i <= messages@.len(),
            mapped == string_views(messages@).map_values(|t: Seq<char>| dash_item(t)),
            views(parts@) == mapped.take(i as int),
        decreases messages.len() - i,
    {
        let mut s = "- ".to_owned();
        s.push_str(messages[i].as_str());
        push_view(&mut parts, &s);
        assert(mapped.take(i + 1) =~= mapped.take(i as int).push(mapped[i as int]));
        i += 1;
    }
    assert(mapped.take(messages@.len() as int) =~= mapped);
    let mut nl: Vec<char> = Vec::new();
    nl.push('\n');
    assert(nl@ =~= seq!['\n']);
    assert(parts@.map_values(|v: Vec<char>| v@) == views(parts@));
    let sample = string_of(&join_vec(&parts, &nl));
    let mut p = "Estos son mensajes propios de una persona en una sola conversación ('".to_owned();
    p.push_str(label);
    p.push_str(
        "'). Describí en una o dos frases el tono que usa en este contexto específico (ej. formal, cariñoso, directo, en broma, distante). Basate solo en lo que ves acá, no generalices a otros contextos. Respondé solo texto plano, sin JSON ni comillas.\n\nMensajes:\n",
    );
    p.push_str(sample.as_str());
    p
}

/// The model's description of a tone, trimmed and without surrounding
/// double quotes; `None` when nothing is left.
pub fn clean_tone(raw: &str) -> (r: Option<String>)
    ensures
        match r {
            Some(t) => t@ == trim_char(trim(raw@), '"') && t@.len() > 0,
            None => trim_char(trim(raw@), '"').len() == 0,
        },
{
    let t = trim_char_vec(&trim_vec(&chars_of(raw)), '"');
    if t.len() == 0 {
        None
    } else {
        Some(string_of(&t))
    }
}

// ---------------------------------------------------------------------------
// Evidence in the model's answers
// ---------------------------------------------------------------------------

/// The `evidence` of a finding as the model wrote it: a quote, several
/// quotes, nothing, or any other JSON value (kept as its JSON text).
pub enum Evidence {
    Text(String),
    List(Vec<Evidence>),
    Null,
    Other(String),
}

/// The evidence as one text: a quote as is, the non-empty texts of a list
/// joined by `"; "`, nothing as empty text, any other value as its JSON.
pub open spec fn evidence_text(v: Evidence) -> Seq<char>
    decreases v,
{
    match v {
        Evidence::Text(s) => s@,
        Evidence::List(items) => join(list_texts(items@, items@.len() as int, v), seq![';', ' ']),
        Evidence::Null => seq![],
        Evidence::Other(s) => s@,
    }
}

/// The non-empty texts of the first `n` items of a list (`parent` is the
/// list itself, which the items decrease from).
pub open spec fn list_texts(items: Seq<Evidence>, n: int, parent: Evidence) -> Seq<Seq<char>>
    decreases parent, n,
{
    if n <= 0 || n > items.len() || !(parent matches Evidence::List(v) && v@ == items) {
        seq![]
    } else {
        let prev = list_texts(items, n - 1, parent);
        proof {
            if let Evidence::List(v) = parent {
                assert(decreases_to!(parent => v));
                assert(decreases_to!(v => v@));
                assert(decreases_to!(v@ => v@[n - 1]));
            }
        }
        let t = evidence_text(items[n - 1]);
        if t.len() > 0 {
            prev.push(t)
        } else {
            prev
        }
    }
}

/// Models give the evidence as one quote or as several; both are accepted,
/// as one text (see `evidence_text`).
pub fn value_to_text(v: &Evidence) -> (r: String)
    ensures
        r@ == evidence_text(*v),
    decreases v,
{
    match v {
        Evidence::Text(s) => s.clone(),
        Evidence::Null => String::new(),
        Evidence::Other(s) => s.clone(),
        Evidence::List(items) => {
            let mut parts: Vec<Vec<char>> = Vec::new();
            let mut i: usize = 0;
            while i < items.len()
                invariant
                    i <= items@.len(),
                    *v == Evidence::List(*items),
                    views(parts@) == list_texts(items@, i as int, *v),
                decreases items.len() - i,
            {
                proof {
                    assert(decreases_to!(*v => *items));
                    assert(decreases_to!(*items => items@));
                    assert(decreases_to!(items@ => items@[i as int]));
                }
                let t = value_to_text(&items[i]);
                let tv = chars_of(t.as_str());
                if tv.len() > 0 {
                    let ghost before = views(parts@);
                    parts.push(tv);
                    assert(views(parts@) =~= before.push(t@));
                }
                i += 1;
            }
            let mut sep: Vec<char> = Vec::new();
            sep.push(';');
            sep.push(' ');
            assert(sep@ =~= seq![';', ' ']);
            assert(parts@.map_values(|x: Vec<char>| x@) == views(parts@));
            string_of(&join_vec(&parts, &sep))
        },
    }
}

// ---------------------------------------------------------------------------
// The JSON array in a reply
// ---------------------------------------------------------------------------

pub open spec fn no_array_error() -> Seq<char> {
    "el modelo no devolvió un array JSON reconocible"@
}

/// Models often wrap the JSON they were asked for in prose or in a code
/// block: the array is taken from the first `'['` to the last `']'`.
pub fn json_array_span<'a>(raw: &'a str) -> (r: Result<&'a str, String>)
    ensures
        match r {
            Ok(j) => find(raw@, seq!['[']) matches Some(s) && rfind_char(raw@, ']') matches Some(e) && e
                >= s && j@ == raw@.subrange(s, e + 1),
            Err(msg) => !(find(raw@, seq!['[']) matches Some(s) && rfind_char(raw@, ']') matches Some(e)
                && e >= s) && msg@ == no_array_error(),
        },
{
    let v = chars_of(raw);
    proof {
        crate::text::lemma_find_bound(v@, seq!['[']);
    }
    let start = crate::text::find_char(&v, '[');
    let end = crate::text::rfind_char_vec(&v, ']');
    match (start, end) {
        (Some(s), Some(e)) => if e >= s {
            let n = v.len();
            assert(e < n);
            let j = raw.substring_char(s, e + 1);
            Ok(j)
        } else {
            Err("el modelo no devolvió un array JSON reconocible".to_owned())
        },
        _ => Err("el modelo no devolvió un array JSON reconocible".to_owned()),
    }
}

} // verus!
