use clonosaur::engine::{
    api_style, chat_url, embeddings_url, first_choice, provider_credentials_error, provider_reply,
    provider_status_error, provider_unexpected, provider_unreachable, provider_url, speaker_for,
    status_error, unexpected_reply, unreachable_error, ApiStyle, ReplyKind, Speaker,
};
use clonosaur::generators::{
    build_context, candidate_evidence, candidates_prompt, cited_message, clean_tone,
    contradiction_evidence, contradictions_prompt, decisions_prompt, json_array_span,
    keep_trait_finding, tone_conversations, tone_label, tone_prompt, value_to_text, values_prompt,
    Evidence,
};

fn s(x: &str) -> String {
    x.to_string()
}

#[test]
fn candidate_messages_are_numbered_from_zero() {
    let texts: Vec<String> = (0..12).map(|i| format!("m{i}")).collect();
    let block = candidate_evidence(&texts);
    assert!(block.starts_with("[0] m0\n[1] m1\n"));
    assert!(block.ends_with("\n[10] m10\n[11] m11"));
    assert_eq!(candidate_evidence(&vec![]), "");
}

#[test]
fn contradiction_memories_carry_their_dates() {
    let mems = vec![(s("antes"), s("2020")), (s("después"), s("2024"))];
    assert_eq!(contradiction_evidence(&mems), "[0] (2020) antes\n[1] (2024) después");
}

#[test]
fn cited_message_by_index() {
    let ids = vec![s("a"), s("b")];
    assert_eq!(cited_message(Some(1), &ids), Some(s("b")));
    assert_eq!(cited_message(Some(2), &ids), None);
    assert_eq!(cited_message(None, &ids), None);
}

#[test]
fn context_groups_only_when_present() {
    let answers = vec![(s("¿Qué valorás?"), s("la honestidad"))];
    let ctx = build_context("Entrevista (módulo Identidad):", &answers, &vec![s("mem")], &vec![]);
    assert_eq!(
        ctx,
        "Entrevista (módulo Identidad):\nP: ¿Qué valorás?\nR: la honestidad\n\nMemorias confirmadas:\n- mem"
    );
    let only_messages = build_context("H", &vec![], &vec![], &vec![s("hola")]);
    assert_eq!(only_messages, "\nMensajes propios (muestra):\n- hola");
    assert_eq!(build_context("H", &vec![], &vec![], &vec![]), "");
}

#[test]
fn prompts_end_with_their_evidence() {
    assert!(candidates_prompt("[0] x").ends_with("\n\nMensajes:\n[0] x"));
    assert!(candidates_prompt("[0] x").starts_with("Analizá los siguientes mensajes"));
    assert!(contradictions_prompt("[0] (d) x").ends_with("\n\nMemorias:\n[0] (d) x"));
    assert!(values_prompt("ctx").unwrap().ends_with("\n\nContexto:\nctx"));
    assert!(decisions_prompt("ctx").unwrap().contains("patrones de toma de decisiones"));
}

#[test]
fn generators_refuse_a_blank_context() {
    assert_eq!(
        values_prompt("  \n").err(),
        Some(s("no hay suficiente entrevista, memorias o mensajes propios todavía para generar valores"))
    );
    assert_eq!(
        decisions_prompt("").err(),
        Some(s("no hay suficiente entrevista, memorias o mensajes propios todavía para generar patrones de decisión"))
    );
}

#[test]
fn trait_findings_need_name_and_value() {
    assert!(keep_trait_finding("honestidad", "siempre"));
    assert!(!keep_trait_finding(" ", "siempre"));
    assert!(!keep_trait_finding("honestidad", ""));
}

#[test]
fn tone_labels_and_conversations() {
    assert_eq!(tone_label("0123456789ab", "  "), "Conversación 01234567");
    assert_eq!(tone_label("abc", ""), "Conversación abc");
    assert_eq!(tone_label("abc", "Familia"), "Familia");
    let convs = vec![
        (s("c1"), s("Pocos"), vec![s("a"), s("b")]),
        (s("c2"), s(""), vec![s("a"), s("b"), s("c")]),
    ];
    let t = tone_conversations(&convs).unwrap();
    assert_eq!(t.len(), 1);
    assert_eq!(t[0].0, "Conversación c2");
    assert_eq!(
        tone_conversations(&vec![(s("c1"), s("x"), vec![])]).err(),
        Some(s("no hay conversaciones con suficientes mensajes propios todavía para describir el tono"))
    );
}

#[test]
fn tone_prompt_and_cleaning() {
    let p = tone_prompt("Familia", &vec![s("hola"), s("chau")]);
    assert!(p.starts_with("Estos son mensajes propios de una persona en una sola conversación ('Familia')."));
    assert!(p.ends_with("\n\nMensajes:\n- hola\n- chau"));
    assert_eq!(clean_tone("  \"cariñoso y directo\"  "), Some(s("cariñoso y directo")));
    assert_eq!(clean_tone(" \"\" "), None);
}

#[test]
fn evidence_as_text() {
    let v = Evidence::List(vec![
        Evidence::Text(s("uno")),
        Evidence::Null,
        Evidence::Text(s("")),
        Evidence::List(vec![Evidence::Text(s("dos")), Evidence::Other(s("3"))]),
    ]);
    assert_eq!(value_to_text(&v), "uno; dos; 3");
    assert_eq!(value_to_text(&Evidence::Null), "");
    assert_eq!(value_to_text(&Evidence::Other(s("{\"a\":1}"))), "{\"a\":1}");
}

#[test]
fn json_array_in_prose() {
    assert_eq!(json_array_span("Claro:\n```json\n[{\"a\":1}]\n```").unwrap(), "[{\"a\":1}]");
    assert_eq!(json_array_span("] antes [").err(), Some(s("el modelo no devolvió un array JSON reconocible")));
    assert_eq!(json_array_span("nada").err(), Some(s("el modelo no devolvió un array JSON reconocible")));
}

#[test]
fn local_engine_endpoints() {
    assert!(matches!(api_style("openai"), ApiStyle::OpenAi));
    assert!(matches!(api_style("ollama"), ApiStyle::Ollama));
    assert!(matches!(api_style("otro"), ApiStyle::Ollama));
    assert_eq!(chat_url("http://h:1", &ApiStyle::Ollama), "http://h:1/api/chat");
    assert_eq!(chat_url("http://h:1/v1", &ApiStyle::OpenAi), "http://h:1/v1/chat/completions");
    assert_eq!(embeddings_url("http://h", &ApiStyle::Ollama), "http://h/api/embeddings");
    assert_eq!(embeddings_url("http://h", &ApiStyle::OpenAi), "http://h/embeddings");
}

#[test]
fn local_engine_errors() {
    let who = speaker_for(&ApiStyle::Ollama);
    assert_eq!(unreachable_error(&who, "http://h", "refused"), "no se pudo contactar a Ollama en http://h: refused");
    assert_eq!(
        unreachable_error(&Speaker::LocalEngine, "http://h", "refused"),
        "no se pudo contactar al motor local en http://h: refused"
    );
    assert_eq!(status_error(&Speaker::Ollama, "500", "x"), "Ollama respondió 500: x");
    assert_eq!(status_error(&Speaker::LocalEngine, "404", ""), "El motor local respondió 404: ");
    assert_eq!(unexpected_reply(&ReplyKind::Chat, &Speaker::Ollama, "e"), "respuesta de chat de Ollama inesperada: e");
    assert_eq!(
        unexpected_reply(&ReplyKind::Embeddings, &Speaker::LocalEngine, "e"),
        "respuesta de embeddings inesperada: e"
    );
    assert_eq!(first_choice(vec![s("a"), s("b")]), Ok(s("a")));
    assert_eq!(first_choice(vec![]), Err(s("el motor local no devolvió ninguna respuesta")));
}

#[test]
fn external_provider_messages() {
    assert_eq!(provider_url("https://api.groq.com/openai/v1"), "https://api.groq.com/openai/v1/chat/completions");
    assert_eq!(provider_credentials_error("groq"), "no hay credenciales guardadas para 'groq'");
    assert_eq!(provider_unreachable("u", "e"), "no se pudo contactar a u: e");
    assert_eq!(provider_status_error("groq", "401", "no"), "groq respondió 401: no");
    assert_eq!(provider_unexpected("groq", "e"), "respuesta de groq inesperada: e");
    assert_eq!(provider_reply(vec![]), "");
    assert_eq!(provider_reply(vec![s("r")]), "r");
}

#[test]
fn generator_requests_need_something_to_show() {
    use_requests();
}

fn use_requests() {
    assert_eq!(clonosaur::generators::candidates_request(&vec![]), None);
    let p = clonosaur::generators::candidates_request(&vec![s("hola")]).unwrap();
    assert!(p.ends_with("\n\nMensajes:\n[0] hola"));
    assert_eq!(clonosaur::generators::contradictions_request(&vec![(s("a"), s("d"))]), None);
    let q = clonosaur::generators::contradictions_request(&vec![(s("a"), s("d1")), (s("b"), s("d2"))]).unwrap();
    assert!(q.ends_with("\n\nMemorias:\n[0] (d1) a\n[1] (d2) b"));
    assert!(clonosaur::generators::keep_content_finding("x"));
    assert!(!clonosaur::generators::keep_content_finding("  "));
}
