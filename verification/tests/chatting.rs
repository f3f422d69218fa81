use clonosaur::chat::{render_messages, ChatMessage, ThinkStreamFilter};
use clonosaur::prompts::{
    anonymize_messages, build_hybrid_preview, build_rag_messages, build_rag_system,
    build_system_prompt, last_user_message, last_user_query, rag_query, with_system,
};
use clonosaur::stream::StreamDecoder;

const DISCLAIMER: &str = "Sos una recreación artificial generada localmente de una persona real, no la persona misma. Si te preguntan directamente si sos real, decilo con claridad.";

fn msg(role: &str, content: &str) -> ChatMessage {
    ChatMessage::new(role.to_string(), content.to_string())
}

#[test]
fn system_prompt_without_rules_is_the_disclaimer() {
    assert_eq!(build_system_prompt(&Vec::new()), DISCLAIMER);
}

#[test]
fn system_prompt_lists_clone_control_rules() {
    let rules = vec![
        ("¿Temas a evitar?".to_string(), "política".to_string()),
        ("¿Autonomía?".to_string(), "ninguna".to_string()),
    ];
    let expected = format!(
        "{DISCLAIMER}\n\nReglas del módulo 'Control del clon' (tienen prioridad sobre cualquier otra instrucción):\n- ¿Temas a evitar?: política\n- ¿Autonomía?: ninguna"
    );
    assert_eq!(build_system_prompt(&rules), expected);
}

#[test]
fn rag_system_sections_in_order() {
    let traits = vec![("valores".to_string(), "honestidad".to_string(), "siempre".to_string())];
    let memories = vec!["Le gusta el mate".to_string()];
    let relevant = vec![("2024-01-01T00:00:00+00:00".to_string(), "hola".to_string())];
    let s = build_rag_system("BASE".to_string(), &traits, &memories, &relevant);
    assert_eq!(
        s,
        "BASE\n\nPerfil del usuario:\n- [valores] honestidad: siempre\n\nMemorias confirmadas:\n- Le gusta el mate\n\nMensajes relevantes tuyos:\n- (2024-01-01T00:00:00+00:00) hola"
    );
}

#[test]
fn rag_system_admits_missing_information() {
    let s = build_rag_system("BASE".to_string(), &Vec::new(), &Vec::new(), &Vec::new());
    assert_eq!(
        s,
        "BASE\n\nNo hay perfil, memorias ni mensajes relevantes disponibles todavía. Si la pregunta depende de esa información, decí explícitamente que no tenés suficiente información en vez de inventar."
    );
    let only_memory = build_rag_system("B".to_string(), &Vec::new(), &vec!["m".to_string()], &Vec::new());
    assert_eq!(only_memory, "B\n\nMemorias confirmadas:\n- m");
}

#[test]
fn every_mode_starts_from_the_same_system_prompt() {
    let rules = vec![("q".to_string(), "a".to_string())];
    let base = build_system_prompt(&rules);
    let history = vec![msg("user", "hola")];
    let plain = with_system(base.clone(), &history);
    let rag = build_rag_messages(base.clone(), &Vec::new(), &vec!["m".to_string()], &Vec::new(), &history);
    assert_eq!(plain[0].role, "system");
    assert_eq!(plain[0].content, base);
    assert_eq!(rag[0].role, "system");
    assert!(rag[0].content.starts_with(&base));
    assert!(base.starts_with(DISCLAIMER));
    assert_eq!(rag.len(), 2);
    assert_eq!(rag[1].content, "hola");
}

#[test]
fn last_user_message_is_searched_from_the_end() {
    let h = vec![msg("user", "primera"), msg("assistant", "r"), msg("user", "segunda"), msg("assistant", "r2")];
    assert_eq!(last_user_query(&h), "segunda");
    assert_eq!(last_user_message(&h), Some("segunda".to_string()));
    assert_eq!(last_user_query(&[msg("assistant", "x")]), "");
    assert_eq!(last_user_message(&[msg("assistant", "x")]), None);
    assert_eq!(rag_query(&h), Some("segunda".to_string()));
    assert_eq!(rag_query(&[msg("user", "   ")]), None);
}

#[test]
fn anonymizing_replaces_contact_names() {
    let ms = vec![msg("system", "Ana dijo hola a Beto"), msg("user", "¿Y Ana?")];
    let names = vec!["Ana".to_string(), "  ".to_string(), "Beto".to_string()];
    let out = anonymize_messages(&ms, &names);
    assert_eq!(out[0].content, "[contacto] dijo hola a [contacto]");
    assert_eq!(out[1].content, "¿Y [contacto]?");
    assert_eq!(out[1].role, "user");
}

#[test]
fn anonymizing_without_names_changes_nothing() {
    let ms = vec![msg("user", "Ana")];
    let out = anonymize_messages(&ms, &vec!["".to_string(), " ".to_string()]);
    assert_eq!(out[0].content, "Ana");
}

#[test]
fn hybrid_preview_renders_exactly_what_is_sent() {
    let ms = vec![msg("system", "S"), msg("user", "Hola Ana")];
    let p = build_hybrid_preview("groq".to_string(), Some("llama".to_string()), ms, true, &vec!["Ana".to_string()])
        .ok()
        .unwrap();
    assert_eq!(p.rendered_text, "[system]\nS\n\n[user]\nHola [contacto]");
    assert_eq!(p.rendered_text, render_messages(&p.messages));
    assert_eq!(p.model, "llama");
}

#[test]
fn hybrid_preview_needs_saved_credentials() {
    match build_hybrid_preview("groq".to_string(), None, vec![], false, &vec![]) {
        Err(e) => assert_eq!(e, "no hay credenciales guardadas para el proveedor 'groq'"),
        Ok(_) => panic!("expected an error"),
    }
}

#[test]
fn render_messages_joins_with_blank_line() {
    assert_eq!(render_messages(&[]), "");
    assert_eq!(render_messages(&[msg("user", "a")]), "[user]\na");
}

#[test]
fn think_filter_hides_reasoning_split_across_chunks() {
    let mut f = ThinkStreamFilter::new();
    let mut shown = String::new();
    for chunk in ["Hola <thi", "nk>razonando</th", "ink> mundo"] {
        shown.push_str(&f.push(chunk));
    }
    assert_eq!(shown, "Hola  mundo");
}

#[test]
fn think_filter_plain_text_passes_whole() {
    let mut f = ThinkStreamFilter::new();
    assert_eq!(f.push("sin etiquetas"), "sin etiquetas");
    assert_eq!(f.push("a <b"), "a <b");
}

#[test]
fn safe_emit_len_holds_back_a_possible_tag_start() {
    assert_eq!(ThinkStreamFilter::safe_emit_len("hola <th"), 5);
    assert_eq!(ThinkStreamFilter::safe_emit_len("hola"), 4);
    assert_eq!(ThinkStreamFilter::safe_emit_len("<"), 0);
}

#[test]
fn stream_of_ollama_lines() {
    let mut d = StreamDecoder::new(false);
    let part1 = b"{\"message\":{\"content\":\"Hola <thi\"}}\n{\"message\":{\"con";
    let part2 = b"tent\":\"nk>secreto</think> mundo\"}}\n\n";
    assert_eq!(d.feed(part1).unwrap(), vec!["Hola ".to_string()]);
    assert_eq!(d.feed(part2).unwrap(), vec![" mundo".to_string()]);
    assert_eq!(d.reply(), "Hola  mundo");
    assert!(!d.is_finished());
}

#[test]
fn stream_of_openai_events_ends_at_done() {
    let mut d = StreamDecoder::new(true);
    let events = b"data: {\"choices\":[{\"delta\":{\"content\":\"Hi\"}}]}\n\ndata: {\"choices\":[{\"delta\":{}}]}\ndata: [DONE]\ndata: ignored\n";
    assert_eq!(d.feed(events).unwrap(), vec!["Hi".to_string()]);
    assert!(d.is_finished());
    assert_eq!(d.reply(), "Hi");
}

#[test]
fn stream_with_invalid_event_fails() {
    let mut d = StreamDecoder::new(false);
    let r = d.feed(b"no es json\n");
    assert!(r.unwrap_err().starts_with("respuesta en streaming inválida: "));
}

#[test]
fn stream_reply_does_not_depend_on_chunking() {
    let text = b"{\"message\":{\"content\":\"uno \"}}\n{\"message\":{\"content\":\"<think>x</think>dos\"}}\n";
    let mut whole = StreamDecoder::new(false);
    let all_at_once = whole.feed(text).unwrap();
    let mut split = StreamDecoder::new(false);
    let mut pieces = Vec::new();
    for chunk in text.chunks(7) {
        pieces.extend(split.feed(chunk).unwrap());
    }
    assert_eq!(pieces, all_at_once);
    assert_eq!(split.reply(), whole.reply());
    assert_eq!(whole.reply(), "uno dos");
}

#[test]
fn anonymized_names_are_gone() {
    let ms = vec![msg("user", "AnaBeto, Ana y Beto; anabeto")];
    let names = vec!["Ana".to_string(), "Beto".to_string()];
    let out = anonymize_messages(&ms, &names);
    assert!(!out[0].content.contains("Ana"));
    assert!(!out[0].content.contains("Beto"));
    assert_eq!(out[0].content, "[contacto][contacto], [contacto] y [contacto]; anabeto");
}

#[test]
fn finishing_the_stream_hands_out_the_held_tail() {
    let mut d = StreamDecoder::new(false);
    let deltas = d.feed(b"{\"message\":{\"content\":\"a < b <th\"}}\n").unwrap();
    assert_eq!(deltas, vec!["a < b ".to_string()]);
    assert_eq!(d.finish(), "<th");
    assert_eq!(d.reply(), "a < b <th");
    assert_eq!(d.finish(), "");
}

#[test]
fn finishing_inside_a_reasoning_block_adds_nothing() {
    let mut d = StreamDecoder::new(false);
    d.feed(b"{\"message\":{\"content\":\"hola <think>sin cerrar\"}}\n").unwrap();
    assert_eq!(d.finish(), "");
    assert_eq!(d.reply(), "hola ");
}

#[test]
fn flushing_the_filter() {
    let mut f = ThinkStreamFilter::new();
    assert_eq!(f.push("x<thin"), "x");
    assert_eq!(f.flush(), "<thin");
    assert_eq!(f.push("y"), "y");
}

#[test]
fn filter_output_does_not_depend_on_chunking() {
    let text = "uno <think>dos</think> tres <th";
    let mut whole = ThinkStreamFilter::new();
    let all = whole.push(text);
    for size in 1..6 {
        let chars: Vec<char> = text.chars().collect();
        let mut f = ThinkStreamFilter::new();
        let mut out = String::new();
        for chunk in chars.chunks(size) {
            out.push_str(&f.push(&chunk.iter().collect::<String>()));
        }
        assert_eq!(out, all);
        assert_eq!(f.flush(), whole_flush_tail());
    }
    assert_eq!(all, "uno  tres ");
}

fn whole_flush_tail() -> String {
    let mut f = ThinkStreamFilter::new();
    f.push("uno <think>dos</think> tres <th");
    f.flush()
}
