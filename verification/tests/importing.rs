use clonosaur::import_common::{
    chat_fingerprint, distinct_in_order, normalize_timestamp, normalize_timestamp_or, ImportSummary,
};
use clonosaur::importers::{
    file_thread_key, find_column, has_extension, parse_csv, parse_twitter_timestamp, plan_discord,
    plan_generic, plan_reddit, plan_twitter, plan_whatsapp, text_records, tweets_json, GenericRecord,
};
use clonosaur::records::{
    check_draft_contact, chronological, default_base_url, evidence_metadata, row_to_memory,
    settings_with_defaults, ChatTurn, Draft, ProviderInfo,
};

fn s(x: &str) -> String {
    x.to_string()
}

#[test]
fn summary_counts_inserted_and_duplicates() {
    let sum = ImportSummary::from_outcomes(s("src"), &vec![true, false, true], vec![s("Ana")]);
    assert_eq!(sum.imported, 2);
    assert_eq!(sum.duplicates, 1);
    assert_eq!(sum.participants, vec![s("Ana")]);
}

#[test]
fn participants_in_order_of_first_appearance() {
    let names = vec![s("Beto"), s("Ana"), s("Beto"), s("Carla"), s("Ana")];
    assert_eq!(distinct_in_order(&names), vec![s("Beto"), s("Ana"), s("Carla")]);
}

#[test]
fn fingerprint_ignores_the_order_of_participants() {
    let a = chat_fingerprint(&vec![s("Bob"), s("alice")]);
    let b = chat_fingerprint(&vec![s("alice"), s("Bob")]);
    assert_eq!(a, "bob|alice");
    assert_eq!(a, b);
}

#[test]
fn timestamps_in_export_layouts() {
    assert_eq!(normalize_timestamp(" 2024-01-02T03:04:05Z "), "2024-01-02T03:04:05+00:00");
    assert_eq!(normalize_timestamp("01/02/2024 03:04 PM"), "2024-01-02T15:04:00+00:00");
    assert_eq!(normalize_timestamp("2024-01-02 03:04:05 UTC"), "2024-01-02T03:04:05+00:00");
    assert_eq!(normalize_timestamp("2024-01-02 03:04:05"), "2024-01-02T03:04:05+00:00");
    // An unreadable date falls back to the current time, still RFC 3339.
    assert!(normalize_timestamp("ayer").contains('T'));
}

#[test]
fn extensions_and_thread_keys() {
    assert!(has_extension("Chat.ZIP", ".zip"));
    assert!(!has_extension("chat.txt", ".zip"));
    assert_eq!(file_thread_key("Mensajes.CSV"), "mensajes.csv");
}

#[test]
fn columns_found_exactly_or_ignoring_ascii_case() {
    let hs = vec![s("ID"), s("timestamp"), s("Contents")];
    assert_eq!(find_column(&hs, "Timestamp", true), Some(1));
    assert_eq!(find_column(&hs, "Timestamp", false), None);
    assert_eq!(find_column(&hs, "contents", true), Some(2));
}

#[test]
fn discord_rows() {
    let csv = "ID,Timestamp,Contents\n1,2024-01-02 03:04:05 UTC,  hola  \n2,2024-01-02 03:04:05 UTC,   \n";
    let imp = plan_discord(csv).unwrap();
    assert_eq!(imp.messages.len(), 1);
    assert_eq!(imp.messages[0].text, "hola");
    assert!(imp.messages[0].is_user);
    assert_eq!(imp.messages[0].author, None);
    assert_eq!(imp.messages[0].timestamp, "2024-01-02T03:04:05+00:00");
    assert!(imp.error.is_none());
}

#[test]
fn discord_needs_its_columns() {
    assert_eq!(plan_discord("Contents\nx\n").err(), Some(s("el CSV necesita una columna 'Timestamp' o 'Date'")));
    assert_eq!(plan_discord("date\nx\n").err(), Some(s("el CSV necesita una columna 'Contents' o 'Content'")));
}

#[test]
fn discord_stops_at_an_unreadable_record() {
    let imp = plan_discord("Date,Content\n2024-01-02 03:04:05,a\n1,2,3\n2024-01-02 03:04:05,b\n").unwrap();
    assert_eq!(imp.messages.len(), 1);
    assert!(imp.error.is_some());
}

#[test]
fn reddit_title_and_body() {
    let csv = "id,date,title,body\n1,2024-01-02 03:04:05 UTC,Título,Cuerpo\n2,2024-01-02 03:04:05 UTC,Solo título,\n3,2024-01-02 03:04:05 UTC,,\n";
    let imp = plan_reddit(csv).unwrap();
    let texts: Vec<String> = imp.messages.iter().map(|m| m.text.clone()).collect();
    assert_eq!(texts, vec![s("Título\n\nCuerpo"), s("Solo título")]);
}

#[test]
fn reddit_errors() {
    assert_eq!(plan_reddit("title\nx\n").err(), Some(s("el CSV necesita una columna 'date'")));
    assert_eq!(
        plan_reddit("date,score\nx,1\n").err(),
        Some(s("el CSV no tiene columnas 'title' ni 'body' reconocibles (comments.csv o posts.csv de Reddit)"))
    );
}

#[test]
fn generic_csv_records() {
    let recs = parse_csv("text,timestamp,author,is_user\n hola ,,Ana,1\nchau,2024,,false\n   ,,,\n").unwrap();
    assert_eq!(recs.len(), 2);
    assert_eq!(recs[0].text, "hola");
    assert_eq!(recs[0].timestamp, None);
    assert_eq!(recs[0].author, Some(s("Ana")));
    assert_eq!(recs[0].is_user, Some(true));
    assert_eq!(recs[1].timestamp, Some(s("2024")));
    assert_eq!(recs[1].is_user, Some(false));
    assert_eq!(parse_csv("mensaje\nx\n").err(), Some(s("el CSV necesita una columna 'text'")));
    assert!(parse_csv("text\nx\ny,z\n").is_err());
}

#[test]
fn generic_text_lines() {
    let recs = text_records("uno\n\n  dos  \r\n");
    assert_eq!(recs.len(), 2);
    assert_eq!(recs[1].text, "dos");
    assert_eq!(recs[1].is_user, Some(true));
}

#[test]
fn generic_plan_authors_and_defaults() {
    let recs = vec![
        GenericRecord { text: s("a"), timestamp: Some(s("t1")), author: Some(s("Ana")), is_user: None },
        GenericRecord { text: s("b"), timestamp: None, author: None, is_user: None },
        GenericRecord { text: s("c"), timestamp: Some(s("t3")), author: Some(s("Ana")), is_user: Some(true) },
    ];
    let p = plan_generic(recs).ok().unwrap();
    assert!(!p.messages[0].is_user);
    assert!(p.messages[1].is_user);
    assert!(p.messages[2].is_user);
    assert_eq!(p.messages[0].timestamp, "t1");
    assert_eq!(p.participants, vec![s("Ana")]);
    assert_eq!(plan_generic(vec![]).err(), Some(s("no se encontraron mensajes en el archivo")));
}

#[test]
fn twitter_archive() {
    assert_eq!(tweets_json("window.YTD.tweet.part0 = [1]").unwrap(), "[1]");
    assert_eq!(tweets_json("nada").err(), Some(s("no se encontró el array de tweets en el archivo")));
    assert_eq!(
        parse_twitter_timestamp("Wed Oct 10 20:19:24 +0000 2018"),
        Some(s("2018-10-10T20:19:24+00:00"))
    );
    assert_eq!(parse_twitter_timestamp("ayer"), None);
    let tweets = vec![(s("Wed Oct 10 20:19:24 +0000 2018"), s("  hola  ")), (s("x"), s("   "))];
    let ms = plan_twitter(&tweets).unwrap();
    assert_eq!(ms.len(), 1);
    assert_eq!(ms[0].text, "hola");
    assert_eq!(ms[0].timestamp, "2018-10-10T20:19:24+00:00");
    assert_eq!(plan_twitter(&vec![]).err(), Some(s("no se encontraron tweets en el archivo")));
}

#[test]
fn whatsapp_plan() {
    let content = "12/01/23, 10:15 - Beto: hola\n12/01/23, 10:16 - Ana: chau\n12/01/23, 10:17 - Beto: otra\n";
    let p = plan_whatsapp(content).ok().unwrap();
    assert_eq!(p.messages.len(), 3);
    assert_eq!(p.participants, vec![s("Beto"), s("Ana")]);
    assert_eq!(p.external_id, "ana|beto");
    assert_eq!(
        plan_whatsapp("nada reconocible").err(),
        Some(s("no se reconoció ningún mensaje en el archivo (formato de WhatsApp no soportado)"))
    );
}

#[test]
fn memory_evidence_read_back_from_metadata() {
    let meta = evidence_metadata("\"dijo\" que sí");
    assert_eq!(meta, "{\"evidence\":\"\\\"dijo\\\" que sí\"}");
    let m = row_to_memory(s("1"), s("preferencias"), s("candidate"), s("c"), Some(meta), s("t"));
    assert_eq!(m.evidence, Some(s("\"dijo\" que sí")));
    let none = row_to_memory(s("1"), s("l"), s("s"), s("c"), Some(s("no json")), s("t"));
    assert_eq!(none.evidence, None);
    assert_eq!(row_to_memory(s("1"), s("l"), s("s"), s("c"), None, s("t")).evidence, None);
}

#[test]
fn drafts_start_pending_and_excluded_contacts_are_refused() {
    let d = Draft::pending(s("id"), Some(s("Ana")), s("hola"), s("t"));
    assert_eq!(d.status, "pending");
    assert!(check_draft_contact(false).is_ok());
    assert_eq!(
        check_draft_contact(true).err(),
        Some(s("este contacto está marcado como excluido de la memoria del clon; no se genera ningún borrador para él"))
    );
}

#[test]
fn providers_never_reveal_their_key() {
    let p = ProviderInfo::from_credentials(s("groq"), s("u"), s("m"), "secret");
    assert!(p.has_api_key);
    assert!(!ProviderInfo::from_credentials(s("groq"), s("u"), s("m"), "").has_api_key);
    assert_eq!(default_base_url(s("groq")), "https://api.groq.com/openai/v1");
    assert_eq!(default_base_url(s("openai")), "https://api.openai.com/v1");
    assert_eq!(default_base_url(s("otro")), "");
}

#[test]
fn chat_turns_back_in_chronological_order() {
    let t = |id: &str| ChatTurn { id: s(id), role: s("user"), content: s(""), created_at: s("") };
    let out = chronological(vec![t("3"), t("2"), t("1")]);
    let ids: Vec<String> = out.iter().map(|x| x.id.clone()).collect();
    assert_eq!(ids, vec![s("1"), s("2"), s("3")]);
}

#[test]
fn settings_defaults_fill_missing_keys_only() {
    let out = settings_with_defaults(vec![(s("theme"), s("dark")), (s("chat_model"), s("x"))]);
    let map: std::collections::HashMap<String, String> = out.into_iter().collect();
    assert_eq!(map["theme"], "dark");
    assert_eq!(map["chat_model"], "x");
    assert_eq!(map["ollama_base_url"], "http://localhost:11434");
    assert_eq!(map["embedding_model"], "nomic-embed-text");
    assert_eq!(map["local_api_style"], "ollama");
    assert_eq!(map["onboarding_completed"], "false");
    assert_eq!(map.len(), 6);
}

#[test]
fn timestamps_fall_back_to_the_given_value() {
    assert_eq!(normalize_timestamp_or("ayer", "FALLBACK"), "FALLBACK");
    assert_eq!(normalize_timestamp_or("2024-01-02 03:04:05 UTC", "x"), "2024-01-02T03:04:05+00:00");
}
