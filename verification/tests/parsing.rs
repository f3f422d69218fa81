use clonosaur::gmail::{
    extract_plain_text, get_boundary, get_header, parse_from_header, parse_gmail_date, parse_headers,
    plan_mail_block, plan_mailbox, split_headers_body, split_mbox_messages, try_extract_plain_text,
    try_get_boundary, try_parse_from_header, MailBlock,
};
use clonosaur::mime::{decode_body, decode_encoded_words, decode_q_encoding, strip_html_tags};
use clonosaur::sensitivity::classify;
use clonosaur::whatsapp::{
    parse_header_datetime, parse_whatsapp_text, split_android_header, split_ios_header,
};

#[test]
fn mbox_splits_before_each_from_line_but_the_first() {
    let content = "From a@x Mon\nSubject: uno\n\nhola\nFrom b@x Tue\nSubject: dos\n\nchau\n";
    let blocks = split_mbox_messages(content);
    assert_eq!(blocks, vec!["From a@x Mon\nSubject: uno\n\nhola\n", "From b@x Tue\nSubject: dos\n\nchau\n"]);
}

#[test]
fn mbox_drops_blank_blocks_and_keeps_escaped_from() {
    let content = "\n\nFrom a@x\n\n>From me\nFrom b@x\nbody\n";
    let blocks = split_mbox_messages(content);
    assert_eq!(blocks, vec!["From a@x\n\n>From me\n", "From b@x\nbody\n"]);
    assert!(split_mbox_messages("").is_empty());
    assert!(split_mbox_messages("  \n \n").is_empty());
}

#[test]
fn mbox_pieces_put_back_together_give_the_file() {
    let content = "From a\nx\nFrom b\ny\nFrom c\nz";
    let blocks = split_mbox_messages(content);
    assert_eq!(blocks.concat(), content);
}

#[test]
fn headers_and_body_split_at_first_blank_line() {
    assert_eq!(split_headers_body("A: 1\r\n\r\nbody\n\nmore"), ("A: 1", "body\n\nmore"));
    assert_eq!(split_headers_body("A: 1\n\nbody"), ("A: 1", "body"));
    assert_eq!(split_headers_body("A: 1\nB: 2"), ("A: 1\nB: 2", ""));
}

#[test]
fn headers_are_lowercased_trimmed_and_folded() {
    let hs = parse_headers("Subject: Hola\n  mundo\nFrom:  Ana <ana@x.com> \nno header line\n\tcontinued");
    assert_eq!(
        hs,
        vec![
            ("subject".to_string(), "Hola mundo".to_string()),
            ("from".to_string(), "Ana <ana@x.com> continued".to_string()),
        ]
    );
    assert_eq!(get_header(&hs, "from"), Some("Ana <ana@x.com> continued"));
    assert_eq!(get_header(&hs, "date"), None);
}

#[test]
fn folded_line_without_previous_header_is_ignored() {
    assert!(parse_headers("  stray\nno colon").is_empty());
}

#[test]
fn boundary_quoted_and_bare() {
    assert_eq!(get_boundary("multipart/alternative; boundary=\"abc 1\""), Some("abc 1".to_string()));
    assert_eq!(get_boundary("multipart/mixed; BOUNDARY=xyz; charset=utf-8"), Some("xyz".to_string()));
    assert_eq!(get_boundary("multipart/mixed; boundary=\"unterminated"), None);
    assert_eq!(get_boundary("text/plain"), None);
    assert_eq!(try_get_boundary("text/plain"), Some(None));
}

#[test]
fn boundary_cut_that_falls_inside_a_character_is_a_fault() {
    // 'İ' lowercases to three bytes instead of two, so the index found in the
    // lowercase text cuts the content type inside 'é'.
    assert_eq!(try_get_boundary("İboundary=éx"), None);
    let block = "From x\nContent-Type: multipart/mixed; İboundary=éx\n\nbody";
    assert!(matches!(plan_mail_block(block), MailBlock::Unsliceable));
}

#[test]
fn q_encoding_decodes_underscores_and_hex() {
    assert_eq!(decode_q_encoding("Hola_=C3=A1rbol"), "Hola árbol".as_bytes().to_vec());
    assert_eq!(decode_q_encoding("a=ZZb"), b"ab".to_vec());
}

#[test]
fn encoded_words_b_and_q() {
    assert_eq!(decode_encoded_words("=?UTF-8?B?SG9sYQ==?= mundo"), "Hola mundo");
    assert_eq!(decode_encoded_words("=?utf-8?q?caf=C3=A9?="), "café");
    assert_eq!(decode_encoded_words("sin codificar"), "sin codificar");
    assert_eq!(decode_encoded_words("=?roto"), "=?roto");
}

#[test]
fn body_decoding_by_transfer_encoding() {
    assert_eq!(decode_body("SG9s\nYQ==", "base64"), "Hola");
    assert_eq!(decode_body("caf=C3=A9", " Quoted-Printable "), "café");
    assert_eq!(decode_body("plain", "7bit"), "plain");
    assert_eq!(decode_body("!!!", "base64"), "!!!");
}

#[test]
fn html_tags_and_entities() {
    assert_eq!(strip_html_tags("<p>a&nbsp;&amp;&lt;b&gt; &quot;c&quot; &#39;d&#39;</p>"), "a &<b> \"c\" 'd'");
}

#[test]
fn plain_text_preferred_in_multipart() {
    let body = "--B\nContent-Type: text/html\n\n<b>html</b>\n--B\nContent-Type: text/plain\n\nplano\n--B--\n";
    assert_eq!(
        extract_plain_text("multipart/alternative; boundary=B", "7bit", body),
        Some("plano\n".to_string())
    );
}

#[test]
fn html_used_when_no_plain_part_and_nested_multipart() {
    let body = "--B\nContent-Type: text/html\n\n<i>hola</i>\n--B--\n";
    assert_eq!(extract_plain_text("multipart/alternative; boundary=B", "7bit", body), Some("hola\n".to_string()));
    let nested = "--O\nContent-Type: multipart/alternative; boundary=I\n\n--I\nContent-Type: text/plain\n\nadentro\n--I--\n--O--\n";
    assert_eq!(
        try_extract_plain_text("multipart/mixed; boundary=O", "7bit", nested),
        Some(Some("adentro\n".to_string()))
    );
    assert_eq!(extract_plain_text("multipart/mixed", "7bit", "x"), None);
    assert_eq!(extract_plain_text("text/html", "7bit", "<b>x</b>"), Some("x".to_string()));
}

#[test]
fn sender_names() {
    assert_eq!(parse_from_header("\"Ana Pérez\" <ana@x.com>"), "Ana Pérez");
    assert_eq!(parse_from_header("<solo@x.com>"), "solo@x.com");
    assert_eq!(parse_from_header("  plain@x.com "), "plain@x.com");
    assert_eq!(parse_from_header("=?UTF-8?B?SG9sYQ==?= <h@x.com>"), "Hola");
    assert_eq!(try_parse_from_header("a > b < c"), None);
}

#[test]
fn gmail_dates() {
    assert_eq!(
        parse_gmail_date("Tue, 1 Jul 2003 10:52:37 +0200 (CEST)"),
        Some("2003-07-01T10:52:37+02:00".to_string())
    );
    assert_eq!(parse_gmail_date("not a date"), None);
}

#[test]
fn mail_block_records() {
    let sent = "From x\nFrom: Yo <yo@x.com>\nX-Gmail-Labels: Inbox, Sent \nDate: Tue, 1 Jul 2003 10:52:37 +0000\n\n  hola  \n";
    match plan_mail_block(sent) {
        MailBlock::Record(r) => {
            assert_eq!(r.text, "hola");
            assert!(r.is_user);
            assert_eq!(r.sender, None);
            assert_eq!(r.timestamp, Some("2003-07-01T10:52:37+00:00".to_string()));
        }
        _ => panic!("expected a record"),
    }
    let received = "From x\nSubject: s\n\nbody\n";
    match plan_mail_block(received) {
        MailBlock::Record(r) => {
            assert!(!r.is_user);
            assert_eq!(r.sender, Some("Desconocido".to_string()));
            assert_eq!(r.timestamp, None);
        }
        _ => panic!("expected a record"),
    }
    assert!(matches!(plan_mail_block("From only one line"), MailBlock::Skipped));
    assert!(matches!(plan_mail_block("From x\nSubject: s\n\n   \n"), MailBlock::Skipped));
    assert!(matches!(plan_mail_block("From x\nFrom: a > b < c\n\nbody"), MailBlock::Unsliceable));
}

#[test]
fn mailbox_without_messages_is_refused() {
    match plan_mailbox("   \n") {
        Err(e) => assert_eq!(e, "no se encontraron mensajes en el archivo .mbox"),
        Ok(_) => panic!("expected an error"),
    }
    assert_eq!(plan_mailbox("From a\n\nx\nFrom b\n\ny\n").unwrap().len(), 2);
}

#[test]
fn sensitivity_flags_keywords_case_insensitively() {
    assert_eq!(classify("Mañana tengo TERAPIA"), Some("sensible".to_string()));
    assert_eq!(classify("mi DNI es 123"), Some("sensible".to_string()));
    assert_eq!(classify("nos vemos mañana"), None);
}

#[test]
fn added_text_keeps_the_sensitivity_flag() {
    assert_eq!(classify("Tengo DEUDA"), Some("sensible".to_string()));
    assert_eq!(classify("Tengo DEUDA con el banco"), Some("sensible".to_string()));
    assert_eq!(classify("Hola, Tengo DEUDA"), Some("sensible".to_string()));
    assert_eq!(classify("Hola, nos vemos"), None);
}

#[test]
fn whatsapp_headers() {
    assert_eq!(split_ios_header("[12/01/23, 10:15:00] Ana: hola"), Some(("12/01/23, 10:15:00", "Ana: hola")));
    assert_eq!(split_ios_header("[sin coma] x"), None);
    assert_eq!(split_ios_header("12/01/23, 10:15 - Ana: hola"), None);
    assert_eq!(split_android_header("12/01/23, 10:15 - Ana: hola"), Some(("12/01/23, 10:15", "Ana: hola")));
    assert_eq!(split_android_header("sin separador"), None);
}

#[test]
fn whatsapp_timestamps_day_first_and_meridiem() {
    assert_eq!(parse_header_datetime("12/01/23, 10:15:00 PM"), Some("2023-01-12T22:15:00+00:00".to_string()));
    assert_eq!(parse_header_datetime("12/01/2023, 12:05 a. m."), Some("2023-01-12T00:05:00+00:00".to_string()));
    assert_eq!(parse_header_datetime("12.01.23, 10:15"), Some("2023-01-12T10:15:00+00:00".to_string()));
    assert_eq!(parse_header_datetime("31/02/23, 10:15"), None);
    assert_eq!(parse_header_datetime("12/01/23 10:15"), None);
}

#[test]
fn whatsapp_text_with_continuations_and_system_lines() {
    let content = "12/01/23, 10:15 - Los mensajes están cifrados\n12/01/23, 10:15 - Ana: hola\nsegunda línea\r\n\n[12/01/23, 10:16:00] Beto: chau\n";
    let msgs = parse_whatsapp_text(content);
    assert_eq!(msgs.len(), 2);
    assert_eq!(msgs[0].author, "Ana");
    assert_eq!(msgs[0].text, "hola\nsegunda línea");
    assert_eq!(msgs[0].timestamp, "2023-01-12T10:15:00+00:00");
    assert_eq!(msgs[1].author, "Beto");
    assert_eq!(msgs[1].timestamp, "2023-01-12T10:16:00+00:00");
}
