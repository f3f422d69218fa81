//! Keyword heuristic (no language model) that flags potentially sensitive
//! messages when they are imported: health, money and credentials, identity
//! documents, intimate and legal matters.
use vstd::prelude::*;

use crate::text::{
    all_ascii, ascii_lowered, chars_of, contains, contains_vec, lemma_find, lemma_find_extend,
    lowercase, match_at, to_lowercase,
};

verus! {

/// The keywords, in Spanish, with and without accents.
pub open spec fn sensitive_keywords() -> Seq<Seq<char>> {
    seq![
        "diagnóstico"@, "diagnostico"@, "enfermedad"@, "medicamento"@, "psiquiatra"@,
        "psicólogo"@, "psicologo"@, "terapia"@, "depresión"@, "depresion"@, "ansiedad"@,
        "suicidio"@, "suicida"@, "embarazo"@, "aborto"@, "cáncer"@, "cancer"@,
        "contraseña"@, "contrasena"@, "cvv"@, "tarjeta de crédito"@, "tarjeta de credito"@,
        "cuenta bancaria"@, "cbu"@, "número de tarjeta"@, "numero de tarjeta"@, "sueldo"@,
        "deuda"@, "dni"@, "pasaporte"@, "número de documento"@, "numero de documento"@,
        "abuso"@, "violencia doméstica"@, "violencia domestica"@, "denuncia"@, "divorcio"@,
        "custodia"@, "íntimo"@, "intimo"@,
    ]
}

fn keyword_list() -> (v: Vec<&'static str>)
    ensures
        v@.len() == sensitive_keywords().len(),
        forall|i: int| 0 <= i < v@.len() ==> (#[trigger] v@[i])@ == sensitive_keywords()[i],
{
    let v = vec![
        "diagnóstico", "diagnostico", "enfermedad", "medicamento", "psiquiatra",
        "psicólogo", "psicologo", "terapia", "depresión", "depresion", "ansiedad",
        "suicidio", "suicida", "embarazo", "aborto", "cáncer", "cancer",
        "contraseña", "contrasena", "cvv", "tarjeta de crédito", "tarjeta de credito",
        "cuenta bancaria", "cbu", "número de tarjeta", "numero de tarjeta", "sueldo",
        "deuda", "dni", "pasaporte", "número de documento", "numero de documento",
        "abuso", "violencia doméstica", "violencia domestica", "denuncia", "divorcio",
        "custodia", "íntimo", "intimo",
    ];
    v
}

/// Some keyword occurs in the (already lowercased) text.
pub open spec fn has_sensitive_keyword(lowered: Seq<char>) -> bool {
    exists|k: int| 0 <= k < sensitive_keywords().len() && contains(lowered, #[trigger] sensitive_keywords()[k])
}

/// The label that `classify` gives to a text whose lowercase form is `lowered`.
pub open spec fn sensitivity_label(lowered: Seq<char>) -> Option<Seq<char>> {
    if has_sensitive_keyword(lowered) {
        Some("sensible"@)
    } else {
        None
    }
}

/// Classifies text that is already lowercase: `Some("sensible")` exactly when
/// it contains one of the keywords.
pub fn classify_lowered(lowered: &str) -> (r: Option<String>)
    ensures
        r.is_some() == sensitivity_label(lowered@).is_some(),
        r matches Some(l) ==> Some(l@) == sensitivity_label(lowered@),
{
    let low = chars_of(lowered);
    let kws = keyword_list();
    let mut i: usize = 0;
    while i < kws.len()
        invariant
            i <= kws@.len(),
            kws@.len() == sensitive_keywords().len(),
            forall|j: int| 0 <= j < kws@.len() ==> (#[trigger] kws@[j])@ == sensitive_keywords()[j],
            low@ == lowered@,
            forall|j: int| 0 <= j < i ==> !contains(lowered@, #[trigger] sensitive_keywords()[j]),
        decreases kws.len() - i,
    {
        let kw = chars_of(kws[i]);
        if contains_vec(&low, &kw) {
            assert(contains(lowered@, sensitive_keywords()[i as int]));
            return Some("sensible".to_string());
        }
        i += 1;
    }
    None
}

/// Returns `Some("sensible")` if the lowercase form of the text contains any
/// keyword, `None` otherwise (the message is not flagged).
pub fn classify(text: &str) -> (r: Option<String>)
    ensures
        r.is_some() == sensitivity_label(lowercase(text@)).is_some(),
        r matches Some(l) ==> Some(l@) == sensitivity_label(lowercase(text@)),
        all_ascii(text@) ==> r.is_some() == has_sensitive_keyword(ascii_lowered(text@)),
{
    let lower = to_lowercase(text);
    assert(all_ascii(text@) ==> lower@ == ascii_lowered(text@));
    classify_lowered(lower.as_str())
}

/// A text that contains `p` still contains it with more text on either side.
proof fn lemma_contains_widened(x: Seq<char>, y: Seq<char>, p: Seq<char>)
    requires
        contains(x, p),
    ensures
        contains(x + y, p),
        contains(y + x, p),
{
    lemma_find_extend(x, y, p);
    lemma_find(x, p);
    let i = crate::text::find(x, p)->0;
    assert((y + x).subrange(i + y.len(), i + y.len() + p.len()) =~= x.subrange(i, i + p.len()));
    assert(match_at(y + x, p, i + y.len()));
    lemma_find(y + x, p);
}

/// Adding text never clears the flag: if the ASCII lowercase form of `a`
/// holds a keyword, so does that of `a` followed by `b` and of `b` followed
/// by `a`, whatever `b`. By `classify`'s contract, on ASCII text this is
/// `classify` flagging `a` and then both longer texts.
pub proof fn law_added_text_keeps_flag(a: Seq<char>, b: Seq<char>)
    requires
        has_sensitive_keyword(ascii_lowered(a)),
    ensures
        has_sensitive_keyword(ascii_lowered(a + b)),
        has_sensitive_keyword(ascii_lowered(b + a)),
{
    let k = choose|k: int|
        0 <= k < sensitive_keywords().len() && contains(
            ascii_lowered(a),
            #[trigger] sensitive_keywords()[k],
        );
    let kw = sensitive_keywords()[k];
    assert(ascii_lowered(a + b) =~= ascii_lowered(a) + ascii_lowered(b));
    assert(ascii_lowered(b + a) =~= ascii_lowered(b) + ascii_lowered(a));
    lemma_contains_widened(ascii_lowered(a), ascii_lowered(b), kw);
    assert(contains(ascii_lowered(a + b), sensitive_keywords()[k]));
    assert(contains(ascii_lowered(b + a), sensitive_keywords()[k]));
}

} // verus!
