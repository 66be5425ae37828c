use tokenaisu::moses::{moses_tokenize, moses_tokenize_line, Language};
use tokenaisu::protect::{protect_spans, ProtectedPattern};
use tokenaisu::{finish_line, NonbreakingPrefixes, PatternError, PrefixType};

fn line(text: &str, language: Language) -> String {
    moses_tokenize_line(text, language, true, false, &vec![], &NonbreakingPrefixes::new())
}

fn english_prefixes() -> NonbreakingPrefixes {
    let mut p = NonbreakingPrefixes::new();
    p.insert("Mr", PrefixType::Always);
    p.insert("No", PrefixType::NumericOnly);
    p
}

#[test]
fn english_double_quotes() {
    let result = line("This is a somewhat \"less simple\" test.", Language::En);
    assert_eq!(result, "This is a somewhat \" less simple \" test .\n");
}

#[test]
fn french_simple() {
    let result = line("Voici une phrase simple.", Language::Fr);
    assert_eq!(result, "Voici une phrase simple .\n");
}

#[test]
fn french_apostrophe() {
    let result = line("Moi, j'ai une apostrophe.", Language::Fr);
    assert_eq!(result, "Moi , j' ai une apostrophe .\n");
}

#[test]
fn french_apostrophe_penultimate() {
    let result = line("de musique rap issus de l'immigration", Language::Fr);
    assert_eq!(result, "de musique rap issus de l' immigration\n");
}

#[test]
fn german_nonascii() {
    let result = line("Ich hoffe, daß Sie schöne Ferien hatten.", Language::En);
    assert_eq!(result, "Ich hoffe , daß Sie schöne Ferien hatten .\n");
}

#[test]
fn protected_patterns() {
    let text = "Some text containing the protected pattern $'$ and /'/.";
    let none = NonbreakingPrefixes::new();

    let result_without_protected = moses_tokenize_line(text, Language::En, true, false, &vec![], &none);
    assert_eq!(
        result_without_protected,
        "Some text containing the protected pattern $ ' $ and / ' / .\n"
    );

    let result_with_protected = moses_tokenize_line(
        text,
        Language::En,
        true,
        false,
        &vec![ProtectedPattern::new(r"([^\p{L}])[']([^\p{L}])").unwrap()],
        &none,
    );
    assert_eq!(
        result_with_protected,
        "Some text containing the protected pattern $'$ and /'/ .\n"
    );
}

#[test]
fn protected_patterns_apply_cumulatively() {
    let none = NonbreakingPrefixes::new();
    let patterns = vec![
        ProtectedPattern::new(r"it's").unwrap(),
        ProtectedPattern::new(r"THISISPROTECTED00000000000000000000 x'y").unwrap(),
    ];
    let result = moses_tokenize_line("it's  x'y z'w", Language::En, true, false, &patterns, &none);
    assert_eq!(result, "it's x'y z 'w\n");
}

#[test]
fn protected_match_is_not_split() {
    let none = NonbreakingPrefixes::new();
    let patterns = vec![ProtectedPattern::new(r"\w+@\w+\.com").unwrap()];
    let result = moses_tokenize_line("Write to me@host.com, please.", Language::En, true, false, &patterns, &none);
    assert_eq!(result, "Write to me@host.com , please .\n");
}

#[test]
fn empty_line_is_a_line_feed() {
    assert_eq!(line("", Language::En), "\n");
    assert_eq!(line(" \t ", Language::En), "\n");
}

#[test]
fn every_line_ends_with_one_line_feed() {
    for text in ["abc", "abc\n", "a.\n", "x\u{1}\u{2}y", "'", "..."] {
        let r = line(text, Language::En);
        assert!(r.ends_with('\n'));
        assert!(!r[..r.len() - 1].contains('\n'), "{:?}", r);
    }
}

#[test]
fn whitespace_is_collapsed() {
    assert_eq!(line("  a\u{00A0}b\t\tc  ", Language::En), "a b c\n");
}

#[test]
fn control_characters_are_dropped() {
    assert_eq!(line("ab\u{1}c d", Language::En), "abc d\n");
    assert_eq!(line("\u{100}x", Language::En), "\u{100}x\n");
}

#[test]
fn multi_dot_runs_survive() {
    assert_eq!(line("Hello...world", Language::En), "Hello ... world\n");
    assert_eq!(line("Wait..", Language::En), "Wait ..\n");
    for n in 2..=50 {
        let dots = ".".repeat(n);
        let text = format!("a{}b", dots);
        assert_eq!(line(&text, Language::En), format!("a {} b\n", dots));
    }
}

#[test]
fn escaping_replaces_special_characters() {
    let none = NonbreakingPrefixes::new();
    let r = moses_tokenize_line("a & b < c > d", Language::En, false, false, &vec![], &none);
    assert_eq!(r, "a &amp; b &lt; c &gt; d\n");
    let r = moses_tokenize_line("x|y [z] \"q\" it's", Language::De, false, false, &vec![], &none);
    assert_eq!(r, "x &#124; y &#91; z &#93; &quot; q &quot; it &apos; s\n");
    let r = moses_tokenize_line("&amp;", Language::En, false, false, &vec![], &none);
    assert_eq!(r, "&amp; amp ;\n");
}

#[test]
fn commas_inside_numbers_stay() {
    assert_eq!(line("5,300 and 300,", Language::En), "5,300 and 300 ,\n");
    assert_eq!(line("a,b", Language::En), "a , b\n");
    assert_eq!(line("\u{663},\u{664}", Language::En), "\u{663},\u{664}\n");
}

#[test]
fn aggressive_hyphen_splitting() {
    let none = NonbreakingPrefixes::new();
    let r = moses_tokenize_line("well-known 3-4 -x", Language::En, true, true, &vec![], &none);
    assert_eq!(r, "well @-@ known 3 @-@ 4 -x\n");
    assert_eq!(line("well-known", Language::En), "well-known\n");
}

#[test]
fn finnish_colon() {
    assert_eq!(line("Helsinki:ssa kello 10:30.", Language::Fi), "Helsinki:ssa kello 10 : 30 .\n");
}

#[test]
fn catalan_middle_dot() {
    assert_eq!(line("col\u{b7}legi A\u{b7}B", Language::Ca), "col\u{b7}legi A \u{b7} B\n");
}

#[test]
fn tetun_apostrophe() {
    assert_eq!(line("ko'ok Ko'O", Language::Tdt), "ko'ok Ko ' O\n");
}

#[test]
fn somali_glottal_stop() {
    assert_eq!(line("ka'a", Language::So), "ka'a\n");
}

#[test]
fn default_apostrophe_separated() {
    assert_eq!(line("geht's", Language::De), "geht ' s\n");
}

#[test]
fn english_contractions() {
    assert_eq!(line("don't", Language::En), "don 't\n");
    assert_eq!(line("1990's", Language::En), "1990 's\n");
}

#[test]
fn abbreviations_keep_their_period() {
    let p = english_prefixes();
    let t = |s: &str| moses_tokenize_line(s, Language::En, true, false, &vec![], &p);
    assert_eq!(t("Mr. Smith arrived."), "Mr. Smith arrived .\n");
    assert_eq!(t("See No. 5 here."), "See No. 5 here .\n");
    assert_eq!(t("No. Way"), "No . Way\n");
    assert_eq!(line("Mr. Smith", Language::En), "Mr . Smith\n");
}

#[test]
fn period_before_lowercase_stays() {
    assert_eq!(line("the etc. and more", Language::En), "the etc. and more\n");
    assert_eq!(line("Mr. \u{e9}lan", Language::En), "Mr. \u{e9}lan\n");
}

#[test]
fn chained_abbreviation_stays() {
    assert_eq!(line("U.S.A. Today", Language::En), "U.S.A. Today\n");
}

#[test]
fn period_and_quote_at_end_split() {
    assert_eq!(line("He said 'no.'", Language::En), "He said ' no. ' \n");
}

#[test]
fn later_prefix_entry_wins() {
    let mut p = NonbreakingPrefixes::new();
    p.insert("Fig", PrefixType::Always);
    p.insert("Fig", PrefixType::NumericOnly);
    let r = moses_tokenize_line("Fig. A", Language::En, true, false, &vec![], &p);
    assert_eq!(r, "Fig . A\n");
}

#[test]
fn tokenize_splits_lines() {
    let none = NonbreakingPrefixes::new();
    let r = moses_tokenize("Hello, world.\r\nSecond line\n", Language::En, true, false, &[], &none);
    assert_eq!(r, Ok("Hello , world .\nSecond line\n".to_string()));
    let r = moses_tokenize("", Language::En, true, false, &[], &none);
    assert_eq!(r, Ok(String::new()));
}

#[test]
fn tokenize_rejects_invalid_pattern() {
    let none = NonbreakingPrefixes::new();
    let r = moses_tokenize("text", Language::En, true, false, &["("], &none);
    assert_eq!(r, Err(PatternError::InvalidPattern));
    let r = moses_tokenize("it's", Language::En, true, false, &["it's"], &none);
    assert_eq!(r, Ok("it's\n".to_string()));
}

#[test]
fn protect_spans_numbers_placeholders() {
    let text: Vec<char> = "ab cd ef".chars().collect();
    let mut subs: Vec<(Vec<char>, Vec<char>)> = Vec::new();
    let out = protect_spans(&text, &vec![(0, 2), (6, 8)], &mut subs);
    let out: String = out.into_iter().collect();
    assert_eq!(out, "THISISPROTECTED00000000000000000000 cd THISISPROTECTED00000000000000000001");
    assert_eq!(subs.len(), 2);
    assert_eq!(subs[1].0.iter().collect::<String>(), "THISISPROTECTED00000000000000000001");
    assert_eq!(subs[1].1.iter().collect::<String>(), "ef");
}

#[test]
fn finish_line_restores_substitutions() {
    let text: Vec<char> = " THISISPROTECTED00000000000000000000, ok. ".chars().collect();
    let subs = vec![(
        "THISISPROTECTED00000000000000000000".chars().collect::<Vec<char>>(),
        "<a,b>".chars().collect::<Vec<char>>(),
    )];
    let none = NonbreakingPrefixes::new();
    assert_eq!(finish_line(&text, &subs, Language::En, true, false, &none), "<a,b> , ok .\n");
    assert_eq!(finish_line(&text, &subs, Language::En, false, false, &none), "&lt;a,b&gt; , ok .\n");
}

#[test]
fn multi_dot_run_next_to_capital_d() {
    assert_eq!(line("Dots...Done", Language::En), "Dots ... Done\n");
}

#[test]
fn tag_text_in_input_is_kept() {
    assert_eq!(line("DOTMULTI x", Language::En), "DOTMULTI x\n");
    assert_eq!(line("aDOTDOTMULTI... b", Language::En), "aDOTDOTMULTI ... b\n");
}

#[test]
fn invalid_pattern_is_refused() {
    assert_eq!(ProtectedPattern::new("(").err(), Some(PatternError::InvalidPattern));
    assert!(ProtectedPattern::new("a+").is_ok());
}

#[test]
fn many_placeholders_come_back() {
    let none = NonbreakingPrefixes::new();
    let text = vec!["x"; 1001].join(" ");
    let patterns = vec![ProtectedPattern::new("x").unwrap()];
    let r = moses_tokenize_line(&text, Language::En, true, false, &patterns, &none);
    assert_eq!(r, format!("{}\n", text));
}

#[test]
fn letters_are_general_category_l() {
    assert_eq!(line("\u{915}\u{93f}", Language::En), "\u{915} \u{93f}\n");
    assert_eq!(line("a\u{24b6}b", Language::En), "a \u{24b6} b\n");
}

#[test]
fn lowercase_after_colon_is_category_ll() {
    assert_eq!(line("x:\u{aa} y:\u{e9}", Language::Fi), "x : \u{aa} y:\u{e9}\n");
}

#[test]
fn trailing_line_feed_changes_nothing() {
    for text in ["Hello, world.", "a...b", "x'y"] {
        assert_eq!(line(&format!("{}\n", text), Language::En), line(text, Language::En));
    }
}

#[test]
fn escaped_line_is_escaping_of_plain_line() {
    let none = NonbreakingPrefixes::new();
    let text = "x & y <z> 'q' [r]|s \"t\"";
    let plain = moses_tokenize_line(text, Language::En, true, false, &vec![], &none);
    let escaped = moses_tokenize_line(text, Language::En, false, false, &vec![], &none);
    let expect = plain
        .replace('&', "&amp;")
        .replace('|', "&#124;")
        .replace('<', "&lt;")
        .replace('>', "&gt;")
        .replace('\'', "&apos;")
        .replace('"', "&quot;")
        .replace('[', "&#91;")
        .replace(']', "&#93;");
    assert_eq!(escaped, expect);
}

#[test]
fn prefix_list_is_loaded() {
    let mut p = NonbreakingPrefixes::new();
    p.add_prefix_list("# titles\nMr\n\n No\nNo #NUMERIC_ONLY# \r\nDr\r\n");
    let t = |s: &str| moses_tokenize_line(s, Language::En, true, false, &vec![], &p);
    assert_eq!(t("Mr. Smith and Dr. Who."), "Mr. Smith and Dr. Who .\n");
    assert_eq!(t("No. 5 or No. Way"), "No. 5 or No . Way\n");
    assert_eq!(t("# titles"), "# titles\n");
}
