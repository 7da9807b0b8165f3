use old_app_detector::locale::for_locale;
use old_app_detector::text::{join, last_marked_line, lex_less, lines, push_decimal, trim};

#[test]
fn lines_like_str_lines() {
    for s in ["", "a", "a\n", "a\r\nb", "a\n\nb\n", "\n", "x\r", "x\r\n\r\n"] {
        let expected: Vec<String> = s.lines().map(|l| l.to_string()).collect();
        assert_eq!(lines(s), expected, "{s:?}");
    }
}

#[test]
fn last_marked_line_finds_the_last() {
    let out = "motd\n__PATH__=/a:/b\nnoise\n__PATH__=/usr/bin:/bin\r\nbye\n";
    assert_eq!(last_marked_line(out, "__PATH__="), Some("/usr/bin:/bin".to_string()));
    assert_eq!(last_marked_line("nothing here\n", "__PATH__="), None);
}

#[test]
fn trim_like_str_trim() {
    for s in ["", "  a b  ", "\t\n x \r", "\u{2003}y\u{85}", "z"] {
        assert_eq!(trim(s), s.trim());
    }
}

#[test]
fn decimal_writing() {
    let mut s = String::from("n=");
    push_decimal(&mut s, 0);
    assert_eq!(s, "n=0");
    let mut s = String::new();
    push_decimal(&mut s, 1_234_567_890);
    assert_eq!(s, "1234567890");
    let mut s = String::new();
    push_decimal(&mut s, usize::MAX);
    assert_eq!(s, usize::MAX.to_string());
}

#[test]
fn join_and_order() {
    assert_eq!(join(&vec![], ", "), "");
    assert_eq!(join(&vec!["a".to_string()], ", "), "a");
    assert_eq!(join(&vec!["a".to_string(), "b".to_string()], ", "), "a, b");
    assert!(lex_less("a", "b"));
    assert!(lex_less("ab", "abc"));
    assert!(!lex_less("b", "a"));
    assert!(!lex_less("a", "a"));
    assert!(lex_less("Z", "a"));
    assert_eq!(lex_less("é", "z"), "é" < "z");
}

#[test]
fn locale_strings() {
    assert_eq!(for_locale("fr-FR").host_label, "Machine");
    assert_eq!(for_locale("fr").csv_header, "type;nom;version;chemin;chemin_reel;source;architectures;statut");
    assert_eq!(for_locale("en-US").host_label, "Host");
    assert_eq!(for_locale("de").summary_title, "--- Summary ---");
    assert_eq!(for_locale("").none_label, "(none)");
    assert_eq!(for_locale("fra").host_label, "Host");
}
