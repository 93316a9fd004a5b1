use glyphcull_core::layout::breaks::{is_combining_mark, tokenize_for_breaking, BreakClass};

fn texts(s: &str) -> Vec<(String, BreakClass)> {
    tokenize_for_breaking(s).into_iter().map(|t| (t.text, t.break_after)).collect()
}

#[test]
fn tokens_reassemble_the_text() {
    for s in ["Hello, world!", "a  b", "日本語のテキスト", "x\ny", "", "(quoted) text."] {
        let joined: String = tokenize_for_breaking(s).into_iter().map(|t| t.text).collect();
        assert_eq!(joined, s);
    }
}

#[test]
fn spaces_are_break_opportunities() {
    let toks = texts("ab cd");
    assert!(toks.iter().any(|(_, c)| *c == BreakClass::Space));
    assert!(toks.iter().all(|(t, _)| !t.is_empty()));
}

#[test]
fn combining_marks_are_recognized() {
    assert!(is_combining_mark(0x0301));
    assert!(!is_combining_mark(0x0041));
}

#[test]
fn a_newline_after_spaces_is_its_own_forced_break() {
    let toks = texts("Hi, (you) \nok");
    let expected: Vec<(String, BreakClass)> = vec![
        ("Hi,".to_string(), BreakClass::Allowed),
        (" ".to_string(), BreakClass::Space),
        ("(you)".to_string(), BreakClass::Allowed),
        (" ".to_string(), BreakClass::Space),
        ("\n".to_string(), BreakClass::Forced),
        ("ok".to_string(), BreakClass::Forbidden),
    ];
    assert_eq!(toks, expected);
}
