use laxci::output::{classify_line, classify_lowered, LineClass};

fn chars(s: &str) -> Vec<char> {
    s.chars().collect()
}

#[test]
fn lowered_lines_are_flagged() {
    assert_eq!(classify_lowered(&chars("a warning here")), LineClass::Warning);
    assert_eq!(classify_lowered(&chars("error: bad")), LineClass::Error);
    assert_eq!(classify_lowered(&chars("error then warning")), LineClass::Warning);
    assert_eq!(classify_lowered(&chars("all fine")), LineClass::Plain);
    assert_eq!(classify_lowered(&chars("")), LineClass::Plain);
    assert_eq!(classify_lowered(&chars("errorr")), LineClass::Error);
    assert_eq!(classify_lowered(&chars("erro")), LineClass::Plain);
}

#[test]
fn letter_case_does_not_matter() {
    assert_eq!(classify_line("WARNING: deprecated"), LineClass::Warning);
    assert_eq!(classify_line("Fatal ERROR"), LineClass::Error);
    assert_eq!(classify_line("Build OK"), LineClass::Plain);
    assert_eq!(classify_lowered(&chars("WARNING")), LineClass::Plain);
}
