use typesetter::segment::{segment, Token, TokenKind};

fn chars(s: &str) -> Vec<char> {
    s.chars().collect()
}

fn texts(toks: &[Token]) -> Vec<String> {
    toks.iter().map(|t| t.text.iter().collect()).collect()
}

fn kinds(toks: &[Token]) -> Vec<TokenKind> {
    toks.iter().map(|t| t.kind).collect()
}

#[test]
fn words_and_spaces() {
    let toks = segment(&chars("ab cd"));
    assert_eq!(texts(&toks), vec!["ab", " ", "cd"]);
    assert_eq!(kinds(&toks), vec![TokenKind::Word, TokenKind::Space, TokenKind::Word]);
}

#[test]
fn separator_runs_collapse_to_one_token() {
    let toks = segment(&chars("a \t\nb"));
    assert_eq!(texts(&toks), vec!["a", " \t\n", "b"]);
    assert_eq!(kinds(&toks), vec![TokenKind::Word, TokenKind::Space, TokenKind::Word]);
}

#[test]
fn cjk_mixing() {
    let toks = segment(&chars("Hello 世界"));
    assert_eq!(texts(&toks), vec!["Hello", " ", "世", "界"]);
    assert_eq!(
        kinds(&toks),
        vec![TokenKind::Word, TokenKind::Space, TokenKind::CjkAtom, TokenKind::CjkAtom]
    );
}

#[test]
fn multi_special() {
    let toks = segment(&chars("a──b"));
    assert_eq!(texts(&toks), vec!["a", "──", "b"]);
    assert_eq!(kinds(&toks), vec![TokenKind::Word, TokenKind::MultiSpecial, TokenKind::Word]);
}

#[test]
fn multi_special_kana_repeat_marks() {
    let toks = segment(&chars("〳〵〴〵"));
    assert_eq!(texts(&toks), vec!["〳〵", "〴〵"]);
    assert_eq!(kinds(&toks), vec![TokenKind::MultiSpecial, TokenKind::MultiSpecial]);
}

#[test]
fn lone_bar_is_an_atom() {
    let toks = segment(&chars("───"));
    assert_eq!(texts(&toks), vec!["──", "─"]);
    assert_eq!(kinds(&toks), vec![TokenKind::MultiSpecial, TokenKind::CjkAtom]);
}

#[test]
fn cjk_punctuation_atoms() {
    let toks = segment(&chars("你好。"));
    assert_eq!(texts(&toks), vec!["你", "好", "。"]);
    assert_eq!(
        kinds(&toks),
        vec![TokenKind::CjkAtom, TokenKind::CjkAtom, TokenKind::CjkAtom]
    );
}

#[test]
fn unclassified_characters_are_skipped() {
    // carriage return is Unicode whitespace but not an ASCII separator
    let toks = segment(&chars("a\rb"));
    assert_eq!(texts(&toks), vec!["a", "b"]);
}

#[test]
fn empty_input_yields_no_tokens() {
    let toks = segment(&chars(""));
    assert_eq!(toks.len(), 0);
}

#[test]
fn segmenting_is_idempotent_on_classified_text() {
    let input = chars("Hello 世界──ab\tcd。");
    let toks = segment(&input);
    let mut joined: Vec<char> = Vec::new();
    for t in &toks {
        joined.extend(t.text.iter().copied());
    }
    let again = segment(&joined);
    assert_eq!(texts(&toks), texts(&again));
    assert_eq!(kinds(&toks), kinds(&again));
}

#[test]
fn ideographic_space_is_an_atom_not_a_separator() {
    let toks = segment(&chars("a　b"));
    assert_eq!(texts(&toks), vec!["a", "　", "b"]);
    assert_eq!(kinds(&toks), vec![TokenKind::Word, TokenKind::CjkAtom, TokenKind::Word]);
}
