//! The log grammars, checked against the regular expressions they stand for
//! on many generated texts.
use gacha_url::log_url::LogGrammar;
use regex::Regex;

const ENDFIELD_PATTERN: &str =
    r#"https://[^\s"]+?\.gryphline\.com/[^\s"]+?token[^\s"]+?server[^\s"]+"#;
const WUWA_PATTERN: &str = r#"https://aki-gm-resources(?:-oversea)?\.aki-game\.(?:net|com)/aki/gacha/index\.html#/record[^\s"]*"#;

const ENDFIELD_PIECES: &[&str] = &[
    "https://", ".gryphline.com/", "token", "server", "gachalog", "a", "=", "&", "?", "/", " ",
    "\"", "\n", "\u{a0}", "\u{2003}", "é", "https://x", "tok", "serv", ".gryphline.com",
];
const WUWA_PIECES: &[&str] = &[
    "https://aki-gm-resources", "-oversea", ".aki-game.", "net", "com", "org",
    "/aki/gacha/index.html#/record", "?svr_id=1", "&lang=en", " ", "\"", "\n", "\t", "\u{3000}",
    "x", "https://", "-over", "/record",
];

struct Lcg(u64);

impl Lcg {
    fn next(&mut self) -> u64 {
        self.0 = self.0.wrapping_mul(6364136223846793005).wrapping_add(1442695040888963407);
        self.0 >> 33
    }
}

const FILLERS: &[&str] = &["", "", "a", "b1", "=", "&x=", " ", "\"", "\n", "\u{2029}", "é", "https://"];

/// Texts made of a skeleton (the pieces of a URL in order, each sometimes
/// dropped or followed by filler) wrapped in random pieces.
fn texts(skeleton: &[&str], pieces: &[&str], seed: u64, count: usize) -> Vec<String> {
    let mut rng = Lcg(seed);
    let mut out = Vec::new();
    for _ in 0..count {
        let mut text = String::new();
        for _ in 0..(rng.next() % 4) {
            text.push_str(pieces[(rng.next() as usize) % pieces.len()]);
        }
        for _ in 0..(1 + rng.next() % 2) {
            for piece in skeleton {
                if rng.next() % 12 != 0 {
                    text.push_str(piece);
                } else {
                    text.push_str(pieces[(rng.next() as usize) % pieces.len()]);
                }
                if rng.next() % 3 == 0 {
                    text.push_str(FILLERS[(rng.next() as usize) % FILLERS.len()]);
                }
            }
            for _ in 0..(rng.next() % 3) {
                text.push_str(pieces[(rng.next() as usize) % pieces.len()]);
            }
        }
        out.push(text);
    }
    out
}

fn agree(grammar: LogGrammar, pattern: &str, skeleton: &[&str], pieces: &[&str], seed: u64) {
    let re = Regex::new(pattern).unwrap();
    let mut matched = 0;
    for text in texts(skeleton, pieces, seed, 20000) {
        let expected = re.find_iter(&text).last().map(|m| m.as_str().to_owned());
        assert_eq!(grammar.last_match(&text), expected, "text: {text:?}");
        assert_eq!(grammar.is_match(&text), re.is_match(&text), "text: {text:?}");
        if expected.is_some() {
            matched += 1;
        }
    }
    assert!(matched > 100);
}

#[test]
fn endfield_grammar_agrees_with_regular_expression() {
    agree(
        LogGrammar::Endfield,
        ENDFIELD_PATTERN,
        &["https://", "host", ".gryphline.com/", "api?", "token", "=1&", "server", "=prod"],
        ENDFIELD_PIECES,
        7,
    );
}

#[test]
fn wuwa_grammar_agrees_with_regular_expression() {
    agree(
        LogGrammar::WutheringWaves,
        WUWA_PATTERN,
        &["https://aki-gm-resources", "-oversea", ".aki-game.", "com", "/aki/gacha/index.html#/record", "?id=1"],
        WUWA_PIECES,
        11,
    );
}
