use feed_sync::tokens::tokenize;

fn words(text: &str) -> Vec<String> {
    tokenize(text)
}

#[test]
fn tokens_are_runs_of_letters_digits_and_apostrophes() {
    assert_eq!(words("hello world"), vec!["hello", "world"]);
    assert_eq!(words("it's 4 o'clock, isn't it?"), vec!["it's", "4", "o'clock", "isn't", "it"]);
    assert_eq!(words("abc123 456def"), vec!["abc123", "456def"]);
    assert_eq!(words("a-b_c.d"), vec!["a", "b", "c", "d"]);
}

#[test]
fn text_without_token_characters_has_no_tokens() {
    assert!(words("").is_empty());
    assert!(words("   ").is_empty());
    assert!(words("...!?--").is_empty());
    assert!(words("ÀÉÎ ＡＢＣ").is_empty());
}

#[test]
fn upper_case_letters_end_a_token() {
    assert_eq!(words("Free Bitcoin XXX"), vec!["ree", "itcoin"]);
    assert_eq!(words("camelCase"), vec!["camel", "ase"]);
}

#[test]
fn letters_outside_ascii_end_a_token() {
    assert_eq!(words("café ñandú"), vec!["caf", "and"]);
    assert_eq!(words("deals 😻😻😻 now"), vec!["deals", "now"]);
}

#[test]
fn a_token_is_kept_once_at_its_first_place() {
    assert_eq!(words("b a b c a b"), vec!["b", "a", "c"]);
    assert_eq!(words("aa a aa a"), vec!["aa", "a"]);
}

#[test]
fn a_run_reaches_to_both_ends_of_the_text() {
    assert_eq!(words("single"), vec!["single"]);
    assert_eq!(words("'"), vec!["'"]);
    assert_eq!(words(" x "), vec!["x"]);
    assert_eq!(words("x,"), vec!["x"]);
    assert_eq!(words(",x"), vec!["x"]);
}

/// The tokens of a text, found character by character.
fn by_hand(text: &str) -> Vec<String> {
    let mut tokens: Vec<String> = Vec::new();
    let mut run = String::new();
    for c in text.chars().chain(std::iter::once(' ')) {
        if c.is_ascii_lowercase() || c.is_ascii_digit() || c == '\'' {
            run.push(c);
        } else if !run.is_empty() {
            if !tokens.contains(&run) {
                tokens.push(run.clone());
            }
            run.clear();
        }
    }
    tokens
}

#[test]
fn tokens_agree_with_a_scan_by_hand() {
    let alphabet: Vec<char> = "abcxyz019'' \n\t.,;-_AZÀéßñ😻中\"\\/[]{}".chars().collect();
    let mut seed: u64 = 0x2545_f491_4f6c_dd1d;
    for round in 0..400 {
        let mut text = String::new();
        for _ in 0..(round % 40) {
            seed = seed.wrapping_mul(6364136223846793005).wrapping_add(1442695040888963407);
            text.push(alphabet[(seed >> 33) as usize % alphabet.len()]);
        }
        assert_eq!(words(&text), by_hand(&text), "for the text {:?}", text);
    }
}
