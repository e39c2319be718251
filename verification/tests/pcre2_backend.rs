use tokenizer_utils::pcre2_backend::{
    after_compile, after_jit_compile, is_match, start_build, BuildStep, Matches, RegexError,
};

#[test]
fn build_steps() {
    assert_eq!(start_build("a+"), BuildStep::Compile);
    assert_eq!(start_build(""), BuildStep::Compile);
    assert_eq!(
        start_build("é\0b\0"),
        BuildStep::Fail { error: RegexError::NulByte { position: 2 }, free_code: false }
    );
    assert_eq!(after_compile(true, 100, 0), BuildStep::JitCompile);
    assert_eq!(
        after_compile(false, 114, 3),
        BuildStep::Fail { error: RegexError::Compile { offset: 3, code: 114 }, free_code: false }
    );
    assert_eq!(after_jit_compile(0), BuildStep::Ready);
    assert_eq!(
        after_jit_compile(-45),
        BuildStep::Fail { error: RegexError::Jit { code: -45 }, free_code: true }
    );
}

#[test]
fn error_messages() {
    assert_eq!(
        RegexError::Compile { offset: 13, code: 114 }.message(),
        "pcre2_compile failed at offset 13 with error 114"
    );
    assert_eq!(
        RegexError::Jit { code: -45 }.message(),
        "pcre2_jit_compile failed with error -45"
    );
    assert_eq!(
        RegexError::Jit { code: i32::MIN }.message(),
        format!("pcre2_jit_compile failed with error {}", i32::MIN)
    );
    assert_eq!(
        RegexError::NulByte { position: 2 }.message(),
        "nul byte found in provided data at position: 2"
    );
}

#[test]
fn match_codes() {
    assert!(is_match(1));
    assert!(is_match(3));
    assert!(!is_match(0));
    assert!(!is_match(-1));
}

/// The matches that a finder gives, up to the first search without one.
fn all_matches(len: usize, find: impl Fn(usize) -> Option<(usize, usize)>) -> Vec<(usize, usize)> {
    let mut matches = Matches::new(len);
    let mut out = Vec::new();
    while let Some(start) = matches.next_search() {
        match matches.record(find(start)) {
            Some(found) => out.push(found),
            None => break,
        }
    }
    out
}

#[test]
fn matches_go_on_at_the_end_of_the_last_one() {
    // Runs of up to two characters.
    let found = all_matches(5, |start| if start < 5 { Some((start, (start + 2).min(5))) } else { None });
    assert_eq!(found, vec![(0, 2), (2, 4), (4, 5)]);
}

#[test]
fn empty_matches_move_on_by_one() {
    let found = all_matches(3, |start| Some((start, start)));
    assert_eq!(found, vec![(0, 0), (1, 1), (2, 2), (3, 3)]);
}

#[test]
fn no_match_keeps_the_position() {
    let mut matches = Matches::new(3);
    assert_eq!(matches.record(None), None);
    assert_eq!(matches.next_search(), Some(0));
    assert_eq!(matches.record(Some((1, 3))), Some((1, 3)));
    assert_eq!(matches.next_search(), Some(3));
    assert_eq!(matches.record(Some((3, 3))), Some((3, 3)));
    assert_eq!(matches.next_search(), None);
}
