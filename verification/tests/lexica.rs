use compiler_create::lexica::analysis::{LexError, LexicalAnalysis};
use compiler_create::lexica::automata::{TokensDFA, TokensNFA};
use compiler_create::lexica::regex;
use compiler_create::lexica::regex::Regex;
use compiler_create::lexica::tokens::TokenUses;

fn lower() -> Regex {
    regex::from_set(b'a', b'z')
}

fn ident() -> Regex {
    // one or more lowercase letters
    regex::concat(vec![lower(), regex::repeat(lower())])
}

#[test]
fn builders_shape() {
    match regex::from_byte(b'x') {
        Regex::Char(c) => assert_eq!(c, b'x'),
        _ => panic!("expected a single byte pattern"),
    }
    match regex::from_word(b"if") {
        Regex::Word(w) => assert_eq!(w, vec![b'i', b'f']),
        _ => panic!("expected a word pattern"),
    }
    match regex::from_word(b"") {
        Regex::Empty => {}
        _ => panic!("empty word must give the empty pattern"),
    }
    match regex::from_set(b'a', b'c') {
        Regex::Union(cs) => assert_eq!(cs.len(), 3),
        _ => panic!("expected an alternation"),
    }
    match regex::from_set(b'c', b'a') {
        Regex::Empty => {}
        _ => panic!("an empty range must give the empty pattern"),
    }
    match regex::any() {
        Regex::Union(cs) => assert_eq!(cs.len(), 256),
        _ => panic!("expected an alternation"),
    }
    match regex::concat(vec![regex::from_byte(b'a'), regex::from_byte(b'b')]) {
        Regex::Concat(ps) => assert_eq!(ps.len(), 2),
        _ => panic!("expected a concatenation"),
    }
    match regex::concat(vec![]) {
        Regex::Empty => {}
        _ => panic!("empty concatenation must give the empty pattern"),
    }
    match regex::union(vec![regex::from_byte(b'a')]) {
        Regex::Union(ps) => assert_eq!(ps.len(), 1),
        _ => panic!("expected an alternation"),
    }
    match regex::repeat(regex::from_byte(b'a')) {
        Regex::Repeat(inner) => match *inner {
            Regex::Char(c) => assert_eq!(c, b'a'),
            _ => panic!("wrong inner pattern"),
        },
        _ => panic!("expected a repetition"),
    }
}

#[test]
fn builders_methods_match_free_functions() {
    match Regex::from_byte(b'q') {
        Regex::Char(c) => assert_eq!(c, b'q'),
        _ => panic!("expected a single byte pattern"),
    }
    match Regex::from_word(b"while") {
        Regex::Word(w) => assert_eq!(w.len(), 5),
        _ => panic!("expected a word pattern"),
    }
    match Regex::new(b'+') {
        Regex::Char(c) => assert_eq!(c, b'+'),
        _ => panic!("expected a single byte pattern"),
    }
    match Regex::new((b'0', b'9')) {
        Regex::Union(cs) => assert_eq!(cs.len(), 10),
        _ => panic!("expected an alternation"),
    }
    match Regex::new(vec![b' ', b'\t', b'\n']) {
        Regex::Union(cs) => assert_eq!(cs.len(), 3),
        _ => panic!("expected an alternation"),
    }
    match Regex::any() {
        Regex::Union(cs) => assert_eq!(cs.len(), 256),
        _ => panic!("expected an alternation"),
    }
    match Regex::repeat(Regex::from_byte(b'z')) {
        Regex::Repeat(_) => {}
        _ => panic!("expected a repetition"),
    }
    match Regex::from_set(b'a', b'b') {
        Regex::Union(cs) => assert_eq!(cs.len(), 2),
        _ => panic!("expected an alternation"),
    }
}

#[test]
fn nfa_accepts_whole_strings() {
    let patterns: Vec<(u32, TokenUses, Regex)> = vec![
        (1, TokenUses::Default, regex::from_word(b"if")),
        (2, TokenUses::GetLexeme, ident()),
    ];
    let nfa = TokensNFA::new(&patterns);
    assert_eq!(nfa.test_string(b"if"), Some(1));
    assert_eq!(nfa.test_string(b"i"), Some(2));
    assert_eq!(nfa.test_string(b"zzz"), Some(2));
    assert_eq!(nfa.test_string(b"9"), None);
    assert_eq!(nfa.test_string(b"a9"), None);
}

#[test]
fn dfa_accepts_whole_strings() {
    let patterns: Vec<(u32, TokenUses, Regex)> = vec![
        (1, TokenUses::Default, regex::from_word(b"if")),
        (2, TokenUses::GetLexeme, ident()),
    ];
    let dfa = TokensDFA::new(&patterns).unwrap();
    // declaration order breaks the tie on "if"
    assert_eq!(dfa.test_string(b"if"), Some(1));
    assert_eq!(dfa.test_string(b"iffy"), Some(2));
    assert_eq!(dfa.test_string(b"x"), Some(2));
    assert_eq!(dfa.test_string(b""), None);
    assert_eq!(dfa.test_string(b"3"), None);
}

#[test]
fn dfa_runs_are_repeatable() {
    let patterns: Vec<(u32, TokenUses, Regex)> = vec![(7, TokenUses::Default, ident())];
    let dfa = TokensDFA::new(&patterns).unwrap();
    for _ in 0..3 {
        assert_eq!(dfa.test_string(b"abc"), Some(7));
        assert_eq!(dfa.test_string(b"ab3"), None);
    }
}

fn simple_patterns() -> Vec<(u32, TokenUses, Regex)> {
    vec![
        (0, TokenUses::IgnoreThis, regex::from_byte(b' ')),
        (1, TokenUses::Default, regex::from_word(b"if")),
        (2, TokenUses::GetLexeme, ident()),
    ]
}

#[test]
fn longest_match_wins() {
    let mut la = LexicalAnalysis::new(&simple_patterns(), b"if ifx".to_vec(), 512).unwrap();
    let t1 = la.next_token().unwrap().unwrap();
    assert_eq!(t1.t_type, 1);
    assert_eq!(t1.t_name, None);
    let t2 = la.next_token().unwrap().unwrap();
    assert_eq!(t2.t_type, 2);
    assert_eq!(t2.t_name, Some(b"ifx".to_vec()));
    assert_eq!(la.next_token().unwrap(), None);
}

#[test]
fn lexical_error_position_is_one_based() {
    let patterns: Vec<(u32, TokenUses, Regex)> = vec![(2, TokenUses::GetLexeme, ident())];
    let mut la = LexicalAnalysis::new(&patterns, b"3x".to_vec(), 512).unwrap();
    let err = la.next_token().unwrap_err();
    assert_eq!(
        err,
        LexError::UnexpectedByte {
            row: 1,
            col: 1,
            byte: b'3'
        }
    );
}

fn comment_patterns() -> Vec<(u32, TokenUses, Regex)> {
    vec![
        (0, TokenUses::IgnoreThis, regex::from_byte(b' ')),
        (1, TokenUses::GetLexeme, ident()),
        (2, TokenUses::InitBlockComment, regex::from_word(b"/*")),
        (3, TokenUses::EndBlockComment, regex::from_word(b"*/")),
        (4, TokenUses::InitInlineComment, regex::from_word(b"//")),
        (5, TokenUses::IgnoreThis, regex::from_byte(b'\n')),
    ]
}

#[test]
fn block_comment_round_trip() {
    let mut la = LexicalAnalysis::new(
        &comment_patterns(),
        b"/* anything 123 !@# */ x".to_vec(),
        512,
    )
    .unwrap();
    let t = la.next_token().unwrap().unwrap();
    assert_eq!(t.t_type, 1);
    assert_eq!(t.t_name, Some(b"x".to_vec()));
    // the position counters advanced past the comment
    assert_eq!(la.row, 0);
    assert_eq!(la.col, 24);
    assert_eq!(la.next_token().unwrap(), None);
}

#[test]
fn block_comment_with_stars_inside() {
    let mut la =
        LexicalAnalysis::new(&comment_patterns(), b"/*ab**/x".to_vec(), 512).unwrap();
    let t = la.next_token().unwrap().unwrap();
    assert_eq!(t.t_name, Some(b"x".to_vec()));
}

#[test]
fn long_block_comment_does_not_overflow_buffer() {
    let mut source = b"/* ".to_vec();
    source.extend(std::iter::repeat(b'y').take(100));
    source.extend(b" */ ok".iter());
    let mut la = LexicalAnalysis::new(&comment_patterns(), source, 8).unwrap();
    let t = la.next_token().unwrap().unwrap();
    assert_eq!(t.t_name, Some(b"ok".to_vec()));
}

#[test]
fn line_comment_runs_to_newline() {
    let mut la = LexicalAnalysis::new(
        &comment_patterns(),
        b"// skip me\nword".to_vec(),
        512,
    )
    .unwrap();
    let t = la.next_token().unwrap().unwrap();
    assert_eq!(t.t_name, Some(b"word".to_vec()));
    assert_eq!(la.next_token().unwrap(), None);
}

#[test]
fn unclosed_comment_is_reported() {
    let mut la =
        LexicalAnalysis::new(&comment_patterns(), b"/* abc".to_vec(), 512).unwrap();
    match la.next_token().unwrap_err() {
        LexError::UnclosedComment { .. } => {}
        other => panic!("wrong error: {:?}", other),
    }
}

#[test]
fn comment_end_without_start_is_reported() {
    let mut la = LexicalAnalysis::new(&comment_patterns(), b"*/".to_vec(), 512).unwrap();
    match la.next_token().unwrap_err() {
        LexError::CommentEndNotStarted { .. } => {}
        other => panic!("wrong error: {:?}", other),
    }
}

#[test]
fn missing_end_comment_is_a_configuration_error() {
    let patterns: Vec<(u32, TokenUses, Regex)> = vec![
        (1, TokenUses::GetLexeme, ident()),
        (2, TokenUses::InitBlockComment, regex::from_word(b"/*")),
    ];
    let res = LexicalAnalysis::new(&patterns, b"x".to_vec(), 512);
    match res {
        Err(LexError::MissingEndComment) => {}
        _ => panic!("an unpaired comment start must be refused at build time"),
    }
}

#[test]
fn lexeme_too_long_is_reported() {
    let patterns: Vec<(u32, TokenUses, Regex)> = vec![(2, TokenUses::GetLexeme, ident())];
    let mut la = LexicalAnalysis::new(&patterns, b"abcdefgh".to_vec(), 2).unwrap();
    match la.next_token().unwrap_err() {
        LexError::LexemeTooLong { .. } => {}
        other => panic!("wrong error: {:?}", other),
    }
}

#[test]
fn unexpected_end_inside_token() {
    let patterns: Vec<(u32, TokenUses, Regex)> = vec![(1, TokenUses::Default, regex::from_word(b"abc"))];
    let mut la = LexicalAnalysis::new(&patterns, b"ab".to_vec(), 512).unwrap();
    match la.next_token().unwrap_err() {
        LexError::UnexpectedEnd { .. } => {}
        other => panic!("wrong error: {:?}", other),
    }
}

fn tokenize(half: usize, source: &[u8]) -> Vec<(u32, Option<Vec<u8>>)> {
    let mut la = LexicalAnalysis::new(&simple_patterns(), source.to_vec(), half).unwrap();
    let mut out = Vec::new();
    while let Some(t) = la.next_token().unwrap() {
        out.push((t.t_type, t.t_name));
    }
    out
}

#[test]
fn buffer_wraparound_changes_nothing() {
    // the source length is an exact multiple of the half-buffer size
    let source = b"abcd efg if hij pqrs tuv zz done".to_vec();
    assert_eq!(source.len() % 8, 0);
    let small = tokenize(8, &source);
    let big = tokenize(512, &source);
    assert_eq!(small, big);
    assert_eq!(small[2], (1, None));
}

#[test]
fn positions_advance_over_newlines() {
    let mut la = LexicalAnalysis::new(
        &comment_patterns(),
        b"ab\ncd".to_vec(),
        512,
    )
    .unwrap();
    let t1 = la.next_token().unwrap().unwrap();
    assert_eq!(t1.t_name, Some(b"ab".to_vec()));
    let t2 = la.next_token().unwrap().unwrap();
    assert_eq!(t2.t_name, Some(b"cd".to_vec()));
    // one newline was consumed
    assert_eq!(la.row, 1);
}

#[test]
fn equal_length_tie_prefers_first_declared() {
    // two patterns matching exactly the same lexeme
    let patterns: Vec<(u32, TokenUses, Regex)> = vec![
        (8, TokenUses::Default, regex::from_word(b"ab")),
        (9, TokenUses::Default, regex::from_word(b"ab")),
    ];
    let dfa = TokensDFA::new(&patterns).unwrap();
    assert_eq!(dfa.test_string(b"ab"), Some(8));
    let mut la = LexicalAnalysis::new(&patterns, b"ab".to_vec(), 512).unwrap();
    assert_eq!(la.next_token().unwrap().unwrap().t_type, 8);
}

#[test]
fn next_char_walks_the_input() {
    let patterns: Vec<(u32, TokenUses, Regex)> = vec![(2, TokenUses::GetLexeme, ident())];
    let mut la = LexicalAnalysis::new(&patterns, b"ab".to_vec(), 512).unwrap();
    // the first byte is already under the cursor after construction
    assert_eq!(la.next_char().unwrap(), Some(b'b'));
    assert_eq!(la.next_char().unwrap(), None);
    assert_eq!(la.next_char().unwrap(), None);
}

#[test]
fn duplicate_copies_structurally() {
    let original = regex::concat(vec![regex::from_word(b"ab"), regex::from_byte(b'c')]);
    match original.duplicate() {
        Regex::Concat(parts) => {
            assert_eq!(parts.len(), 2);
            assert!(matches!(&parts[0], Regex::Word(w) if w == &vec![b'a', b'b']));
            assert!(matches!(&parts[1], Regex::Char(c) if *c == b'c'));
        }
        _ => panic!("the copy lost its shape"),
    }
}

#[test]
fn line_comment_at_end_of_input() {
    let mut la =
        LexicalAnalysis::new(&comment_patterns(), b"ok // trailing".to_vec(), 512).unwrap();
    let t = la.next_token().unwrap().unwrap();
    assert_eq!(t.t_name, Some(b"ok".to_vec()));
    assert_eq!(la.next_token().unwrap(), None);
}

#[test]
fn empty_input_yields_no_tokens() {
    let mut la = LexicalAnalysis::new(&simple_patterns(), Vec::new(), 512).unwrap();
    assert_eq!(la.next_token().unwrap(), None);
}
