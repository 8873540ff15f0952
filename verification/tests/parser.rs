use bfrunner::{parse, ParseError, AST};

fn show(tree: &[AST]) -> String {
    format!("{:?}", tree)
}

fn parsed(source: &str) -> String {
    match parse(source) {
        Ok(tree) => show(&tree),
        Err(e) => panic!("{:?} does not parse: {:?}", source, e),
    }
}

fn failure(source: &str) -> ParseError {
    match parse(source) {
        Ok(tree) => panic!("{:?} parses to {:?}", source, tree),
        Err(e) => e,
    }
}

#[test]
fn empty_source_is_an_empty_tree() {
    assert_eq!(parse("").unwrap().len(), 0);
}

#[test]
fn each_operator_gives_its_node() {
    assert_eq!(parsed(">"), "[Move(1)]");
    assert_eq!(parsed("<"), "[Move(-1)]");
    assert_eq!(parsed("+"), "[Add(1)]");
    assert_eq!(parsed("-"), "[Add(-1)]");
    assert_eq!(parsed("."), "[Output]");
    assert_eq!(parsed(","), "[Input]");
    assert_eq!(parsed("[]"), "[Loop([])]");
}

#[test]
fn moves_of_one_direction_merge_into_one_node() {
    for n in 1..200usize {
        let right = ">".repeat(n);
        let left = "<".repeat(n);
        assert_eq!(parsed(&right), format!("[Move({})]", n));
        assert_eq!(parsed(&left), format!("[Move(-{})]", n));
    }
}

#[test]
fn opposite_moves_cancel() {
    assert_eq!(parsed(">>><"), "[Move(2)]");
    assert_eq!(parsed("<<>"), "[Move(-1)]");
    assert_eq!(parsed("><<>>"), "[Move(1)]");
}

#[test]
fn a_run_of_net_zero_is_still_a_node() {
    assert_eq!(parsed("><"), "[Move(0)]");
    assert_eq!(parsed("+-"), "[Add(0)]");
    assert_eq!(parsed("-+-+"), "[Add(0)]");
}

#[test]
fn additions_merge_and_cancel() {
    assert_eq!(parsed("+++"), "[Add(3)]");
    assert_eq!(parsed("---"), "[Add(-3)]");
    assert_eq!(parsed("+++-"), "[Add(2)]");
}

#[test]
fn long_addition_runs_are_kept_modulo_256() {
    assert_eq!(parsed(&"+".repeat(127)), "[Add(127)]");
    assert_eq!(parsed(&"+".repeat(128)), "[Add(-128)]");
    assert_eq!(parsed(&"+".repeat(200)), "[Add(-56)]");
    assert_eq!(parsed(&"+".repeat(256)), "[Add(0)]");
    assert_eq!(parsed(&"+".repeat(257)), "[Add(1)]");
    assert_eq!(parsed(&"-".repeat(128)), "[Add(-128)]");
    assert_eq!(parsed(&"-".repeat(129)), "[Add(127)]");
    assert_eq!(parsed(&"-".repeat(300)), "[Add(-44)]");
    assert_eq!(parsed(&"+".repeat(100_000)), "[Add(-96)]");
}

#[test]
fn long_move_runs_are_kept_whole() {
    assert_eq!(parsed(&">".repeat(100_000)), "[Move(100000)]");
    assert_eq!(parsed(&"<".repeat(40_000)), "[Move(-40000)]");
}

#[test]
fn runs_of_different_kinds_do_not_merge() {
    assert_eq!(parsed("+>+"), "[Add(1), Move(1), Add(1)]");
    assert_eq!(parsed(">>++<<--"), "[Move(2), Add(2), Move(-2), Add(-2)]");
}

#[test]
fn other_characters_are_comments() {
    assert_eq!(parsed("hello world"), "[]");
    assert_eq!(parsed("a+b"), "[Add(1)]");
    assert_eq!(parsed("read , then write ."), "[Input, Output]");
}

#[test]
fn a_comment_ends_a_run() {
    assert_eq!(parsed("+ +"), "[Add(1), Add(1)]");
    assert_eq!(parsed(">\n>"), "[Move(1), Move(1)]");
    assert_eq!(parsed("+.+"), "[Add(1), Output, Add(1)]");
}

#[test]
fn brackets_nest() {
    assert_eq!(parsed("[-]"), "[Loop([Add(-1)])]");
    assert_eq!(parsed("[[-]>]"), "[Loop([Loop([Add(-1)]), Move(1)])]");
    assert_eq!(parsed("+[>[.]<]-"), "[Add(1), Loop([Move(1), Loop([Output]), Move(-1)]), Add(-1)]");
    assert_eq!(parsed("[][]"), "[Loop([]), Loop([])]");
    assert_eq!(parsed("[[[]]]"), "[Loop([Loop([Loop([])])])]");
}

#[test]
fn a_bracket_ends_a_run() {
    assert_eq!(parsed("+[+]+"), "[Add(1), Loop([Add(1)]), Add(1)]");
    assert_eq!(parsed(">[]>"), "[Move(1), Loop([]), Move(1)]");
}

#[test]
fn deep_nesting_parses() {
    let depth = 50_000;
    let source = "[".repeat(depth) + &"]".repeat(depth);
    let tree = parse(&source).unwrap();
    assert_eq!(tree.len(), 1);
    let mut level = &tree;
    let mut seen = 0;
    while let Some(AST::Loop(body)) = level.first() {
        seen += 1;
        level = body;
    }
    assert_eq!(seen, depth);
    std::mem::forget(tree);
}

#[test]
fn a_closing_bracket_alone_fails_at_its_position() {
    assert!(matches!(failure("]"), ParseError::UnmatchedClosingBracket { pos: 0 }));
    assert!(matches!(failure("+]"), ParseError::UnmatchedClosingBracket { pos: 1 }));
    assert!(matches!(failure("[]]"), ParseError::UnmatchedClosingBracket { pos: 2 }));
    assert!(matches!(failure("[+]>>]"), ParseError::UnmatchedClosingBracket { pos: 5 }));
}

#[test]
fn the_first_stray_closing_bracket_is_reported() {
    assert!(matches!(failure("]]"), ParseError::UnmatchedClosingBracket { pos: 0 }));
    assert!(matches!(failure("]["), ParseError::UnmatchedClosingBracket { pos: 0 }));
    assert!(matches!(failure("[]][[]"), ParseError::UnmatchedClosingBracket { pos: 2 }));
}

#[test]
fn an_opening_bracket_alone_fails_at_its_position() {
    assert!(matches!(failure("["), ParseError::UnmatchedOpeningBracket { pos: 0 }));
    assert!(matches!(failure("++["), ParseError::UnmatchedOpeningBracket { pos: 2 }));
    assert!(matches!(failure("[]["), ParseError::UnmatchedOpeningBracket { pos: 2 }));
    assert!(matches!(failure("[-]+[.,"), ParseError::UnmatchedOpeningBracket { pos: 4 }));
}

#[test]
fn the_outermost_unclosed_bracket_is_reported() {
    assert!(matches!(failure("[["), ParseError::UnmatchedOpeningBracket { pos: 0 }));
    assert!(matches!(failure("[[]"), ParseError::UnmatchedOpeningBracket { pos: 0 }));
    assert!(matches!(failure("+[>[[-]"), ParseError::UnmatchedOpeningBracket { pos: 1 }));
    assert!(matches!(failure("[][[]["), ParseError::UnmatchedOpeningBracket { pos: 2 }));
}

#[test]
fn positions_are_byte_offsets() {
    assert!(matches!(failure("é]"), ParseError::UnmatchedClosingBracket { pos: 2 }));
    assert!(matches!(failure("日本["), ParseError::UnmatchedOpeningBracket { pos: 6 }));
    assert_eq!(parsed("é+é+"), "[Add(1), Add(1)]");
}

#[test]
fn sources_without_brackets_always_parse() {
    let alphabet = ['>', '<', '+', '-', '.', ',', ' ', 'x', '\n', 'é'];
    let mut seed: u32 = 12345;
    for _ in 0..500 {
        let mut source = String::new();
        for _ in 0..(seed % 40) {
            seed = seed.wrapping_mul(1664525).wrapping_add(1013904223);
            source.push(alphabet[(seed >> 16) as usize % alphabet.len()]);
        }
        seed = seed.wrapping_mul(1664525).wrapping_add(1013904223);
        assert!(parse(&source).is_ok(), "{:?}", source);
    }
}

#[test]
fn parsing_twice_gives_the_same_tree() {
    let sources = [
        "",
        "+++.",
        ",[.,]",
        "++++++++[>++++[>++>+++>+++>+<<<<-]>+>+>->>+[<]<-]>>.>---.+++++++..+++.>>.<-.<.+++.------.--------.>>+.>++.",
    ];
    for source in sources {
        assert_eq!(parsed(source), parsed(source));
    }
    assert_eq!(format!("{:?}", parse("[[")), format!("{:?}", parse("[[")));
}

#[test]
fn a_clone_of_a_tree_is_the_same_tree() {
    let tree = parse("+[>[-]<,.]").unwrap();
    let copy: Vec<AST> = tree.iter().map(|node| node.clone()).collect();
    assert_eq!(show(&tree), show(&copy));
}

fn expected_by_depth(source: &str) -> Result<(), ParseError> {
    let bytes = source.as_bytes();
    let mut open_at: Vec<usize> = Vec::new();
    for (pos, byte) in bytes.iter().enumerate() {
        if *byte == b'[' {
            open_at.push(pos);
        } else if *byte == b']' && open_at.pop().is_none() {
            return Err(ParseError::UnmatchedClosingBracket { pos });
        }
    }
    match open_at.first() {
        Some(pos) => Err(ParseError::UnmatchedOpeningBracket { pos: *pos }),
        None => Ok(()),
    }
}

#[test]
fn a_source_parses_exactly_where_its_brackets_are_balanced() {
    let alphabet = ['[', ']', '[', ']', '+', '>', '.', ' '];
    let mut seed: u32 = 987654321;
    let mut parsed_ok = 0;
    let mut closing = 0;
    let mut opening = 0;
    for _ in 0..3000 {
        let mut source = String::new();
        seed = seed.wrapping_mul(1664525).wrapping_add(1013904223);
        let len = (seed >> 20) % 12;
        for _ in 0..len {
            seed = seed.wrapping_mul(1664525).wrapping_add(1013904223);
            source.push(alphabet[(seed >> 16) as usize % alphabet.len()]);
        }
        let got = parse(&source).map(|_| ());
        assert_eq!(got, expected_by_depth(&source), "{:?}", source);
        match got {
            Ok(()) => parsed_ok += 1,
            Err(ParseError::UnmatchedClosingBracket { .. }) => closing += 1,
            Err(ParseError::UnmatchedOpeningBracket { .. }) => opening += 1,
        }
    }
    assert!(parsed_ok > 100 && closing > 100 && opening > 100);
}

#[test]
fn every_whole_run_is_one_node() {
    assert_eq!(parsed("++>>--<<"), "[Add(2), Move(2), Add(-2), Move(-2)]");
    assert_eq!(parsed("[++--++]"), "[Loop([Add(2)])]");
    assert_eq!(parsed("+[>>]+"), "[Add(1), Loop([Move(2)]), Add(1)]");
    assert_eq!(parsed(".>><<>.,"), "[Output, Move(1), Output, Input]");
    assert_eq!(parse(&"+-".repeat(1000)).unwrap().len(), 1);
    assert_eq!(parse(&"+>".repeat(1000)).unwrap().len(), 2000);
}
