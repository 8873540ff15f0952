use bfrunner::run::{STATUS_FAILED, STATUS_MALFORMED};
use bfrunner::{
    run_or_placeholder, run_to_buffer, run_to_string, BrainfuckError, InputStream, IoError,
    ParseError, RuntimeError,
};

const HELLO: &str = "++++++++[>++++[>++>+++>+++>+<<<<-]>+>+>->>+[<]<-]>>.>---.+++++++..+++.>>.<-.<.+++.------.--------.>>+.>++.";

#[test]
fn three_increments_and_an_output_give_the_byte_three() {
    let mut input = InputStream::new(Vec::new());
    let output = run_to_string("+++.", &mut input).unwrap();
    assert_eq!(output.as_bytes(), &[3]);
}

#[test]
fn the_hello_program_has_106_characters() {
    assert_eq!(HELLO.len(), 106);
}

#[test]
fn echo_leaves_no_input() {
    let mut input = InputStream::new(b"Hello!".to_vec());
    assert_eq!(run_to_string(",[.,]", &mut input).unwrap(), "Hello!");
    assert_eq!(input.remaining(), 0);
}

#[test]
fn only_the_input_that_was_read_is_gone() {
    let mut input = InputStream::new(b"abc".to_vec());
    assert_eq!(run_to_string(",.,.", &mut input).unwrap(), "ab");
    assert_eq!(input.remaining(), 1);
    assert_eq!(input.read_byte(), Some(b'c'));
}

#[test]
fn an_empty_program_gives_empty_text() {
    let mut input = InputStream::new(b"abc".to_vec());
    assert_eq!(run_to_string("", &mut input).unwrap(), "");
    assert_eq!(input.remaining(), 3);
}

#[test]
fn multi_byte_text_is_decoded() {
    let mut input = InputStream::new("é日".as_bytes().to_vec());
    assert_eq!(run_to_string(",[.,]", &mut input).unwrap(), "é日");
}

#[test]
fn a_stray_closing_bracket_is_a_parse_error() {
    let mut input = InputStream::new(b"abc".to_vec());
    let result = run_to_string("]", &mut input);
    assert!(matches!(
        result,
        Err(BrainfuckError::Parse(ParseError::UnmatchedClosingBracket { pos: 0 }))
    ));
    assert_eq!(input.remaining(), 3);
}

#[test]
fn an_unclosed_bracket_is_a_parse_error() {
    let mut input = InputStream::new(Vec::new());
    let result = run_to_string("[", &mut input);
    assert!(matches!(
        result,
        Err(BrainfuckError::Parse(ParseError::UnmatchedOpeningBracket { pos: 0 }))
    ));
}

#[test]
fn leaving_the_tape_is_a_runtime_error() {
    let mut input = InputStream::new(Vec::new());
    let result = run_to_string("+.<.", &mut input);
    assert!(matches!(result, Err(BrainfuckError::Runtime(RuntimeError::PointerOutOfBounds))));
}

#[test]
fn output_that_is_no_text_is_a_decoding_error() {
    let mut input = InputStream::new(Vec::new());
    match run_to_string("-.", &mut input) {
        Err(BrainfuckError::String(e)) => assert_eq!(e.into_bytes(), vec![255]),
        other => panic!("{:?}", other),
    }
    let mut input = InputStream::new(vec![0xe6, 0x97]);
    assert!(matches!(run_to_string(",[.,]", &mut input), Err(BrainfuckError::String(_))));
}

#[test]
fn errors_convert_into_the_pipeline_error() {
    let e: BrainfuckError = ParseError::UnmatchedOpeningBracket { pos: 4 }.into();
    assert!(matches!(e, BrainfuckError::Parse(ParseError::UnmatchedOpeningBracket { pos: 4 })));
    let e: BrainfuckError = RuntimeError::PointerOutOfBounds.into();
    assert!(matches!(e, BrainfuckError::Runtime(RuntimeError::PointerOutOfBounds)));
    let e: RuntimeError = IoError::WriteZero.into();
    assert_eq!(e, RuntimeError::Io(IoError::WriteZero));
    let e: BrainfuckError = String::from_utf8(vec![0xff]).unwrap_err().into();
    assert!(matches!(e, BrainfuckError::String(_)));
}

#[test]
fn a_run_into_a_buffer_reports_the_bytes_written() {
    assert_eq!(run_to_buffer("+++.", Vec::new(), 10), (1, vec![3]));
    assert_eq!(run_to_buffer(HELLO, Vec::new(), 64), (13, b"Hello World!\n".to_vec()));
    assert_eq!(run_to_buffer(HELLO, Vec::new(), 13), (13, b"Hello World!\n".to_vec()));
    assert_eq!(run_to_buffer("", Vec::new(), 0), (0, vec![]));
    assert_eq!(run_to_buffer(",[.,]", b"Hello!".to_vec(), 6), (6, b"Hello!".to_vec()));
}

#[test]
fn a_run_into_a_buffer_that_is_too_small_reports_what_was_written() {
    assert_eq!(run_to_buffer("+.+.+.", Vec::new(), 2), (2, vec![1, 2]));
    assert_eq!(run_to_buffer(",[.,]", b"Hello!".to_vec(), 3), (3, b"Hel".to_vec()));
    assert_eq!(run_to_buffer(".", Vec::new(), 0), (0, vec![]));
    assert_eq!(run_to_buffer(HELLO, Vec::new(), 12), (12, b"Hello World!".to_vec()));
    assert_eq!(run_to_buffer(HELLO, Vec::new(), 1), (1, b"H".to_vec()));
}

#[test]
fn a_run_into_a_full_buffer_stops_at_the_byte_that_finds_no_room() {
    assert_eq!(run_to_buffer("+.+.<", Vec::new(), 1), (1, vec![1]));
    assert_eq!(run_to_buffer("+.<", Vec::new(), 1), (STATUS_FAILED, vec![1]));
    assert_eq!(run_to_buffer("+.+[.]", Vec::new(), 3), (3, vec![1, 2, 2]));
}

#[test]
fn a_run_into_a_buffer_tells_failures_apart() {
    assert_eq!(run_to_buffer("]", Vec::new(), 10), (STATUS_MALFORMED, vec![]));
    assert_eq!(run_to_buffer("+.[", Vec::new(), 10), (STATUS_MALFORMED, vec![]));
    assert_eq!(run_to_buffer("+.<", Vec::new(), 10), (STATUS_FAILED, vec![1]));
    assert_eq!(run_to_buffer("<", Vec::new(), 0), (STATUS_FAILED, vec![]));
    assert_eq!(run_to_buffer("+.", Vec::new(), 10), (1, vec![1]));
    assert_eq!(STATUS_MALFORMED, -3);
    assert_eq!(STATUS_FAILED, -4);
}

#[test]
fn a_run_into_a_buffer_may_write_bytes_that_are_no_text() {
    assert_eq!(run_to_buffer("-.", Vec::new(), 4), (1, vec![255]));
}

#[test]
fn the_placeholder_stands_for_every_failure() {
    assert_eq!(run_or_placeholder(HELLO), "Hello World!\n");
    assert_eq!(run_or_placeholder("+++[-]"), "");
    assert_eq!(run_or_placeholder("]"), "<compile-time error>");
    assert_eq!(run_or_placeholder("["), "<compile-time error>");
    assert_eq!(run_or_placeholder("<"), "<compile-time error>");
    assert_eq!(run_or_placeholder("-."), "<compile-time error>");
    assert_eq!(run_or_placeholder(",."), "\0");
}
