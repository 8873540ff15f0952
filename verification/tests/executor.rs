use bfrunner::{exec, parse, InputStream, IoError, OutputStream, RuntimeError, Tape, AST};

fn run(tree: &[AST], input: &[u8]) -> (Result<(), RuntimeError>, Tape, Vec<u8>, usize) {
    let mut tape = Tape::new();
    let mut input = InputStream::new(input.to_vec());
    let mut output = OutputStream::new();
    let result = exec(tree, &mut tape, &mut input, &mut output);
    (result, tape, output.into_bytes(), input.remaining())
}

#[test]
fn an_empty_program_changes_nothing() {
    let (result, tape, output, left) = run(&[], b"abc");
    assert_eq!(result, Ok(()));
    assert_eq!(tape.pointer(), 0);
    assert_eq!(tape.get(), 0);
    assert!(output.is_empty());
    assert_eq!(left, 3);
}

#[test]
fn add_wraps_upwards() {
    let (result, tape, _, _) = run(&[AST::Add(127), AST::Add(127), AST::Add(1), AST::Add(1)], b"");
    assert_eq!(result, Ok(()));
    assert_eq!(tape.get(), 0);
}

#[test]
fn add_wraps_downwards() {
    let (result, tape, _, _) = run(&[AST::Add(-1)], b"");
    assert_eq!(result, Ok(()));
    assert_eq!(tape.get(), 255);
}

#[test]
fn repeated_adds_are_one_add_of_the_sum_modulo_256() {
    let deltas: [i8; 7] = [100, 100, 100, -128, 77, -3, 127];
    for start in [0u8, 1, 17, 128, 254, 255] {
        let mut steps = vec![];
        let mut sum: i64 = 0;
        let mut tape = Tape::new();
        tape.set(start);
        for d in deltas {
            steps.push(AST::Add(d));
            sum += d as i64;
        }
        let mut input = InputStream::new(vec![]);
        let mut output = OutputStream::new();
        assert_eq!(exec(&steps, &mut tape, &mut input, &mut output), Ok(()));
        assert_eq!(tape.get() as i64, (start as i64 + sum).rem_euclid(256));
    }
    let (_, tape, _, _) = run(&[AST::Add(100), AST::Add(100), AST::Add(100)], b"");
    assert_eq!(tape.get(), 44);
}

#[test]
fn output_after_n_increments_is_n_modulo_256() {
    for n in [0usize, 1, 3, 127, 128, 255, 256, 257, 300, 1000] {
        let source = "+".repeat(n) + ".";
        let tree = parse(&source).unwrap();
        let (result, _, output, _) = run(&tree, b"");
        assert_eq!(result, Ok(()));
        assert_eq!(output, vec![(n % 256) as u8], "n = {}", n);
    }
}

#[test]
fn moves_are_applied_whole() {
    let (result, tape, _, _) = run(&[AST::Move(29_999)], b"");
    assert_eq!(result, Ok(()));
    assert_eq!(tape.pointer(), 29_999);
    let (result, tape, _, _) = run(&[AST::Move(500), AST::Move(-499)], b"");
    assert_eq!(result, Ok(()));
    assert_eq!(tape.pointer(), 1);
}

#[test]
fn a_move_of_zero_is_a_no_op() {
    let (result, tape, _, _) = run(&[AST::Move(7), AST::Move(0)], b"");
    assert_eq!(result, Ok(()));
    assert_eq!(tape.pointer(), 7);
}

#[test]
fn moving_left_of_the_tape_fails() {
    let (result, tape, _, _) = run(&[AST::Move(-1)], b"");
    assert_eq!(result, Err(RuntimeError::PointerOutOfBounds));
    assert_eq!(tape.pointer(), 0);
}

#[test]
fn moving_right_of_the_tape_fails() {
    let (result, tape, _, _) = run(&[AST::Move(29_999), AST::Move(1)], b"");
    assert_eq!(result, Err(RuntimeError::PointerOutOfBounds));
    assert_eq!(tape.pointer(), 29_999);
    let (result, tape, _, _) = run(&[AST::Move(30_000)], b"");
    assert_eq!(result, Err(RuntimeError::PointerOutOfBounds));
    assert_eq!(tape.pointer(), 0);
}

#[test]
fn extreme_moves_fail_without_overflow() {
    let (result, tape, _, _) = run(&[AST::Move(5), AST::Move(isize::MAX)], b"");
    assert_eq!(result, Err(RuntimeError::PointerOutOfBounds));
    assert_eq!(tape.pointer(), 5);
    let (result, tape, _, _) = run(&[AST::Move(5), AST::Move(isize::MIN)], b"");
    assert_eq!(result, Err(RuntimeError::PointerOutOfBounds));
    assert_eq!(tape.pointer(), 5);
}

#[test]
fn a_failed_move_aborts_the_whole_run() {
    let tree = parse("+[.<]..").unwrap();
    let (result, tape, output, _) = run(&tree, b"");
    assert_eq!(result, Err(RuntimeError::PointerOutOfBounds));
    assert_eq!(output, vec![1]);
    assert_eq!(tape.pointer(), 0);
    assert_eq!(tape.get(), 1);
}

#[test]
fn output_writes_the_current_cell() {
    let (result, _, output, _) = run(&[AST::Add(65), AST::Output, AST::Add(1), AST::Output], b"");
    assert_eq!(result, Ok(()));
    assert_eq!(output, b"AB");
}

#[test]
fn input_reads_one_byte() {
    let (result, tape, _, left) = run(&[AST::Input], b"xyz");
    assert_eq!(result, Ok(()));
    assert_eq!(tape.get(), b'x');
    assert_eq!(left, 2);
}

#[test]
fn input_at_the_end_stores_zero() {
    let (result, tape, output, left) = run(&[AST::Add(5), AST::Input, AST::Output], b"");
    assert_eq!(result, Ok(()));
    assert_eq!(tape.get(), 0);
    assert_eq!(output, vec![0]);
    assert_eq!(left, 0);
}

#[test]
fn a_loop_on_a_zero_cell_runs_no_round() {
    let tree = parse("[+.]").unwrap();
    let (result, tape, output, _) = run(&tree, b"");
    assert_eq!(result, Ok(()));
    assert_eq!(tape.get(), 0);
    assert!(output.is_empty());
}

#[test]
fn a_loop_runs_until_the_cell_is_zero() {
    let tree = parse("+++[>++<-]>.").unwrap();
    let (result, tape, output, _) = run(&tree, b"");
    assert_eq!(result, Ok(()));
    assert_eq!(output, vec![6]);
    assert_eq!(tape.pointer(), 1);
}

#[test]
fn nested_loops_multiply() {
    let tree = parse("++++[>+++[>+++++<-]<-]>>.").unwrap();
    let (result, _, output, _) = run(&tree, b"");
    assert_eq!(result, Ok(()));
    assert_eq!(output, vec![60]);
}

#[test]
fn a_full_output_stream_fails_the_write() {
    let tree = parse("+.+.+.+.").unwrap();
    let mut tape = Tape::new();
    let mut input = InputStream::new(vec![]);
    let mut output = OutputStream::with_limit(2);
    let result = exec(&tree, &mut tape, &mut input, &mut output);
    assert_eq!(result, Err(RuntimeError::Io(IoError::WriteZero)));
    assert_eq!(output.as_slice(), &[1, 2]);
    assert_eq!(tape.get(), 3);
}

#[test]
fn a_stream_filled_to_its_limit_is_no_failure() {
    let tree = parse("+.+.").unwrap();
    let mut tape = Tape::new();
    let mut input = InputStream::new(vec![]);
    let mut output = OutputStream::with_limit(2);
    assert_eq!(exec(&tree, &mut tape, &mut input, &mut output), Ok(()));
    assert_eq!(output.into_bytes(), vec![1, 2]);
}

#[test]
fn a_tree_can_be_run_again() {
    let tree = parse(",+.").unwrap();
    let (first, _, a, _) = run(&tree, b"a");
    let (second, _, b, _) = run(&tree, b"x");
    assert_eq!(first, Ok(()));
    assert_eq!(second, Ok(()));
    assert_eq!(a, b"b");
    assert_eq!(b, b"y");
}

#[test]
fn a_run_goes_on_from_the_state_it_is_given() {
    let mut tape = Tape::new();
    let mut input = InputStream::new(b"ab".to_vec());
    let mut output = OutputStream::new();
    assert_eq!(exec(&parse(">,.").unwrap(), &mut tape, &mut input, &mut output), Ok(()));
    assert_eq!(exec(&parse(">,.<.").unwrap(), &mut tape, &mut input, &mut output), Ok(()));
    assert_eq!(tape.pointer(), 1);
    assert_eq!(output.into_bytes(), b"aba");
    assert_eq!(input.remaining(), 0);
}

#[test]
fn tape_starts_blank() {
    let tape = Tape::new();
    assert_eq!(tape.pointer(), 0);
    assert_eq!(tape.get(), 0);
    let tape = Tape::default();
    assert_eq!(tape.pointer(), 0);
    assert_eq!(tape.get(), 0);
}

#[test]
fn tape_cells_keep_what_is_set() {
    let mut tape = Tape::new();
    tape.set(9);
    assert_eq!(tape.move_pointer(10), Ok(()));
    assert_eq!(tape.get(), 0);
    tape.set(200);
    assert_eq!(tape.move_pointer(-10), Ok(()));
    assert_eq!(tape.get(), 9);
    assert_eq!(tape.move_pointer(10), Ok(()));
    assert_eq!(tape.get(), 200);
}

#[test]
fn tape_pointer_stays_where_a_move_fails() {
    let mut tape = Tape::new();
    assert_eq!(tape.move_pointer(-1), Err(RuntimeError::PointerOutOfBounds));
    assert_eq!(tape.pointer(), 0);
    assert_eq!(tape.move_pointer(29_999), Ok(()));
    assert_eq!(tape.move_pointer(1), Err(RuntimeError::PointerOutOfBounds));
    assert_eq!(tape.pointer(), 29_999);
    assert_eq!(tape.move_pointer(-30_000), Err(RuntimeError::PointerOutOfBounds));
    assert_eq!(tape.pointer(), 29_999);
    assert_eq!(tape.move_pointer(-29_999), Ok(()));
    assert_eq!(tape.pointer(), 0);
}

#[test]
fn tape_clone_is_independent() {
    let mut tape = Tape::new();
    tape.set(4);
    let mut copy = tape.clone();
    copy.set(5);
    assert_eq!(tape.get(), 4);
    assert_eq!(copy.get(), 5);
}

#[test]
fn input_stream_delivers_its_bytes_in_order() {
    let mut input = InputStream::new(vec![7, 8]);
    assert_eq!(input.remaining(), 2);
    let mut rest = input.clone();
    assert_eq!(input.read_byte(), Some(7));
    assert_eq!(input.read_byte(), Some(8));
    assert_eq!(input.read_byte(), None);
    assert_eq!(input.read_byte(), None);
    assert_eq!(input.remaining(), 0);
    assert_eq!(rest.read_byte(), Some(7));
    assert_eq!(rest.remaining(), 1);
}

#[test]
fn output_stream_refuses_bytes_beyond_its_limit() {
    let mut output = OutputStream::with_limit(1);
    assert_eq!(output.write_byte(1), Ok(()));
    assert_eq!(output.write_byte(2), Err(IoError::WriteZero));
    assert_eq!(output.as_slice(), &[1]);
    let copy = output.clone();
    assert_eq!(copy.into_bytes(), vec![1]);
    let mut none = OutputStream::with_limit(0);
    assert_eq!(none.write_byte(1), Err(IoError::WriteZero));
    assert!(none.into_bytes().is_empty());
}
