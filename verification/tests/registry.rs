use nak::protocol::{ReadPipe, WritePipe};
use nak::registry::{PipeError, Registry, Source};

#[test]
fn first_reference_makes_the_pipe() {
    let mut r = Registry::new();
    assert!(!r.knows(3));
    assert_eq!(r.read_end(ReadPipe(3)), Ok(Source::NewPipe));
    assert!(r.knows(3));
    assert_eq!(r.write_end(WritePipe(3)), Ok(Source::Parked));
}

#[test]
fn writer_first_then_reader() {
    let mut r = Registry::new();
    assert_eq!(r.write_end(WritePipe(1)), Ok(Source::NewPipe));
    assert_eq!(r.read_end(ReadPipe(1)), Ok(Source::Parked));
}

#[test]
fn no_second_reader_and_no_second_writer() {
    let mut r = Registry::new();
    assert_eq!(r.read_end(ReadPipe(0)), Ok(Source::NewPipe));
    assert_eq!(r.read_end(ReadPipe(0)), Err(PipeError::SideTaken));
    assert_eq!(r.write_end(WritePipe(0)), Ok(Source::Parked));
    assert_eq!(r.write_end(WritePipe(0)), Err(PipeError::SideTaken));
    assert_eq!(r.read_end(ReadPipe(0)), Err(PipeError::SideTaken));
}

#[test]
fn output_file_can_only_be_written() {
    let mut r = Registry::new();
    assert_eq!(r.open_output_file(WritePipe(5)), Ok(()));
    assert_eq!(r.read_end(ReadPipe(5)), Err(PipeError::SideTaken));
    assert_eq!(r.write_end(WritePipe(5)), Ok(Source::Parked));
    assert_eq!(r.write_end(WritePipe(5)), Err(PipeError::SideTaken));
}

#[test]
fn input_file_can_only_be_read() {
    let mut r = Registry::new();
    assert_eq!(r.open_input_file(ReadPipe(6)), Ok(()));
    assert_eq!(r.write_end(WritePipe(6)), Err(PipeError::SideTaken));
    assert_eq!(r.read_end(ReadPipe(6)), Ok(Source::Parked));
}

#[test]
fn file_needs_an_unknown_pipe() {
    let mut r = Registry::new();
    assert_eq!(r.read_end(ReadPipe(2)), Ok(Source::NewPipe));
    assert_eq!(r.open_output_file(WritePipe(2)), Err(PipeError::AlreadyOpen));
    assert_eq!(r.open_input_file(ReadPipe(2)), Err(PipeError::AlreadyOpen));
    assert_eq!(r.write_end(WritePipe(2)), Ok(Source::Parked));
}
