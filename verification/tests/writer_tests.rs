use elm327::writer::command_frame;
use elm327::writer::COMMAND_TERMINATOR;

#[test]
fn command_frame_appends_carriage_return() {
    assert_eq!(command_frame("ATZ"), b"ATZ\r".to_vec());
    assert_eq!(command_frame("01 0C"), b"01 0C\r".to_vec());
}

#[test]
fn command_frame_of_empty_command() {
    assert_eq!(command_frame(""), vec![COMMAND_TERMINATOR]);
}

#[test]
fn command_frame_keeps_utf8_bytes() {
    let framed = command_frame("é");
    let mut expected = "é".as_bytes().to_vec();
    expected.push(b'\r');
    assert_eq!(framed, expected);
}
