use sudoku::messages::MessageApp;
use sudoku::numbers::{output_sequence, print};

#[test]
fn prints_one_through_five() {
    assert_eq!(print(), b"1\n2\n3\n4\n5\n".to_vec());
}

#[test]
fn renders_multi_digit_numbers() {
    let numbers: Vec<u8> = vec![123, 45, 0, 255];
    assert_eq!(output_sequence(&numbers), b"123\n45\n0\n255\n".to_vec());
}

#[test]
fn message_app_keeps_its_port() {
    let app = MessageApp::new(8080);
    assert_eq!(app.port(), 8080);
}
