use game_client::wire::{move_command, poll_request};

#[test]
fn poll_request_bytes() {
    assert_eq!(poll_request(), b"update\n".to_vec());
}

#[test]
fn move_command_bytes() {
    assert_eq!(move_command(7, 1, -1), b"move 7 1 -1\n".to_vec());
    assert_eq!(move_command(0, 0, 0), b"move 0 0 0\n".to_vec());
    assert_eq!(move_command(12, -1, 0), b"move 12 -1 0\n".to_vec());
}

#[test]
fn move_command_extremes() {
    assert_eq!(
        move_command(u32::MAX, i32::MIN, i32::MAX),
        b"move 4294967295 -2147483648 2147483647\n".to_vec()
    );
}
