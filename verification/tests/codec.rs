use game_client::codec::{decode_chunk, parse_i32, parse_u32, parse_u64, Command};

fn decode(bytes: &[u8]) -> Vec<Command> {
    decode_chunk(&bytes.to_vec())
}

#[test]
fn parse_u32_plain() {
    assert_eq!(parse_u32(&b"7".to_vec()), Some(7));
    assert_eq!(parse_u32(&b"0".to_vec()), Some(0));
    assert_eq!(parse_u32(&b"007".to_vec()), Some(7));
    assert_eq!(parse_u32(&b"4294967295".to_vec()), Some(u32::MAX));
}

#[test]
fn parse_u32_sign_and_garbage() {
    assert_eq!(parse_u32(&b"+42".to_vec()), Some(42));
    assert_eq!(parse_u32(&b"".to_vec()), None);
    assert_eq!(parse_u32(&b"+".to_vec()), None);
    assert_eq!(parse_u32(&b"-3".to_vec()), None);
    assert_eq!(parse_u32(&b"12a".to_vec()), None);
    assert_eq!(parse_u32(&b"1 2".to_vec()), None);
}

#[test]
fn parse_u32_overflow() {
    assert_eq!(parse_u32(&b"4294967296".to_vec()), None);
    assert_eq!(parse_u32(&b"99999999999999999999".to_vec()), None);
}

#[test]
fn parse_u64_count_field() {
    assert_eq!(parse_u64(&b"18446744073709551615".to_vec()), Some(u64::MAX));
    assert_eq!(parse_u64(&b"18446744073709551616".to_vec()), None);
    assert_eq!(parse_u64(&b"2".to_vec()), Some(2));
}

#[test]
fn parse_i32_signs() {
    assert_eq!(parse_i32(&b"-3".to_vec()), Some(-3));
    assert_eq!(parse_i32(&b"+5".to_vec()), Some(5));
    assert_eq!(parse_i32(&b"2147483647".to_vec()), Some(i32::MAX));
    assert_eq!(parse_i32(&b"-2147483648".to_vec()), Some(i32::MIN));
}

#[test]
fn parse_i32_out_of_range() {
    assert_eq!(parse_i32(&b"2147483648".to_vec()), None);
    assert_eq!(parse_i32(&b"-2147483649".to_vec()), None);
    assert_eq!(parse_i32(&b"-".to_vec()), None);
    assert_eq!(parse_i32(&b"--1".to_vec()), None);
}

#[test]
fn decode_init() {
    let cmds = decode(b"GAMESERVER init 7\n");
    assert_eq!(cmds.len(), 1);
    match &cmds[0] {
        Command::Init(id) => assert_eq!(*id, 7),
        _ => panic!("expected an init command"),
    }
}

#[test]
fn decode_update() {
    let cmds = decode(b"GAMESERVER update 2 7 1 2 9 3 4\n");
    assert_eq!(cmds.len(), 1);
    match &cmds[0] {
        Command::Update(ts) => assert_eq!(ts, &vec![(7, 1, 2), (9, 3, 4)]),
        _ => panic!("expected an update command"),
    }
}

#[test]
fn decode_update_empty_snapshot() {
    let cmds = decode(b"GAMESERVER update 0\n");
    assert_eq!(cmds.len(), 1);
    match &cmds[0] {
        Command::Update(ts) => assert!(ts.is_empty()),
        _ => panic!("expected an update command"),
    }
}

#[test]
fn decode_count_mismatch_drops_whole_command() {
    assert_eq!(decode(b"GAMESERVER update 3 1 2\n").len(), 0);
    assert_eq!(decode(b"GAMESERVER update 1 7 1 2 9 3 4\n").len(), 0);
    assert_eq!(decode(b"GAMESERVER update 2 7 1 2\n").len(), 0);
}

#[test]
fn decode_bad_number_drops_whole_command() {
    assert_eq!(decode(b"GAMESERVER update 2 7 1 2 9 x 4\n").len(), 0);
    assert_eq!(decode(b"GAMESERVER update two 7 1 2\n").len(), 0);
    assert_eq!(decode(b"GAMESERVER init abc\n").len(), 0);
    assert_eq!(decode(b"GAMESERVER init -1\n").len(), 0);
}

#[test]
fn decode_unknown_or_missing_sentinel() {
    assert_eq!(decode(b"GAMESERVER frobnicate 1\n").len(), 0);
    assert_eq!(decode(b"update 1 1 1 1\n").len(), 0);
    assert_eq!(decode(b"GAMESERVER\n").len(), 0);
    assert_eq!(decode(b"GAMESERVER init\n").len(), 0);
    assert_eq!(decode(b"\n\n\n").len(), 0);
    assert_eq!(decode(b"").len(), 0);
}

#[test]
fn decode_many_commands_in_one_chunk() {
    let cmds = decode(b"GAMESERVER init 7\nGAMESERVER update 1 7 0 0\n\nGAMESERVER init 8\n");
    assert_eq!(cmds.len(), 3);
    match &cmds[0] {
        Command::Init(id) => assert_eq!(*id, 7),
        _ => panic!("expected an init command"),
    }
    match &cmds[1] {
        Command::Update(ts) => assert_eq!(ts, &vec![(7, 0, 0)]),
        _ => panic!("expected an update command"),
    }
    match &cmds[2] {
        Command::Init(id) => assert_eq!(*id, 8),
        _ => panic!("expected an init command"),
    }
}

#[test]
fn decode_extra_whitespace() {
    let cmds = decode(b"  GAMESERVER   init\t9 \r\n");
    assert_eq!(cmds.len(), 1);
    match &cmds[0] {
        Command::Init(id) => assert_eq!(*id, 9),
        _ => panic!("expected an init command"),
    }
}

#[test]
fn decode_trailing_line_without_newline() {
    let cmds = decode(b"GAMESERVER init 5");
    assert_eq!(cmds.len(), 1);
    match &cmds[0] {
        Command::Init(id) => assert_eq!(*id, 5),
        _ => panic!("expected an init command"),
    }
}

#[test]
fn command_split_across_reads_is_dropped() {
    // No reassembly across non-blocking reads: each half is malformed on
    // its own and decodes to nothing.
    assert_eq!(decode(b"GAMESERVER upd").len(), 0);
    assert_eq!(decode(b"ate 1 7 1 2\n").len(), 0);
}

#[test]
fn decode_init_ignores_trailing_fields() {
    let cmds = decode(b"GAMESERVER init 7 junk\n");
    assert_eq!(cmds.len(), 1);
    match &cmds[0] {
        Command::Init(id) => assert_eq!(*id, 7),
        _ => panic!("expected an init command"),
    }
}
