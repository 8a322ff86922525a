use tiered_smt::{read_options_from, write_options_into, DebugOptions, DecodeError};

fn round_trip(options: DebugOptions) -> Vec<u8> {
    let mut bytes = Vec::new();
    write_options_into(&mut bytes, &options);
    let mut pos = 0usize;
    assert_eq!(read_options_from(&bytes, &mut pos), Ok(options));
    assert_eq!(pos, bytes.len());
    bytes
}

#[test]
fn options_round_trip() {
    assert_eq!(round_trip(DebugOptions::StackAll), vec![0]);
    assert_eq!(round_trip(DebugOptions::StackTop(0x0102)), vec![1, 2, 1]);
    assert_eq!(round_trip(DebugOptions::MemAll), vec![2]);
    assert_eq!(
        round_trip(DebugOptions::MemInterval(0x01020304, 7)),
        vec![3, 4, 3, 2, 1, 7, 0, 0, 0]
    );
    assert_eq!(
        round_trip(DebugOptions::LocalInterval((1, 2), 3, true)),
        vec![4, 1, 0, 0, 0, 2, 0, 0, 0, 3, 0, 0, 0, 1]
    );
    assert_eq!(round_trip(DebugOptions::All(u32::MAX)), vec![5, 255, 255, 255, 255]);
}

#[test]
fn options_read_at_position() {
    let mut bytes = vec![9u8, 9];
    write_options_into(&mut bytes, &DebugOptions::MemInterval(5, 6));
    write_options_into(&mut bytes, &DebugOptions::StackAll);
    let mut pos = 2usize;
    assert_eq!(read_options_from(&bytes, &mut pos), Ok(DebugOptions::MemInterval(5, 6)));
    assert_eq!(pos, 11);
    assert_eq!(read_options_from(&bytes, &mut pos), Ok(DebugOptions::StackAll));
    assert_eq!(pos, 12);
    assert_eq!(read_options_from(&bytes, &mut pos), Err(DecodeError::UnexpectedEOF));
    assert_eq!(pos, 12);
}

#[test]
fn options_read_errors() {
    let mut pos = 0usize;
    assert_eq!(read_options_from(&[1, 0, 0], &mut pos), Err(DecodeError::InvalidValue(0)));
    assert_eq!(pos, 0);
    assert_eq!(read_options_from(&[6], &mut pos), Err(DecodeError::InvalidValue(6)));
    assert_eq!(read_options_from(&[1, 5], &mut pos), Err(DecodeError::UnexpectedEOF));
    assert_eq!(read_options_from(&[3, 0, 0, 0, 0, 1], &mut pos), Err(DecodeError::UnexpectedEOF));
    assert_eq!(
        read_options_from(&[4, 0, 0, 0, 0, 1, 0, 0, 0, 2, 0, 0, 0, 2], &mut pos),
        Err(DecodeError::InvalidValue(2))
    );
    assert_eq!(read_options_from(&[], &mut pos), Err(DecodeError::UnexpectedEOF));
    assert_eq!(pos, 0);
}

#[test]
fn options_text() {
    assert_eq!(DebugOptions::StackAll.to_string(), "stack");
    assert_eq!(DebugOptions::StackTop(16).to_string(), "stack.16");
    assert_eq!(DebugOptions::MemAll.to_string(), "mem");
    assert_eq!(DebugOptions::MemInterval(0, 4294967295).to_string(), "mem.0.4294967295");
    assert_eq!(DebugOptions::LocalInterval((3, 10), 12, false).to_string(), "local.3.10");
    assert_eq!(DebugOptions::LocalInterval((0, 11), 12, true).to_string(), "local");
    assert_eq!(DebugOptions::All(4).to_string(), "all");
}
