use dns_packet::{PacketBuffer, PacketError};

fn filled_with_name(name: &str, at: usize) -> PacketBuffer {
    let mut buffer = PacketBuffer::new();
    buffer.seek(at).unwrap();
    buffer.write_qname(name).unwrap();
    buffer
}

#[test]
fn new_buffer_is_zeroed_with_cursor_at_start() {
    let mut buffer = PacketBuffer::new();
    assert_eq!(buffer.pos(), 0);
    assert_eq!(buffer.get(0), Ok(0));
    assert_eq!(buffer.get(511), Ok(0));
}

#[test]
fn step_and_seek_move_the_cursor_without_checks() {
    let mut buffer = PacketBuffer::new();
    buffer.step(5).unwrap();
    assert_eq!(buffer.pos(), 5);
    buffer.seek(600).unwrap();
    assert_eq!(buffer.pos(), 600);
    buffer.seek(0).unwrap();
    assert_eq!(buffer.pos(), 0);
}

#[test]
fn set_then_get_returns_the_byte() {
    let mut buffer = PacketBuffer::new();
    buffer.set(0, 0xAB).unwrap();
    buffer.set(200, 0x01).unwrap();
    buffer.set(511, 0xFF).unwrap();
    assert_eq!(buffer.get(0), Ok(0xAB));
    assert_eq!(buffer.get(200), Ok(0x01));
    assert_eq!(buffer.get(511), Ok(0xFF));
    assert_eq!(buffer.pos(), 0);
}

#[test]
fn absolute_access_rejects_offsets_past_the_end() {
    let mut buffer = PacketBuffer::new();
    assert_eq!(buffer.set(512, 1), Err(PacketError::OutOfBounds));
    assert_eq!(buffer.get(512), Err(PacketError::OutOfBounds));
    assert_eq!(buffer.set(511, 1), Ok(()));
    assert_eq!(buffer.get(511), Ok(1));
}

#[test]
fn set_works_after_the_cursor_has_moved_far_past_the_offset() {
    let mut buffer = PacketBuffer::new();
    buffer.seek(400).unwrap();
    buffer.write(9).unwrap();
    buffer.set(3, 0x77).unwrap();
    assert_eq!(buffer.get(3), Ok(0x77));
    assert_eq!(buffer.pos(), 401);
}

#[test]
fn set_u16_stores_big_endian_and_checks_its_extent() {
    let mut buffer = PacketBuffer::new();
    buffer.set_u16(100, 0xABCD).unwrap();
    assert_eq!(buffer.get(100), Ok(0xAB));
    assert_eq!(buffer.get(101), Ok(0xCD));
    assert_eq!(buffer.set_u16(511, 0x0102), Err(PacketError::OutOfBounds));
    assert_eq!(buffer.set_u16(510, 0x0102), Ok(()));
}

#[test]
fn get_range_views_bytes_and_checks_its_extent() {
    let mut buffer = PacketBuffer::new();
    buffer.set(10, 1).unwrap();
    buffer.set(11, 2).unwrap();
    buffer.set(12, 3).unwrap();
    assert_eq!(buffer.get_range(10, 3).unwrap(), &[1, 2, 3][..]);
    assert_eq!(buffer.get_range(510, 3), Err(PacketError::OutOfBounds));
    assert_eq!(buffer.get_range(512, 1), Err(PacketError::OutOfBounds));
    assert_eq!(buffer.get_range(510, 2).unwrap(), &[0, 0][..]);
}

#[test]
fn u16_round_trips_through_the_same_position() {
    for &val in &[0u16, 1, 0x00FF, 0xABCD, 0xFFFF] {
        let mut buffer = PacketBuffer::new();
        buffer.seek(37).unwrap();
        buffer.write_u16(val).unwrap();
        assert_eq!(buffer.pos(), 39);
        buffer.seek(37).unwrap();
        assert_eq!(buffer.read_u16(), Ok(val));
        assert_eq!(buffer.pos(), 39);
    }
}

#[test]
fn u32_round_trips_through_the_same_position() {
    for &val in &[0u32, 1, 0x1234_5678, 0xDEAD_BEEF, 0xFFFF_FFFF] {
        let mut buffer = PacketBuffer::new();
        buffer.seek(200).unwrap();
        buffer.write_u32(val).unwrap();
        assert_eq!(buffer.pos(), 204);
        buffer.seek(200).unwrap();
        assert_eq!(buffer.read_u32(), Ok(val));
        assert_eq!(buffer.pos(), 204);
    }
}

#[test]
fn multi_byte_values_are_stored_big_endian() {
    let mut buffer = PacketBuffer::new();
    buffer.write_u16(0x0102).unwrap();
    buffer.write_u32(0x0A0B_0C0D).unwrap();
    assert_eq!(buffer.get_range(0, 6).unwrap(), &[1, 2, 10, 11, 12, 13][..]);
    assert_eq!(buffer.pos(), 6);
}

#[test]
fn read_fails_once_the_cursor_leaves_the_buffer() {
    let mut buffer = PacketBuffer::new();
    buffer.seek(511).unwrap();
    assert_eq!(buffer.read(), Ok(0));
    assert_eq!(buffer.read(), Err(PacketError::OutOfBounds));
    assert_eq!(buffer.read_u16(), Err(PacketError::OutOfBounds));
    assert_eq!(buffer.read_u32(), Err(PacketError::OutOfBounds));
}

#[test]
fn read_u16_straddling_the_end_fails_after_its_first_byte() {
    let mut buffer = PacketBuffer::new();
    buffer.seek(511).unwrap();
    assert_eq!(buffer.read_u16(), Err(PacketError::OutOfBounds));
    assert_eq!(buffer.pos(), 512);
}

#[test]
fn write_succeeds_at_the_last_byte_and_fails_past_it() {
    let mut buffer = PacketBuffer::new();
    buffer.seek(511).unwrap();
    assert_eq!(buffer.write(0x55), Ok(()));
    assert_eq!(buffer.pos(), 512);
    assert_eq!(buffer.write(0x66), Err(PacketError::OutOfBounds));
    assert_eq!(buffer.write_u8(0x66), Err(PacketError::OutOfBounds));
    assert_eq!(buffer.get(511), Ok(0x55));
}

#[test]
fn google_com_decodes_and_consumes_twelve_bytes() {
    let buffer = filled_with_name("google.com", 0);
    let mut buffer = buffer;
    buffer.seek(0).unwrap();
    let mut name = String::new();
    assert_eq!(buffer.read_qname(&mut name), Ok(()));
    assert_eq!(name, "google.com");
    assert_eq!(buffer.pos(), 12);
}

#[test]
fn decoded_labels_are_folded_to_lower_case() {
    let mut buffer = filled_with_name("GooGLE.CoM", 0);
    buffer.seek(0).unwrap();
    let mut name = String::new();
    buffer.read_qname(&mut name).unwrap();
    assert_eq!(name, "google.com");
}

#[test]
fn empty_name_decodes_to_empty_string_and_consumes_one_byte() {
    let mut buffer = PacketBuffer::new();
    buffer.seek(7).unwrap();
    let mut name = String::new();
    assert_eq!(buffer.read_qname(&mut name), Ok(()));
    assert_eq!(name, "");
    assert_eq!(buffer.pos(), 8);
}

#[test]
fn pointer_decodes_the_name_at_its_target_in_two_bytes() {
    let mut buffer = filled_with_name("example.com", 2);
    buffer.set(40, 0xC0).unwrap();
    buffer.set(41, 2).unwrap();

    let mut direct = String::new();
    buffer.seek(2).unwrap();
    buffer.read_qname(&mut direct).unwrap();

    let mut via_pointer = String::new();
    buffer.seek(40).unwrap();
    assert_eq!(buffer.read_qname(&mut via_pointer), Ok(()));

    assert_eq!(via_pointer, direct);
    assert_eq!(via_pointer, "example.com");
    assert_eq!(buffer.pos(), 42);
}

#[test]
fn labels_before_a_pointer_prefix_the_target_name() {
    let mut buffer = filled_with_name("org", 2);
    buffer.seek(30).unwrap();
    buffer.write(4).unwrap();
    buffer.write(b'w').unwrap();
    buffer.write(b'i').unwrap();
    buffer.write(b'k').unwrap();
    buffer.write(b'i').unwrap();
    buffer.write(0xC0).unwrap();
    buffer.write(2).unwrap();

    let mut name = String::new();
    buffer.seek(30).unwrap();
    assert_eq!(buffer.read_qname(&mut name), Ok(()));
    assert_eq!(name, "wiki.org");
    assert_eq!(buffer.pos(), 37);
}

#[test]
fn self_pointer_fails_with_the_jump_limit_error() {
    let mut buffer = PacketBuffer::new();
    buffer.set(0, 0xC0).unwrap();
    buffer.set(1, 0).unwrap();
    buffer.seek(0).unwrap();
    let mut name = String::new();
    assert_eq!(
        buffer.read_qname(&mut name),
        Err(PacketError::JumpLimitExceeded)
    );
}

#[test]
fn long_pointer_cycle_fails_instead_of_looping() {
    let mut buffer = PacketBuffer::new();
    for hop in 0..6u16 {
        let at = (hop * 2) as usize;
        let target = ((hop + 1) % 6) * 2;
        buffer.set(at, 0xC0).unwrap();
        buffer.set(at + 1, target as u8).unwrap();
    }
    buffer.seek(0).unwrap();
    let mut name = String::new();
    assert_eq!(
        buffer.read_qname(&mut name),
        Err(PacketError::JumpLimitExceeded)
    );
}

#[test]
fn read_qname_fails_when_a_label_runs_past_the_end() {
    let mut buffer = PacketBuffer::new();
    buffer.set(509, 5).unwrap();
    buffer.set(510, b'a').unwrap();
    buffer.set(511, b'b').unwrap();
    buffer.seek(509).unwrap();
    let mut name = String::new();
    assert_eq!(buffer.read_qname(&mut name), Err(PacketError::OutOfBounds));
}

#[test]
fn write_qname_emits_length_prefixed_labels_and_a_terminator() {
    let mut buffer = PacketBuffer::new();
    assert_eq!(buffer.write_qname("google.com"), Ok(()));
    assert_eq!(buffer.pos(), 12);
    let expected: &[u8] = &[
        6, b'g', b'o', b'o', b'g', b'l', b'e', 3, b'c', b'o', b'm', 0,
    ];
    assert_eq!(buffer.get_range(0, 12).unwrap(), expected);
}

#[test]
fn write_qname_of_the_empty_name_emits_two_bytes() {
    let mut buffer = PacketBuffer::new();
    assert_eq!(buffer.write_qname(""), Ok(()));
    assert_eq!(buffer.pos(), 2);
    assert_eq!(buffer.get_range(0, 2).unwrap(), &[0, 0][..]);
}

#[test]
fn write_then_read_qname_round_trips() {
    let mut buffer = PacketBuffer::new();
    buffer.seek(12).unwrap();
    buffer.write_qname("mail.example.org").unwrap();
    buffer.seek(12).unwrap();
    let mut name = String::new();
    buffer.read_qname(&mut name).unwrap();
    assert_eq!(name, "mail.example.org");
}

#[test]
fn write_qname_rejects_a_long_label_without_tearing_it() {
    let mut buffer = PacketBuffer::new();
    let long_label = "x".repeat(64);
    let name = format!("ab.{}", long_label);
    assert_eq!(buffer.write_qname(&name), Err(PacketError::LabelTooLong));
    assert_eq!(buffer.get(0), Ok(2));
    assert_eq!(buffer.get(1), Ok(b'a'));
    assert_eq!(buffer.get(2), Ok(b'b'));
    assert_eq!(buffer.get(3), Ok(0));
    assert_eq!(buffer.pos(), 3);
}

#[test]
fn write_qname_accepts_a_label_of_the_maximum_length() {
    let mut buffer = PacketBuffer::new();
    let label = "y".repeat(63);
    assert_eq!(buffer.write_qname(&label), Ok(()));
    assert_eq!(buffer.pos(), 65);
    assert_eq!(buffer.get(0), Ok(63));
    assert_eq!(buffer.get(64), Ok(0));
}

#[test]
fn write_qname_fails_when_the_name_does_not_fit() {
    let mut buffer = PacketBuffer::new();
    buffer.seek(505).unwrap();
    assert_eq!(
        buffer.write_qname("abcdefgh.ij"),
        Err(PacketError::OutOfBounds)
    );
    assert_eq!(buffer.pos(), 512);
    assert_eq!(buffer.get(505), Ok(8));
    assert_eq!(buffer.get(506), Ok(b'a'));
    assert_eq!(buffer.get(511), Ok(b'f'));
}

#[test]
fn backpatching_corrects_an_earlier_field_after_later_writes() {
    let mut buffer = PacketBuffer::new();
    buffer.write_u16(0).unwrap();
    buffer.write_qname("host.test").unwrap();
    let answer_count = 1u16;
    buffer.set_u16(0, answer_count).unwrap();
    buffer.seek(0).unwrap();
    assert_eq!(buffer.read_u16(), Ok(1));
    let mut name = String::new();
    buffer.read_qname(&mut name).unwrap();
    assert_eq!(name, "host.test");
}
