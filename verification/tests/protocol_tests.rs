use canvas_replica::protocol::{
    all_pixels_frame, bytes_equal, candidate_frame, command, join_bytes, copy_range, disconnect_frame,
    format_u16, leader_frame, new_connection_frame, parse_disconnect, parse_election, parse_frame,
    parse_u16,
    split_word, sync_frame, trim_bytes, Frame, ProtocolError,
};

#[test]
fn raw_pixel_is_the_whole_trimmed_line() {
    let line = b"  {\"x\":0,\"y\":0,\"colour\":7,\"updated\":1}\r\n";
    assert_eq!(
        parse_frame(line),
        Ok(Frame::Pixel(b"{\"x\":0,\"y\":0,\"colour\":7,\"updated\":1}".to_vec()))
    );
}

#[test]
fn empty_line_is_an_empty_raw_pixel() {
    assert_eq!(parse_frame(b""), Ok(Frame::Pixel(Vec::new())));
    assert_eq!(parse_frame(b" \t\r\n"), Ok(Frame::Pixel(Vec::new())));
}

#[test]
fn sync_frame_carries_its_json() {
    assert_eq!(parse_frame(b"/sync {\"a\": 1}"), Ok(Frame::Sync(b"{\"a\": 1}".to_vec())));
}

#[test]
fn all_pixels_frame_carries_its_json() {
    assert_eq!(parse_frame(b"/all_pixels [1, 2]\n"), Ok(Frame::AllPixels(b"[1, 2]".to_vec())));
}

#[test]
fn new_connection_frame_carries_its_json() {
    assert_eq!(parse_frame(b"/new_connection {}"), Ok(Frame::NewConnection(b"{}".to_vec())));
}

#[test]
fn candidate_token_is_read() {
    assert_eq!(parse_frame(b"/election election 3"), Ok(Frame::Candidate(3)));
    assert_eq!(parse_frame(b"/election election 65535\n"), Ok(Frame::Candidate(65535)));
}

#[test]
fn leader_announcement_is_read() {
    assert_eq!(parse_frame(b"/election leader 12"), Ok(Frame::Leader(12)));
}

#[test]
fn election_id_that_is_no_number_is_refused() {
    assert_eq!(parse_frame(b"/election leader x"), Err(ProtocolError::MalformedId));
    assert_eq!(parse_frame(b"/election election abc"), Err(ProtocolError::MalformedId));
    assert_eq!(parse_frame(b"/election election 65536"), Err(ProtocolError::MalformedId));
    assert_eq!(parse_frame(b"/election election  5"), Err(ProtocolError::MalformedId));
    assert_eq!(parse_election(b"leader "), Err(ProtocolError::MalformedId));
    assert_eq!(parse_election(b"leader -3"), Err(ProtocolError::MalformedId));
}

#[test]
fn election_kind_without_an_id_is_refused() {
    assert_eq!(parse_frame(b"/election election"), Err(ProtocolError::MissingArgument));
    assert_eq!(parse_frame(b"/election leader "), Err(ProtocolError::MissingArgument));
    assert_eq!(parse_election(b"leader"), Err(ProtocolError::MissingArgument));
}

#[test]
fn unknown_election_kind_is_an_error() {
    assert_eq!(parse_frame(b"/election vote 3"), Err(ProtocolError::UnknownElectionKind));
    assert_eq!(parse_frame(b"/election vote x"), Err(ProtocolError::UnknownElectionKind));
    assert_eq!(parse_election(b""), Err(ProtocolError::UnknownElectionKind));
}

#[test]
fn disconnect_frame_is_read() {
    assert_eq!(parse_frame(b"/disconnect 2"), Ok(Frame::Disconnect(2)));
    assert_eq!(parse_disconnect(b"65535"), Ok(Frame::Disconnect(65535)));
}

#[test]
fn disconnect_frame_that_names_nobody_is_refused() {
    assert_eq!(parse_frame(b"/disconnect two"), Err(ProtocolError::MalformedId));
    assert_eq!(parse_frame(b"/disconnect 2 3"), Err(ProtocolError::MalformedId));
    assert_eq!(parse_disconnect(b""), Err(ProtocolError::MalformedId));
}

#[test]
fn unknown_command_is_an_error() {
    assert_eq!(parse_frame(b"/paint 1"), Err(ProtocolError::UnknownCommand));
    assert_eq!(parse_frame(b"/"), Err(ProtocolError::UnknownCommand));
    assert_eq!(parse_frame(b"/syncx {}"), Err(ProtocolError::UnknownCommand));
    assert_eq!(parse_frame(b"/sync\t{}"), Err(ProtocolError::UnknownCommand));
}

#[test]
fn command_without_argument_is_an_error() {
    assert_eq!(parse_frame(b"/sync"), Err(ProtocolError::MissingArgument));
    assert_eq!(parse_frame(b"/election"), Err(ProtocolError::MissingArgument));
    assert_eq!(parse_frame(b"/disconnect\n"), Err(ProtocolError::MissingArgument));
    assert_eq!(parse_frame(b"/new_connection"), Err(ProtocolError::MissingArgument));
    assert_eq!(parse_frame(b"/all_pixels"), Err(ProtocolError::MissingArgument));
}

#[test]
fn ids_are_read_as_decimal_numbers() {
    assert_eq!(parse_u16(b"0"), Some(0));
    assert_eq!(parse_u16(b"7"), Some(7));
    assert_eq!(parse_u16(b"007"), Some(7));
    assert_eq!(parse_u16(b"+7"), Some(7));
    assert_eq!(parse_u16(b"65535"), Some(65535));
    assert_eq!(parse_u16(b"0000000000000000000065535"), Some(65535));
}

#[test]
fn ids_that_do_not_fit_or_are_no_numbers_are_refused() {
    assert_eq!(parse_u16(b"65536"), None);
    assert_eq!(parse_u16(b"99999999999999999999999"), None);
    assert_eq!(parse_u16(b""), None);
    assert_eq!(parse_u16(b"+"), None);
    assert_eq!(parse_u16(b"-1"), None);
    assert_eq!(parse_u16(b"1 "), None);
    assert_eq!(parse_u16(b" 1"), None);
    assert_eq!(parse_u16(b"1a"), None);
    assert_eq!(parse_u16(b"++1"), None);
}

#[test]
fn ids_are_written_without_leading_zeros() {
    assert_eq!(format_u16(0), b"0".to_vec());
    assert_eq!(format_u16(9), b"9".to_vec());
    assert_eq!(format_u16(10), b"10".to_vec());
    assert_eq!(format_u16(4096), b"4096".to_vec());
    assert_eq!(format_u16(65535), b"65535".to_vec());
}

#[test]
fn written_ids_are_read_back() {
    for id in [0u16, 1, 9, 10, 99, 100, 12345, 65535] {
        assert_eq!(parse_u16(&format_u16(id)), Some(id));
    }
}

#[test]
fn frames_are_written_as_the_grammar_says() {
    assert_eq!(candidate_frame(3), b"/election election 3".to_vec());
    assert_eq!(leader_frame(12), b"/election leader 12".to_vec());
    assert_eq!(disconnect_frame(65535), b"/disconnect 65535".to_vec());
    assert_eq!(sync_frame(b"{}"), b"/sync {}".to_vec());
    assert_eq!(new_connection_frame(b"{\"from\":1}"), b"/new_connection {\"from\":1}".to_vec());
    assert_eq!(all_pixels_frame(b"[]"), b"/all_pixels []".to_vec());
    assert_eq!(command(b"/x", b"y z"), b"/x y z".to_vec());
}

#[test]
fn written_frames_are_read_back() {
    for id in [0u16, 5, 300, 65535] {
        assert_eq!(parse_frame(&candidate_frame(id)), Ok(Frame::Candidate(id)));
        assert_eq!(parse_frame(&leader_frame(id)), Ok(Frame::Leader(id)));
        assert_eq!(parse_frame(&disconnect_frame(id)), Ok(Frame::Disconnect(id)));
    }
    assert_eq!(parse_frame(&sync_frame(b"{\"k\": [1, 2]}")), Ok(Frame::Sync(b"{\"k\": [1, 2]}".to_vec())));
}

#[test]
fn trimming_strips_white_space_at_both_ends_only() {
    assert_eq!(trim_bytes(b" \t a b \r\n"), b"a b".to_vec());
    assert_eq!(trim_bytes(b"ab"), b"ab".to_vec());
    assert_eq!(trim_bytes(b"\x0b\x0c"), Vec::<u8>::new());
    assert_eq!(trim_bytes(b"\x00 a"), b"\x00 a".to_vec());
}

#[test]
fn words_are_split_at_the_first_space() {
    assert_eq!(split_word(b"a b c"), (b"a".to_vec(), Some(b"b c".to_vec())));
    assert_eq!(split_word(b"abc"), (b"abc".to_vec(), None));
    assert_eq!(split_word(b"abc "), (b"abc".to_vec(), Some(Vec::new())));
    assert_eq!(split_word(b" abc"), (Vec::new(), Some(b"abc".to_vec())));
    assert_eq!(split_word(b"a\tb"), (b"a\tb".to_vec(), None));
}

#[test]
fn byte_helpers_work_on_ranges() {
    assert_eq!(copy_range(b"abcdef", 2, 4), b"cd".to_vec());
    assert_eq!(copy_range(b"abcdef", 3, 3), Vec::<u8>::new());
    assert_eq!(join_bytes(b"ab", b"cd"), b"abcd".to_vec());
    assert!(bytes_equal(b"abc", b"abc"));
    assert!(!bytes_equal(b"abc", b"abd"));
    assert!(!bytes_equal(b"abc", b"ab"));
}
