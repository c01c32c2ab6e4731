use digital_composer::midi::{get_track_notes, MidiError};

const EOT: [u8; 4] = [0x00, 0xFF, 0x2F, 0x00];

fn with_eot(body: &[u8]) -> Vec<u8> {
    let mut v = body.to_vec();
    v.extend_from_slice(&EOT);
    v
}

#[test]
fn empty_track_yields_no_notes() {
    let data = with_eot(&[]);
    assert_eq!(get_track_notes(&data, 0), Ok(vec![]));
}

#[test]
fn single_note_on() {
    let data = with_eot(&[0x00, 0x90, 60, 100]);
    assert_eq!(get_track_notes(&data, 0), Ok(vec![60]));
}

#[test]
fn note_on_with_zero_velocity_is_excluded() {
    let data = with_eot(&[0x00, 0x90, 60, 0]);
    assert_eq!(get_track_notes(&data, 0), Ok(vec![]));
}

#[test]
fn running_status_reuses_last_event() {
    // the second and third events carry no status byte of their own
    let data = with_eot(&[0x00, 0x90, 60, 100, 0x00, 64, 100, 0x00, 67, 100]);
    assert_eq!(get_track_notes(&data, 0), Ok(vec![60, 64, 67]));
}

#[test]
fn note_off_consumes_second_param() {
    let data = with_eot(&[0x00, 0x80, 60, 0x40]);
    assert_eq!(get_track_notes(&data, 0), Ok(vec![]));
}

#[test]
fn controller_aftertouch_pitchbend_are_skipped() {
    let data = with_eot(&[
        0x00, 0xB0, 7, 100, // controller
        0x00, 0xA0, 60, 50, // aftertouch
        0x00, 0xE0, 0x00, 0x40, // pitch bend
        0x00, 0x90, 72, 90, // a real note-on
    ]);
    assert_eq!(get_track_notes(&data, 0), Ok(vec![72]));
}

#[test]
fn program_change_has_no_extra_param() {
    let data = with_eot(&[0x00, 0xC0, 5, 0x00, 0x90, 48, 80]);
    assert_eq!(get_track_notes(&data, 0), Ok(vec![48]));
}

#[test]
fn meta_event_is_skipped_by_declared_length() {
    // a tempo meta event (type 0x51, three data bytes), then a note
    let data = with_eot(&[0x00, 0xFF, 0x51, 0x03, 0x07, 0xA1, 0x20, 0x00, 0x90, 62, 70]);
    assert_eq!(get_track_notes(&data, 0), Ok(vec![62]));
}

#[test]
fn sysex_is_skipped_by_declared_length() {
    // status 0xF0, one byte read as the first parameter, then a two-byte payload
    let data = with_eot(&[0x00, 0xF0, 0x7D, 0x02, 0xAB, 0xCD, 0x00, 0x90, 65, 70]);
    assert_eq!(get_track_notes(&data, 0), Ok(vec![65]));
}

#[test]
fn missing_end_of_track_is_an_error() {
    let data = vec![0x00, 0x90, 60, 100];
    assert_eq!(get_track_notes(&data, 0), Err(MidiError::UnexpectedEndOfTrack));
}

#[test]
fn truncated_event_is_an_error() {
    let data = vec![0x00, 0x90, 60];
    assert_eq!(get_track_notes(&data, 0), Err(MidiError::TruncatedStream));
}

#[test]
fn truncated_meta_payload_is_an_error() {
    // the meta event declares five data bytes but only one follows
    let data = vec![0x00, 0xFF, 0x51, 0x05, 0x01];
    assert_eq!(get_track_notes(&data, 0), Err(MidiError::TruncatedStream));
}

#[test]
fn scan_starts_at_given_position() {
    let mut data = vec![0xAA, 0xBB];
    data.extend_from_slice(&[0x00, 0x90, 60, 100]);
    data.extend_from_slice(&EOT);
    assert_eq!(get_track_notes(&data, 2), Ok(vec![60]));
}
