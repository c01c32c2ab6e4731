use digital_composer::midi::{get_notes, MidiError};

const EOT: [u8; 4] = [0x00, 0xFF, 0x2F, 0x00];

/// A file header declaring `ntracks` tracks.
fn header(ntracks: u16) -> Vec<u8> {
    let mut v = vec![0x4D, 0x54, 0x68, 0x64, 0x00, 0x00, 0x00, 0x06, 0x00, 0x01];
    v.push((ntracks >> 8) as u8);
    v.push((ntracks & 0xFF) as u8);
    v.extend_from_slice(&[0x00, 0x30]);
    v
}

/// A track chunk with the given body.
fn track_chunk(body: &[u8]) -> Vec<u8> {
    let mut v = vec![0x4D, 0x54, 0x72, 0x6B];
    v.extend_from_slice(&(body.len() as u32).to_be_bytes());
    v.extend_from_slice(body);
    v
}

/// A track body with a note-on/note-off pair per pitch and the end marker.
fn body_for(pitches: &[u8]) -> Vec<u8> {
    let mut v = Vec::new();
    for &p in pitches {
        v.extend_from_slice(&[0x00, 0x90, p, 100, 0x00, 0x80, p, 0x40]);
    }
    v.extend_from_slice(&EOT);
    v
}

#[test]
fn zero_bytes_header_is_invalid_file() {
    let data = vec![0u8; 20];
    assert_eq!(get_notes(&data, 0), Err(MidiError::InvalidFile(None)));
}

#[test]
fn wrong_magic_is_invalid_file() {
    let mut data = header(1);
    data[0] = 0x4E;
    assert_eq!(get_notes(&data, 0), Err(MidiError::InvalidFile(None)));
}

#[test]
fn track_index_out_of_range_is_rejected_before_tracks_are_read() {
    // no track chunk follows at all: the bounds check must fire first
    let data = header(1);
    assert_eq!(get_notes(&data, 1), Err(MidiError::InvalidTrackNumber(1)));
    assert_eq!(get_notes(&data, 7), Err(MidiError::InvalidTrackNumber(7)));
}

#[test]
fn single_track_three_notes() {
    let mut data = header(1);
    data.extend_from_slice(&track_chunk(&body_for(&[60, 64, 67])));
    assert_eq!(get_notes(&data, 0), Ok(vec![60, 64, 67]));
}

#[test]
fn second_track_is_found_by_skipping_the_first() {
    let mut data = header(2);
    // the first track's body is skipped by declared length, never parsed
    data.extend_from_slice(&track_chunk(&[0xDE, 0xAD, 0xBE, 0xEF]));
    data.extend_from_slice(&track_chunk(&body_for(&[72])));
    assert_eq!(get_notes(&data, 1), Ok(vec![72]));
}

#[test]
fn first_track_ignores_later_garbage() {
    let mut data = header(2);
    data.extend_from_slice(&track_chunk(&body_for(&[55])));
    data.extend_from_slice(&[0xFF, 0xFF]);
    assert_eq!(get_notes(&data, 0), Ok(vec![55]));
}

#[test]
fn bad_track_tag_names_the_track() {
    let mut data = header(2);
    data.extend_from_slice(&track_chunk(&body_for(&[55])));
    data.extend_from_slice(&[0x58, 0x58, 0x58, 0x58, 0, 0, 0, 0]);
    assert_eq!(get_notes(&data, 1), Err(MidiError::InvalidFile(Some(1))));
}

#[test]
fn short_file_is_truncated() {
    assert_eq!(get_notes(&vec![0x4D, 0x54], 0), Err(MidiError::TruncatedStream));
    let mut data = header(1);
    data.truncate(10);
    assert_eq!(get_notes(&data, 0), Err(MidiError::TruncatedStream));
}

#[test]
fn missing_track_chunk_is_truncated() {
    let mut data = header(1);
    data.extend_from_slice(&[0x4D, 0x54]);
    assert_eq!(get_notes(&data, 0), Err(MidiError::TruncatedStream));
}
