use digital_composer::midi::{build_track_data, get_notes, write_midi_file};

#[test]
fn empty_sequence_builds_only_the_end_marker() {
    let body = build_track_data(&vec![]);
    assert_eq!(body, vec![0x00, 0xFF, 0x2F, 0x00]);
}

#[test]
fn one_note_body_structure() {
    let body = build_track_data(&vec![60]);
    assert_eq!(body.len(), 12);
    assert_eq!(&body[0..4], &[0x00, 0x91, 60, 127]);
    assert!(body[4] >= 15 && body[4] <= 30);
    assert_eq!(&body[5..8], &[0x81, 60, 0x00]);
    assert_eq!(&body[8..12], &[0x00, 0xFF, 0x2F, 0x00]);
}

#[test]
fn every_note_carries_an_explicit_status_byte() {
    let notes = vec![60, 64, 67, 72];
    let body = build_track_data(&notes);
    assert_eq!(body.len(), 8 * notes.len() + 4);
    for (i, &p) in notes.iter().enumerate() {
        let ev = &body[8 * i..8 * i + 8];
        assert_eq!(ev[0], 0x00);
        assert_eq!(ev[1], 0x91);
        assert_eq!(ev[2], p);
        assert_eq!(ev[3], 127);
        assert!(ev[4] >= 15 && ev[4] <= 30);
        assert_eq!(ev[5], 0x81);
        assert_eq!(ev[6], p);
        assert_eq!(ev[7], 0x00);
    }
}

#[test]
fn empty_track_file_is_structurally_valid() {
    let mut out = Vec::new();
    write_midi_file(&mut out, &vec![vec![]]);
    let expected_header = [
        0x4D, 0x54, 0x68, 0x64, // MThd
        0x00, 0x00, 0x00, 0x06, // header length 6
        0x00, 0x01, // format 1
        0x00, 0x01, // one track
        0x00, 0x30, // time division
    ];
    assert_eq!(&out[0..14], &expected_header);
    assert_eq!(&out[14..18], &[0x4D, 0x54, 0x72, 0x6B]);
    assert_eq!(&out[18..22], &[0x00, 0x00, 0x00, 0x04]);
    assert_eq!(&out[22..26], &[0x00, 0xFF, 0x2F, 0x00]);
    assert_eq!(out.len(), 26);
}

#[test]
fn no_tracks_writes_only_the_header() {
    let mut out = Vec::new();
    write_midi_file(&mut out, &vec![]);
    assert_eq!(out.len(), 14);
    assert_eq!(&out[10..12], &[0x00, 0x00]);
}

#[test]
fn file_appends_after_existing_bytes() {
    let mut out = vec![0xAB, 0xCD];
    write_midi_file(&mut out, &vec![]);
    assert_eq!(&out[0..2], &[0xAB, 0xCD]);
    assert_eq!(&out[2..6], &[0x4D, 0x54, 0x68, 0x64]);
    assert_eq!(out.len(), 16);
}

#[test]
fn declared_chunk_length_matches_the_body() {
    let mut out = Vec::new();
    write_midi_file(&mut out, &vec![vec![60, 64], vec![67]]);
    assert_eq!(&out[10..12], &[0x00, 0x02]);
    // first chunk: 2 notes, body 20 bytes
    assert_eq!(&out[14..18], &[0x4D, 0x54, 0x72, 0x6B]);
    assert_eq!(&out[18..22], &[0x00, 0x00, 0x00, 0x14]);
    // second chunk starts right after the first body
    let second = 22 + 20;
    assert_eq!(&out[second..second + 4], &[0x4D, 0x54, 0x72, 0x6B]);
    assert_eq!(&out[second + 4..second + 8], &[0x00, 0x00, 0x00, 0x0C]);
    assert_eq!(out.len(), second + 8 + 12);
}

#[test]
fn written_file_decodes_back_to_the_same_pitches() {
    let mut out = Vec::new();
    write_midi_file(&mut out, &vec![vec![60, 64, 67]]);
    assert_eq!(get_notes(&out, 0), Ok(vec![60, 64, 67]));
}

#[test]
fn written_second_track_decodes_independently() {
    let mut out = Vec::new();
    write_midi_file(&mut out, &vec![vec![60], vec![72, 74]]);
    assert_eq!(get_notes(&out, 0), Ok(vec![60]));
    assert_eq!(get_notes(&out, 1), Ok(vec![72, 74]));
}
