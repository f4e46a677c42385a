use triviumdb::storage::frame::{find_checksum, frame, read_frames};

fn records(bytes: &Vec<u8>) -> Vec<Vec<u8>> {
    read_frames(bytes).into_iter().map(|framed| framed.record).collect()
}

fn log(list: &[&[u8]]) -> Vec<u8> {
    list.iter().flat_map(|record| frame(&record.to_vec()).unwrap()).collect()
}

#[test]
fn a_checksum_is_the_usual_one() {
    let text = b"123456789".to_vec();
    assert_eq!(find_checksum(&text, 0, text.len()), 0xcbf4_3926);
    assert_eq!(find_checksum(&text, 3, 3), 0);
    assert_eq!(find_checksum(&b"x123456789y".to_vec(), 1, 10), 0xcbf4_3926);
}

#[test]
fn a_frame_holds_length_checksum_and_record() {
    let bytes = frame(&b"123456789".to_vec()).unwrap();
    assert_eq!(bytes[..8], [9, 0, 0, 0, 0x26, 0x39, 0xf4, 0xcb]);
    assert_eq!(bytes[8..], b"123456789"[..]);
    assert!(frame(&Vec::new()).is_none());
}

#[test]
fn frames_are_read_back() {
    let bytes = log(&[b"one", b"two and more", b"x"]);
    let list = read_frames(&bytes);
    assert_eq!(records(&bytes), vec![b"one".to_vec(), b"two and more".to_vec(), b"x".to_vec()]);
    let ends: Vec<usize> = list.iter().map(|framed| framed.end).collect();
    assert_eq!(ends, vec![11, 31, 40]);
    assert!(records(&Vec::new()).is_empty());
}

#[test]
fn a_log_that_was_cut_off_is_read_up_to_the_cut() {
    let bytes = log(&[b"one", b"two"]);
    for cut in 0..=bytes.len() {
        let whole = if cut < 11 { 0 } else if cut < 22 { 1 } else { 2 };
        assert_eq!(records(&bytes[..cut].to_vec()).len(), whole);
    }
}

#[test]
fn damaged_records_end_a_log() {
    let whole = log(&[b"one", b"two", b"three"]);
    let mut damaged = whole.clone();
    damaged[20] ^= 1;
    assert_eq!(records(&damaged), vec![b"one".to_vec()]);
    let mut padded = whole.clone();
    padded.extend_from_slice(&[0u8; 64]);
    assert_eq!(records(&padded).len(), 3);
}
