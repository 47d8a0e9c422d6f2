use vbus_log_sync::listing::{holds_text, list_datecodes, read_index, same_bytes};

#[test]
fn lists_both_anchor_forms_in_page_order() {
    let body = b"<html><a href=\"20210601_packets.vbus\">x</a>\n<a href='/log/20210602_packets.vbus'>y</a></html>";
    let codes = list_datecodes(body);
    assert_eq!(codes, vec![b"20210601".to_vec(), b"20210602".to_vec()]);
}

#[test]
fn skips_anchors_of_another_shape() {
    let body = b"<a href=\"../\">up</a><a href=\"20210601_packets.txt\">t</a><a href='/other/20210601_packets.vbus'>o</a><a href=20210601_packets.vbus>n</a>";
    assert_eq!(list_datecodes(body), Vec::<Vec<u8>>::new());
}

#[test]
fn skips_anchor_cut_off_at_the_end() {
    assert_eq!(list_datecodes(b"<a href="), Vec::<Vec<u8>>::new());
    assert_eq!(list_datecodes(b"<a href=\""), Vec::<Vec<u8>>::new());
    assert_eq!(list_datecodes(b"<a href=\"20210601_packets.vbu"), Vec::<Vec<u8>>::new());
    assert_eq!(list_datecodes(b"<a href='/log"), Vec::<Vec<u8>>::new());
    assert_eq!(list_datecodes(b""), Vec::<Vec<u8>>::new());
}

#[test]
fn takes_eight_bytes_as_they_are() {
    let body = b"<a href=\"abcdefgh_packets.vbus\">";
    assert_eq!(list_datecodes(body), vec![b"abcdefgh".to_vec()]);
}

#[test]
fn lists_a_capture_that_is_linked_twice_once() {
    let body = b"<a href=\"20210601_packets.vbus\"><a href='/log/20210601_packets.vbus'>";
    assert_eq!(list_datecodes(body), vec![b"20210601".to_vec()]);
    let mixed = b"<a href=\"20210602_packets.vbus\"><a href=\"20210601_packets.vbus\"><a href='/log/20210602_packets.vbus'><a href=\"20210603_packets.vbus\">";
    assert_eq!(
        list_datecodes(mixed),
        vec![b"20210602".to_vec(), b"20210601".to_vec(), b"20210603".to_vec()]
    );
    assert_eq!(read_index(true, body), Ok(vec![b"20210601".to_vec()]));
}

#[test]
fn texts_are_compared_and_found() {
    assert!(same_bytes(b"abc", b"abc"));
    assert!(!same_bytes(b"abc", b"abd"));
    assert!(!same_bytes(b"abc", b"ab"));
    assert!(same_bytes(b"", b""));
    let list = vec![b"one".to_vec(), b"two".to_vec()];
    assert!(holds_text(&list, b"two"));
    assert!(!holds_text(&list, b"tw"));
    assert!(!holds_text(&Vec::new(), b""));
}

#[test]
fn accepts_link_that_ends_the_page() {
    let body = b"<a href='/log/20211231_packets.vbus";
    assert_eq!(list_datecodes(body), vec![b"20211231".to_vec()]);
}

#[test]
fn index_that_failed_is_a_transport_error() {
    assert_eq!(
        vbus_log_sync::listing::read_index(false, b"<a href=\"20210601_packets.vbus\">"),
        Err(vbus_log_sync::error::Error::Transport)
    );
    assert_eq!(
        vbus_log_sync::listing::read_index(true, b"<a href=\"20210601_packets.vbus\">"),
        Ok(vec![b"20210601".to_vec()])
    );
}
