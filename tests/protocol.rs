use mini_git::protocol::{head_rev, pack_of_response};

#[test]
fn head_rev_is_read_from_first_ref_line() {
    let body = b"001e# service=git-upload-pack\n0000015547b37f1a82bfe85f6d8df52b6258b75e4343b7fd HEAD\0multi_ack\n".to_vec();
    assert_eq!(head_rev(&body), Some(b"47b37f1a82bfe85f6d8df52b6258b75e4343b7fd".to_vec()));
}

#[test]
fn head_rev_needs_preamble_and_length() {
    assert_eq!(head_rev(b"0000 HEAD"), None);
    assert_eq!(head_rev(b"001e# service=git-upload-pack\n0000ab HEAD"), None);
    assert_eq!(head_rev(b"001e# service=git-upload-pack\n0000abcdef"), Some(b"ef".to_vec()));
}

#[test]
fn pack_follows_nak_line() {
    assert_eq!(pack_of_response(b"0008NAK\nPACKdata"), Some(b"PACKdata".to_vec()));
    assert_eq!(pack_of_response(b"0008ACK\nPACK"), None);
    assert_eq!(pack_of_response(b"0008"), None);
}
