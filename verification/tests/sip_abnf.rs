use rusip::sip_abnf::{HnvUnreserved, Mark, Token, Unreserved, UserUnreserved, Word, LWS};

#[test]
fn a_chunk_is_in_a_class_where_it_is_one_byte_of_it() {
    assert!("-".as_bytes().is_mark());
    assert!("'".as_bytes().is_mark());
    assert!(!"a".as_bytes().is_mark());
    assert!(!"--".as_bytes().is_mark());
    assert!(!"".as_bytes().is_mark());

    assert!("a".as_bytes().is_unreserved());
    assert!("9".as_bytes().is_unreserved());
    assert!("~".as_bytes().is_unreserved());
    assert!(!";".as_bytes().is_unreserved());
    assert!(!"ab".as_bytes().is_unreserved());

    assert!(";".as_bytes().is_user_unreserved());
    assert!("/".as_bytes().is_user_unreserved());
    assert!(!":".as_bytes().is_user_unreserved());

    assert!("[".as_bytes().is_hnv_unreserved());
    assert!(":".as_bytes().is_hnv_unreserved());
    assert!(!"=".as_bytes().is_hnv_unreserved());

    assert!("%".as_bytes().is_token());
    assert!("`".as_bytes().is_token());
    assert!("Z".as_bytes().is_token());
    assert!(!"(".as_bytes().is_token());
    assert!(!"é".as_bytes().is_token());

    assert!(" ".as_bytes().is_lws());
    assert!("\t".as_bytes().is_lws());
    assert!(!"\n".as_bytes().is_lws());
    assert!(!"  ".as_bytes().is_lws());

    assert!("(".as_bytes().is_word());
    assert!("\\".as_bytes().is_word());
    assert!("\"".as_bytes().is_word());
    assert!("}".as_bytes().is_word());
    assert!(!" ".as_bytes().is_word());
    assert!(!"@".as_bytes().is_word());
}
