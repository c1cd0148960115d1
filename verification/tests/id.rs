use rand::Rng;
use rusip::msg::id::{token, word};

#[test]
fn empty_test() {
    assert_eq!(token(&[], &mut []), 0);
    assert_eq!(word(&[], &mut []), 0);
}

const TOKEN_CHARS: &str = "-.!*_+`'~0123456789abcdefghijklmnopqrstuvwxyzABCDEFGHIJKLMNOPQRSTUVWXYZ";
const WORD_CHARS: &str =
    "-.!*_+`'~()<>:\\\"/[]?{}0123456789abcdefghijklmnopqrstuvwxyzABCDEFGHIJKLMNOPQRSTUVWXYZ";

fn is_token_char(ch: &u8) -> bool {
    TOKEN_CHARS.as_bytes().contains(ch)
}

fn is_word_char(ch: &u8) -> bool {
    WORD_CHARS.as_bytes().contains(ch)
}

#[test]
fn token_test() {
    let mut rnd = rand::thread_rng();
    let mut output = vec![0; 100];
    for _ in 0..100 {
        let input: [u8; 30] = rand::random();
        let size = token(&input[..rnd.gen_range(1, 30)], &mut output);
        assert!(size > 0);
        println!("token is {}", String::from_utf8(output[0..size].to_vec()).unwrap());
        output[0..size].into_iter().for_each(|ch| assert!(is_token_char(ch)));
    }
}

#[test]
fn word_test() {
    let mut rnd = rand::thread_rng();
    let mut output = vec![0; 100];
    for _ in 0..100 {
        let input: [u8; 30] = rand::random();
        let size = word(&input[..rnd.gen_range(1, 30)], &mut output);
        assert!(size > 0);
        println!("word is {}", String::from_utf8(output[0..size].to_vec()).unwrap());
        output[0..size].into_iter().for_each(|ch| assert!(is_word_char(ch)));
    }
}

#[test]
fn output_is_not_enough_test() {
    assert_eq!(token(&[1], &mut []), 0);
    assert_eq!(word(&[4, 6], &mut []), 0);

    let mut output = vec![0; 2];
    assert_eq!(token(&[1, 3, 4], &mut output), 2);
    assert_eq!(word(&[223, 45], &mut output), 2);
}

#[test]
fn the_digits_of_a_number_to_the_base_of_the_alphabet() {
    let mut output = [0u8; 8];
    // 1 is below the 71 characters of the alphabet: one digit, the second character.
    assert_eq!(token(&[1], &mut output), 1);
    assert_eq!(&output[..1], ".".as_bytes());
    // 0 makes nothing.
    assert_eq!(token(&[0], &mut output), 0);
    // 200 = 2 * 71 + 58: the digits 58 and 2.
    assert_eq!(token(&[200], &mut output), 2);
    assert_eq!(&output[..2], "N!".as_bytes());
    // 1 * 256 + 3 = 259 = 3 * 71 + 46: the digit 46, then 3 * 256 + 4 = 772 = 10 * 71 + 62,
    // then 10.
    assert_eq!(token(&[1, 3, 4], &mut output), 3);
    assert_eq!(&output[..3], "BR1".as_bytes());
    // The alphabet of a word has 84 characters. 223 = 2 * 84 + 55: the digit 55, then
    // 2 * 256 + 45 = 557 = 6 * 84 + 53, then 6.
    assert_eq!(word(&[223, 45], &mut output), 3);
    assert_eq!(&output[..3], "xv`".as_bytes());
    assert_eq!(output[3], 0);
}
