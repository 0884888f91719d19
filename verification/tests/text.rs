use ddbug::error::Error;
use ddbug::expression::{evaluate, Location};
use ddbug::text::{
    format_bit, write_bits, write_decimal, write_digit, write_hexadecimal, write_signed, write_tabs,
};

#[test]
fn bits_in_bytes_and_bits() {
    assert_eq!(format_bit(0), "0");
    assert_eq!(format_bit(7), "0.7");
    assert_eq!(format_bit(8), "1");
    assert_eq!(format_bit(12), "1.4");
    assert_eq!(format_bit(64), "8");
    assert_eq!(format_bit(u64::max_value()), "2305843009213693951.7");
}

#[test]
fn different_sizes_are_written_differently() {
    let mut texts: Vec<String> = (0..2000).map(format_bit).collect();
    texts.sort();
    texts.dedup();
    assert_eq!(texts.len(), 2000);
}

#[test]
fn numbers() {
    let mut w = String::from("<");
    write_decimal(&mut w, 0);
    w.push(' ');
    write_decimal(&mut w, 18446744073709551615);
    w.push(' ');
    write_hexadecimal(&mut w, 0);
    w.push(' ');
    write_hexadecimal(&mut w, 0xdead_beef_0123_4567);
    w.push(' ');
    write_digit(&mut w, 15);
    write_tabs(&mut w, 3);
    write_bits(&mut w, 33);
    assert_eq!(w, "<0 18446744073709551615 0 deadbeef01234567 f\t\t\t4.1");
}

#[test]
fn signed_numbers() {
    for &n in [0, 1, -1, 9, -10, i64::max_value(), i64::min_value()].iter() {
        let mut w = String::new();
        write_signed(&mut w, n);
        assert_eq!(w, format!("{}", n));
    }
}

#[test]
fn errors_keep_their_words() {
    assert_eq!(Error::from("no").description(), "no");
    assert_eq!(Error::from(String::from("neither")).description(), "neither");
}

#[test]
fn one_piece_is_a_location() {
    assert_eq!(evaluate(&vec![Location::Address(8)]).unwrap(), Location::Address(8));
    assert_eq!(evaluate(&vec![Location::Other]).unwrap(), Location::Other);
    assert_eq!(
        evaluate(&vec![]).unwrap_err().description(),
        "unsupported number of evaluation pieces: 0"
    );
    assert_eq!(
        evaluate(&vec![Location::Other, Location::Address(1)]).unwrap_err().description(),
        "unsupported number of evaluation pieces: 2"
    );
}
