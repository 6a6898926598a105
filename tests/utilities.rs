use process_monitor::chars::{
    char_to_number, char_to_number_hex, print_char, to_lowercase, to_uppercase, CharError,
};
use process_monitor::cnp::{valideaza_cnp, CnpError};
use process_monitor::numeric::{
    checked_addition, checked_multiplication, gcd, is_prime, next_prime, result_checked_adition,
    result_checked_multiplication, use_function_add, use_function_multiply, OverflowError,
};
use process_monitor::text::{add_chars_n, add_chars_n_void, add_integer, add_space, add_str};

#[test]
fn gcd_values() {
    assert_eq!(gcd(12, 18), 6);
    assert_eq!(gcd(7, 13), 1);
    assert_eq!(gcd(0, 5), 0);
    assert_eq!(gcd(100, 100), 100);
}

#[test]
fn primes() {
    let small: Vec<u16> = (0..30).filter(|&x| is_prime(x)).collect();
    assert_eq!(small, vec![2, 3, 5, 7, 11, 13, 17, 19, 23, 29]);
    assert!(is_prime(65521));
    assert!(!is_prime(65535));
}

#[test]
fn next_primes() {
    assert_eq!(next_prime(13), Some(17));
    assert_eq!(next_prime(0), Some(2));
    assert_eq!(next_prime(65371), Some(65381));
    assert_eq!(next_prime(65521), None);
    assert_eq!(next_prime(u16::MAX), None);
}

#[test]
fn checked_arithmetic() {
    assert_eq!(checked_addition(13, 91), 104);
    assert_eq!(checked_multiplication(13, 91), 1183);
    assert_eq!(result_checked_adition(4000000000, 4000000000), Err(OverflowError::OverflowAddition));
    assert_eq!(result_checked_multiplication(4000000000, 4000000000), Err(OverflowError::OverflowMultiplication));
    assert_eq!(result_checked_multiplication(0, 4000000000), Ok(0));
    assert_eq!(use_function_add(1, 2), Ok(3));
    assert_eq!(use_function_multiply(65536, 65536), Err(OverflowError::OverflowMultiplication));
    assert_eq!(use_function_multiply(65535, 65537), Ok(u32::MAX));
}

#[test]
fn letter_case() {
    assert_eq!(to_uppercase('b'), Ok('B'));
    assert_eq!(to_lowercase('A'), Ok('a'));
    assert_eq!(to_uppercase('1'), Err(CharError::NotLetter('1')));
    assert_eq!(to_lowercase(' '), Err(CharError::NotLetter(' ')));
    assert_eq!(to_uppercase('ß'), Ok('ß'));
    assert_eq!(to_lowercase('🦀'), Err(CharError::NotLetter('🦀')));
}

#[test]
fn printable() {
    assert_eq!(print_char('A'), Ok('A'));
    assert_eq!(print_char(' '), Ok(' '));
    assert_eq!(print_char('\n'), Ok('\n'));
    assert_eq!(print_char('\u{7}'), Err(CharError::NotPrintable('\u{7}')));
    assert_eq!(print_char('🦀'), Err(CharError::NotPrintable('🦀')));
}

#[test]
fn digits() {
    assert_eq!(char_to_number('7'), Ok(7));
    assert_eq!(char_to_number('b'), Err(CharError::NotDigit('b')));
    assert_eq!(char_to_number('🦀'), Err(CharError::NotASCII('🦀')));
    assert_eq!(char_to_number_hex('f'), Ok(15));
    assert_eq!(char_to_number_hex('A'), Ok(10));
    assert_eq!(char_to_number_hex('9'), Ok(9));
    assert_eq!(char_to_number_hex('g'), Err(CharError::NotBase16('g')));
    assert_eq!(char_to_number_hex('é'), Err(CharError::NotASCII('é')));
}

#[test]
fn cnp_codes() {
    assert_eq!(valideaza_cnp("6050620170043"), Ok(()));
    assert_eq!(valideaza_cnp("1800101221144"), Ok(()));
    assert_eq!(valideaza_cnp("2010819209915"), Err(CnpError::CifraControlIncorecta));
    assert_eq!(valideaza_cnp("🦀"), Err(CnpError::LungimeGresita));
    assert_eq!(valideaza_cnp("1961301123457"), Err(CnpError::Luna));
    assert_eq!(valideaza_cnp("1960132123457"), Err(CnpError::Zi));
    assert_eq!(valideaza_cnp("9960101123457"), Err(CnpError::PrimaCifra));
    assert_eq!(valideaza_cnp("19601011234a7"), Err(CnpError::CifraControlIncorecta));
}

#[test]
fn string_building() {
    assert_eq!(add_chars_n(String::from("x"), 'a', 3), "xaaa");
    let mut s = String::new();
    add_chars_n_void(&mut s, 'z', 2);
    add_space(&mut s, 3);
    add_str(&mut s, String::from("ok"));
    assert_eq!(s, "zz   ok");
}

#[test]
fn integers_with_separators() {
    let mut s = String::new();
    add_integer(&mut s, 306437968);
    assert_eq!(s, "306_437_968");
    let mut s = String::new();
    add_integer(&mut s, 0);
    assert_eq!(s, "0");
    let mut s = String::from("n=");
    add_integer(&mut s, 1234);
    assert_eq!(s, "n=123_4");
    let mut s = String::new();
    add_integer(&mut s, u32::MAX);
    assert_eq!(s, "429_496_729_5");
}
