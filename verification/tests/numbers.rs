use chomp::decimal::parsenum;
use chomp::modexp::modexp;
use chomp::toyrsa::{draws_again, plaintext, public_key, totient_factors, EXP};

/// Tests the modexp function
#[test]
fn test_modexp() {
    // Largest prime less than 2**64.
    // https://primes.utm.edu/lists/2small/0bit.html
    let bigm = u64::max_value() - 58;
    assert_eq!(0, modexp(bigm - 2, bigm - 1, 1));
    assert_eq!(1, modexp(bigm - 2, bigm - 1, bigm));
    assert_eq!(827419628471527655, modexp(bigm - 2, (1 << 32) + 1, bigm));
    // https://practice.geeksforgeeks.org/problems/
    //    modular-exponentiation-for-large-numbers/0
    assert_eq!(4, modexp(10, 9, 6));
    assert_eq!(34, modexp(450, 768, 517));
    let max = u64::max_value();
    assert_eq!(3, modexp(max, max, 6));
    assert_eq!(1, modexp(0, 0, 4))
}

#[test]
fn modexp_small_cases() {
    assert_eq!(modexp(2, 10, 1000), 24);
    assert_eq!(modexp(2, 10, 1025), 1024);
    assert_eq!(modexp(7, 0, 13), 1);
    assert_eq!(modexp(7, 1, 13), 7);
    assert_eq!(modexp(0, 5, 13), 0);
    assert_eq!(modexp(0, 0, 1), 0);
    assert_eq!(modexp(13, 5, 13), 0);
    assert_eq!(modexp(u64::MAX, 1, u64::MAX), 0);
    assert_eq!(modexp(u64::MAX, 2, u64::MAX - 1), 1);
    assert_eq!(modexp(3, 4, u64::MAX), 81);
}

#[test]
fn modexp_agrees_with_repeated_multiplication() {
    for m in 1..40u64 {
        for x in 0..12u64 {
            let mut expected = 1 % m;
            for y in 0..12u64 {
                assert_eq!(modexp(x, y, m), expected);
                expected = expected * x % m;
            }
        }
    }
}

#[test]
fn modexp_encrypts_as_rsa_does() {
    assert_eq!(modexp(0x12345f, EXP, 0xde9c5816141c8ba9), 0x6418280e0c4d7675);
}

#[test]
fn parsenum_reads_what_the_standard_parser_reads() {
    let texts = [
        "0",
        "7",
        "42",
        "+42",
        "00012",
        "18446744073709551615",
        "+18446744073709551615",
        "18446744073709551616",
        "18446744073709551620",
        "99999999999999999999",
        "000000000000000000000000000001",
        "",
        "+",
        "-",
        "-1",
        "++1",
        "+-1",
        "1+",
        " 1",
        "1 ",
        "1_000",
        "12a",
        "a12",
        "0x10",
        "1.5",
        "\u{0661}\u{0662}",
        "1\u{00e9}",
        "/",
        ":",
    ];
    for text in texts {
        assert_eq!(parsenum(text), text.parse::<u64>().ok(), "{:?}", text);
    }
}

#[test]
fn parsenum_exact_values() {
    assert_eq!(parsenum("0"), Some(0));
    assert_eq!(parsenum("65537"), Some(65537));
    assert_eq!(parsenum("+9"), Some(9));
    assert_eq!(parsenum("18446744073709551615"), Some(u64::MAX));
    assert_eq!(parsenum("18446744073709551616"), None);
    assert_eq!(parsenum(""), None);
    assert_eq!(parsenum("+"), None);
    assert_eq!(parsenum("12 "), None);
}

#[test]
fn exponent_is_the_fourth_fermat_prime() {
    assert_eq!(EXP, 65_537);
}

#[test]
fn primes_are_drawn_again_only_below_the_exponent_with_a_common_factor() {
    assert!(draws_again(65_536, 2));
    assert!(draws_again(0, 65_537));
    assert!(!draws_again(65_536, 1));
    assert!(!draws_again(65_537, 65_537));
    assert!(!draws_again(65_538, 2));
    assert!(!draws_again(u64::MAX, 1));
}

#[test]
fn public_key_is_the_product() {
    assert_eq!(public_key((0xed23e6cd, 0xf050a04d)), 0xde9c5816141c8ba9);
    assert_eq!(public_key((0, 7)), 0);
    assert_eq!(public_key((u32::MAX, u32::MAX)), 0xfffffffe00000001);
    assert_eq!(totient_factors((0xed23e6cd, 0xf050a04d)), (0xed23e6cc, 0xf050a04c));
    assert_eq!(totient_factors((1, u32::MAX)), (0, 0xfffffffe));
}

#[test]
fn plaintext_is_a_value_of_32_bits() {
    assert_eq!(plaintext(0x12345f), Some(0x12345f));
    assert_eq!(plaintext(0), Some(0));
    assert_eq!(plaintext(0xffff_ffff), Some(u32::MAX));
    assert_eq!(plaintext(0x1_0000_0000), None);
    assert_eq!(plaintext(u64::MAX), None);
}
