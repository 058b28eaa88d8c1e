use diceware::sampler::{compose_code, gen_rnd_number, CODE_DIGITS, DIGIT_MAX, DIGIT_MIN};

fn digits_of(mut code: usize) -> Vec<usize> {
    let mut digits = Vec::new();
    for _ in 0..CODE_DIGITS {
        digits.push(code % 10);
        code /= 10;
    }
    assert_eq!(code, 0);
    digits
}

#[test]
fn constants_are_five_digits_from_one_to_eight() {
    assert_eq!(CODE_DIGITS, 5);
    assert_eq!(DIGIT_MIN, 1);
    assert_eq!(DIGIT_MAX, 8);
}

#[test]
fn first_digit_is_least_significant() {
    assert_eq!(compose_code(&[1, 2, 3, 4, 5]), 54321);
    assert_eq!(compose_code(&[5, 4, 3, 2, 1]), 12345);
    assert_eq!(compose_code(&[8, 1, 1, 1, 1]), 11118);
    assert_eq!(compose_code(&[1, 1, 1, 1, 8]), 81111);
}

#[test]
fn code_is_sum_of_digits_times_powers_of_ten() {
    let digits = [3usize, 8, 1, 6, 2];
    let mut sum = 0;
    for i in 0..5 {
        sum += digits[i] * 10usize.pow(i as u32);
    }
    assert_eq!(sum, 26183);
    assert_eq!(compose_code(&digits), sum);
}

#[test]
fn extreme_digits_give_extreme_codes() {
    assert_eq!(compose_code(&[1, 1, 1, 1, 1]), 11111);
    assert_eq!(compose_code(&[8, 8, 8, 8, 8]), 88888);
    assert_eq!(compose_code(&[0, 0, 0, 0, 0]), 0);
    assert_eq!(compose_code(&[9, 9, 9, 9, 9]), 99999);
    assert_eq!(compose_code(&[0, 0, 0, 0, 1]), 10000);
}

#[test]
fn digits_can_be_read_back_from_the_code() {
    for digits in [[1usize, 2, 3, 4, 5], [8, 7, 6, 5, 4], [1, 1, 8, 8, 1], [6, 6, 6, 6, 6]] {
        assert_eq!(digits_of(compose_code(&digits)), digits.to_vec());
    }
}

#[test]
fn same_digits_give_same_code() {
    let digits = [4usize, 2, 7, 7, 1];
    assert_eq!(compose_code(&digits), compose_code(&digits));
    assert_eq!(compose_code(&digits), 17724);
    assert_ne!(compose_code(&digits), compose_code(&[4, 2, 7, 1, 7]));
}

#[test]
fn sampled_codes_have_five_digits_from_one_to_eight() {
    let mut rng = rand::thread_rng();
    for _ in 0..20_000 {
        let code = gen_rnd_number(&mut rng);
        assert!(11111 <= code && code <= 88888);
        for digit in digits_of(code) {
            assert!(DIGIT_MIN <= digit && digit <= DIGIT_MAX);
        }
    }
}

#[test]
fn sampled_digits_take_every_value_at_every_place() {
    let mut rng = rand::thread_rng();
    let mut seen = [[false; 10]; 5];
    for _ in 0..20_000 {
        let digits = digits_of(gen_rnd_number(&mut rng));
        for place in 0..5 {
            seen[place][digits[place]] = true;
        }
    }
    for place in 0..5 {
        for digit in 0..10 {
            assert_eq!(seen[place][digit], (1..=8).contains(&digit));
        }
    }
}
