use gensuite_helper::pi::compute_pi;

#[test]
fn pi_zero_digits() {
    assert_eq!(compute_pi(0), "3.");
}

#[test]
fn pi_one_digit() {
    assert_eq!(compute_pi(1), "3.1");
}

#[test]
fn pi_ten_digits() {
    assert_eq!(compute_pi(10), "3.1415926536");
}

#[test]
fn pi_fifty_digits() {
    assert_eq!(
        compute_pi(50),
        "3.14159265358979323846264338327950288419716939937511"
    );
}

#[test]
fn pi_hundred_digits() {
    assert_eq!(
        compute_pi(100),
        "3.1415926535897932384626433832795028841971693993751058209749445923078164062862089986280348253421170680"
    );
}

#[test]
fn pi_fractional_length_matches_request() {
    for digits in [0u32, 1, 2, 7, 25, 64] {
        let s = compute_pi(digits);
        let (head, tail) = s.split_at(2);
        assert_eq!(head, "3.");
        assert_eq!(tail.len(), digits as usize);
    }
}

#[test]
fn pi_repeated_calls_agree() {
    assert_eq!(compute_pi(10), compute_pi(10));
    assert_eq!(compute_pi(33), compute_pi(33));
}
