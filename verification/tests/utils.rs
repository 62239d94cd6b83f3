use rigbake::utils::{log_2, num_bits};

#[test]
fn log_2_of_powers_and_neighbours() {
    assert_eq!(log_2(1), 0);
    assert_eq!(log_2(2), 1);
    assert_eq!(log_2(3), 1);
    assert_eq!(log_2(4), 2);
    assert_eq!(log_2(1023), 9);
    assert_eq!(log_2(1024), 10);
    assert_eq!(log_2(i32::MAX), 30);
}

#[test]
fn num_bits_of_integers() {
    assert_eq!(num_bits::<i32>(), 32);
    assert_eq!(num_bits::<u8>(), 8);
    assert_eq!(num_bits::<u64>(), 64);
}
