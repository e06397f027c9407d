use algorithms::karatsuba::{karatsuba, krec, split};

#[test]
fn test_karatsuba() {
    let f = |x: u64, y: u64| -> () {
        let z = karatsuba(x, y);
        assert_eq!(z, x * y);
    };
    for i in 0..1000 {
        for j in 0..1000 {
            f(i, j);
        }
    }
}

#[test]
fn karatsuba_of_large_factors() {
    assert_eq!(karatsuba(1234567, 9876543), 12193254061881);
    assert_eq!(karatsuba(4294967295, 4294967295), 18446744065119617025);
    assert_eq!(karatsuba(u64::MAX, 1), u64::MAX);
    assert_eq!(karatsuba(0, u64::MAX), 0);
    assert_eq!(krec(3, 5, 2), 15);
    assert_eq!(krec(1 << 40, 1 << 20, 8), 1 << 60);
}

#[test]
fn split_takes_the_low_bits() {
    assert_eq!(split(0xABCD, 8), (0xCD, 0xAB));
    assert_eq!(split(5, 0), (0, 5));
    assert_eq!(split(u64::MAX, 63), (u64::MAX >> 1, 1));
}
