use buddy_alloc::math::{math32, math64};

const FIBO32: &[usize] = &[
    0, 1, 1, 2, 3, 5, 8, 13, 21, 34, 55, 89, 144, 233, 377, 610, 987, 1597, 2584, 4181, 6765,
    10946, 17711, 28657, 46368, 75025, 121393, 196418, 317811, 514229, 832040, 1346269, 2178309,
    3524578, 5702887, 9227465, 14930352, 24157817, 39088169, 63245986, 102334155, 165580141,
    267914296, 433494437, 701408733, 1134903170, 1836311903,
];

const FIBO64: &[u64] = &[
    0, 1, 1, 2, 3, 5, 8, 13, 21, 34, 55, 89, 144, 233, 377, 610, 987, 1597, 2584, 4181, 6765,
    10946, 17711, 28657, 46368, 75025, 121393, 196418, 317811, 514229, 832040, 1346269, 2178309,
    3524578, 5702887, 9227465, 14930352, 24157817, 39088169, 63245986, 102334155, 165580141,
    267914296, 433494437, 701408733, 1134903170, 1836311903, 2971215073, 4807526976, 7778742049,
    12586269025, 20365011074, 32951280099, 53316291173, 86267571272, 139583862445,
    225851433717, 365435296162, 591286729879, 956722026041, 1548008755920, 2504730781961,
    4052739537881, 6557470319842, 10610209857723, 17167680177565, 27777890035288,
    44945570212853, 72723460248141, 117669030460994, 190392490709135, 308061521170129,
    498454011879264, 806515533049393, 1304969544928657, 2111485077978050, 3416454622906707,
    5527939700884757, 8944394323791464, 14472334024676221, 23416728348467685,
    37889062373143906, 61305790721611591, 99194853094755497, 160500643816367088,
    259695496911122585, 420196140727489673, 679891637638612258, 1100087778366101931,
    1779979416004714189, 2880067194370816120, 4660046610375530309, 7540113804746346429,
];

fn dummy_round_up(v: u64) -> u64 {
    let mut power: u64 = 1;
    while power < v {
        power *= 2;
    }
    power
}

fn dummy_trailing_zero_right(v: u64, bits: u64) -> u64 {
    let mut shr: u64 = 0;
    while shr < bits {
        if (v >> shr) & 0b1 == 0b1 {
            break;
        }
        shr += 1;
    }
    shr
}

#[test]
fn math32_round_up_2() {
    for i in FIBO32.iter().filter(|i| **i != 0) {
        assert_eq!(math32::round_up_2(*i as u32) as u64, dummy_round_up(*i as u64));
    }
    for i in (0..32_usize).map(|i| 1usize << i) {
        assert_eq!(math32::round_up_2(i as u32) as u64, dummy_round_up(i as u64));
    }
}

#[test]
fn math32_trailing_zero_right() {
    for i in FIBO32.iter().filter(|i| **i != 0) {
        assert_eq!(math32::trailing_zero_right(*i as u32) as u64, dummy_trailing_zero_right(*i as u64, 32));
    }
    for i in (0..32_usize).map(|i| 1usize << i) {
        assert_eq!(math32::trailing_zero_right(i as u32) as u64, dummy_trailing_zero_right(i as u64, 32));
    }
}

#[test]
fn math64_round_up_2() {
    for i in FIBO64.iter().filter(|i| **i != 0) {
        assert_eq!(math64::round_up_2(*i), dummy_round_up(*i));
    }
    for i in (0..32_u64).map(|i| 1u64 << i) {
        assert_eq!(math64::round_up_2(i), dummy_round_up(i));
    }
}

#[test]
fn math64_trailing_zero_right() {
    for i in FIBO64.iter().filter(|i| **i != 0) {
        assert_eq!(math64::trailing_zero_right(*i), dummy_trailing_zero_right(*i, 64));
    }
    for i in (0..64_u64).map(|i| 1u64 << i) {
        assert_eq!(math64::trailing_zero_right(i), dummy_trailing_zero_right(i, 64));
    }
}

#[test]
fn round_up_2_exact_values() {
    assert_eq!(math64::round_up_2(1), 1);
    assert_eq!(math64::round_up_2(65), 128);
    assert_eq!(math64::round_up_2(0x8000_0000_0000_0000), 0x8000_0000_0000_0000);
    assert_eq!(math32::round_up_2(0x7fff_ffff), 0x8000_0000);
    assert_eq!(math32::round_up_2(5000), 8192);
}

#[test]
fn trailing_zero_right_exact_values() {
    assert_eq!(math64::trailing_zero_right(1), 0);
    assert_eq!(math64::trailing_zero_right(96), 5);
    assert_eq!(math64::trailing_zero_right(0x8000_0000_0000_0000), 63);
    assert_eq!(math32::trailing_zero_right(0x8000_0000), 31);
    assert_eq!(math32::trailing_zero_right(12), 2);
}
