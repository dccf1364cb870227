use opsin::bignat::BigNat;

fn big(v: u128) -> BigNat {
    let mut limbs = Vec::new();
    let mut rest = v;
    while rest != 0 {
        limbs.push(rest as u32);
        rest >>= 32;
    }
    BigNat { limbs }
}

fn value(b: &BigNat) -> u128 {
    let mut v: u128 = 0;
    for (i, limb) in b.limbs.iter().enumerate() {
        assert!(i < 4 || *limb == 0);
        if i < 4 {
            v |= (*limb as u128) << (32 * i);
        }
    }
    v
}

#[test]
fn big_numbers_multiply_and_add() {
    let mut b = BigNat::zero();
    assert!(b.is_zero());
    b.mul_add(10, 7);
    assert_eq!(value(&b), 7);
    assert!(!b.is_zero());
    let mut want: u128 = 7;
    for k in 0..20u32 {
        b.mul_add(4_000_000_000, k);
        want = want * 4_000_000_000;
        if want > u128::MAX / 5_000_000_000 {
            break;
        }
        want += k as u128;
        if value(&b) != want {
            // the last step went past the addend
            b = big(want);
        }
        assert_eq!(value(&b), want);
    }
    let mut c = big(0xffff_ffff_ffff_ffff);
    c.mul_add(0xffff_ffff, 0xffff_ffff);
    assert_eq!(value(&c), 0xffff_ffff_ffff_ffffu128 * 0xffff_ffff + 0xffff_ffff);
}

#[test]
fn big_numbers_divide_with_remainder() {
    let mut state: u128 = 0x1234_5678_9abc_def0_0fed_cba9_8765_4321;
    for d in [1u32, 2, 5, 10, 1_000_000_007, 0xffff_ffff] {
        state = state.wrapping_mul(0x2545_f491_4f6c_dd1d).wrapping_add(11);
        let mut b = big(state);
        let rem = b.div_rem(d);
        assert_eq!(value(&b), state / d as u128);
        assert_eq!(rem as u128, state % d as u128);
    }
    let mut zero = BigNat::zero();
    assert_eq!(zero.div_rem(7), 0);
    assert!(zero.is_zero());
}

#[test]
fn leading_limbs_stand_for_the_number() {
    let small = big(0x1234_5678_9abc);
    let l = small.leading();
    assert_eq!((l.lead, l.skipped, l.sticky), (0x1234_5678_9abc, 0, false));
    let wide = big(0x0123_4567_89ab_cdef_0000_0000_0000_0000);
    let l = wide.leading();
    assert_eq!((l.lead, l.skipped, l.sticky), (0x0123_4567_89ab_cdef, 2, false));
    let odd = big(0x0123_4567_89ab_cdef_0000_0000_0000_0001);
    let l = odd.leading();
    assert_eq!((l.lead, l.skipped, l.sticky), (0x0123_4567_89ab_cdef, 2, true));
    let padded = BigNat { limbs: vec![5, 0, 0, 0, 0] };
    let l = padded.leading();
    assert_eq!((l.lead, l.skipped, l.sticky), (5, 0, false));
    let l = BigNat::zero().leading();
    assert_eq!((l.lead, l.skipped, l.sticky), (0, 0, false));
}
