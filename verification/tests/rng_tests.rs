use callandor::ceil_div;
use callandor::rng::Pcg32;

#[test]
fn generator_produces_known_sequence() {
    let mut rng = Pcg32::new(0x9E37_79B9);
    assert_eq!(rng.next_u32(), 2_419_168_863);
    assert_eq!(rng.next_u32(), 3_690_474_894);
    assert_eq!(rng.next_u32(), 4_210_262_278);
}

#[test]
fn generator_step_from_seed_one() {
    let mut rng = Pcg32::new(1);
    assert_eq!(rng.next_u32(), 2_831_084_092);
}

#[test]
fn equal_seeds_give_equal_streams() {
    let mut a = Pcg32::new(42);
    let mut b = Pcg32::new(42);
    for _ in 0..100 {
        assert_eq!(a.next_u32(), b.next_u32());
    }
}

#[test]
fn ceil_div_rounds_up() {
    assert_eq!(ceil_div(0, 8), 0);
    assert_eq!(ceil_div(1, 8), 1);
    assert_eq!(ceil_div(8, 8), 1);
    assert_eq!(ceil_div(9, 8), 2);
    assert_eq!(ceil_div(1920, 16), 120);
    assert_eq!(ceil_div(1080, 16), 68);
}
