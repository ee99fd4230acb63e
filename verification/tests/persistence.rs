use flatten_towers::field::PlayingField;
use flatten_towers::mask::PlayingFieldMask;
use flatten_towers::rng::Rng;
use flatten_towers::settings::{Settings, InputPresses};

fn no_presses() -> InputPresses {
    InputPresses {
        a: false,
        b: false,
        left: false,
        right: false,
        up: false,
        down: false,
        select: false,
        start: false,
        r: false,
        l: false,
    }
}

#[test]
fn field_save_load_round_trip_without_mask() {
    let mut pf = PlayingField::new(7, 5, None);
    let mut rng = Rng::new_with_seed([41, 42, 43, 44]);
    pf.init_with_random_towers(&mut rng);
    let data = pf.save_as_u8_vec();
    assert_eq!(data.len(), 4 + 8 * pf.towers.len() + 2 * pf.area * 2 + 1);

    let mut back = PlayingField::new(1, 1, None);
    let consumed = back.load_from_u8_vec(&data);
    assert_eq!(consumed, data.len());
    assert_eq!(back.width, pf.width);
    assert_eq!(back.height, pf.height);
    assert_eq!(back.area, pf.area);
    assert_eq!(back.towers, pf.towers);
    assert_eq!(back.field, pf.field);
    assert_eq!(back.field_solution, pf.field_solution);
    assert!(back.mask.is_none());
}

#[test]
fn field_save_load_round_trip_with_mask() {
    let mut mask = PlayingFieldMask::new(4, 4);
    mask.mask[0] = false;
    mask.mask[9] = false;
    let mut pf = PlayingField::new(4, 4, Some(mask));
    let mut rng = Rng::new_with_seed([51, 52, 53, 54]);
    pf.init_with_random_towers(&mut rng);
    let data = pf.save_as_u8_vec();
    assert_eq!(data.len(), 4 + 8 * pf.towers.len() + 2 * pf.area * 2 + 3 + 16);

    let mut back = PlayingField::new(1, 1, None);
    let consumed = back.load_from_u8_vec(&data);
    assert_eq!(consumed, data.len());
    let bm = back.mask.as_ref().expect("mask lost");
    let pm = pf.mask.as_ref().unwrap();
    assert_eq!(bm.width, pm.width);
    assert_eq!(bm.height, pm.height);
    assert_eq!(bm.mask, pm.mask);
    assert_eq!(back.towers, pf.towers);
    assert_eq!(back.field, pf.field);
    assert_eq!(back.field_solution, pf.field_solution);
}

#[test]
fn decode_reports_consumed_bytes_before_trailing_data() {
    let mut pf = PlayingField::new(3, 3, None);
    let mut rng = Rng::new_with_seed([61, 62, 63, 64]);
    pf.init_with_random_towers(&mut rng);
    let mut data = pf.save_as_u8_vec();
    let core_len = data.len();
    // a caller appends its own view-state bytes after the core's
    data.push(0xaa);
    data.push(0xbb);
    let mut back = PlayingField::new(1, 1, None);
    let consumed = back.load_from_u8_vec(&data);
    assert_eq!(consumed, core_len);
    assert_eq!(data[consumed], 0xaa);
    assert_eq!(data[consumed + 1], 0xbb);
}

#[test]
fn encode_layout_is_bit_exact_for_a_known_field() {
    let mut pf = PlayingField::new(2, 1, None);
    let mut rng = Rng::new_with_seed([71, 72, 73, 74]);
    pf.init_with_random_towers(&mut rng);
    let data = pf.save_as_u8_vec();
    assert_eq!(data[0], 2); // width
    assert_eq!(data[1], 1); // height
    let count = ((data[2] as usize) << 8) | data[3] as usize;
    assert_eq!(count, pf.towers.len());
    let entries_at = 4 + 8 * count;
    for i in 0..2 {
        let hi = data[entries_at + 2 * i];
        let lo = data[entries_at + 2 * i + 1];
        match pf.field[i] {
            None => {
                assert_eq!(hi, 255);
                assert_eq!(lo, 255);
            },
            Some(t) => {
                assert_eq!(((hi as usize) << 8) | lo as usize, t);
            },
        }
    }
    assert_eq!(*data.last().unwrap(), 0); // no mask
}

#[test]
fn settings_save_then_load_reads_the_layout_back() {
    let mut s = Settings::new();
    s.sound = false;
    s.playing_field_width = 12;
    s.playing_field_height = 9;
    s.playing_field_seed = [0x01020304, 0x05060708, 0x090a0b0c, 0x0d0e0f10];
    s.playing_field_data = Some(vec![0xde, 0xad]);
    let data = s.save_as_u8_vec();
    assert_eq!(data.len(), 29 + 2);
    // header, then sound byte, then dimensions
    assert_eq!(&data[0..8], &[0xe7, 0x2a, 0xf5, 0x0c, 0x1d, 0x1b, 0x09, 0x18]);
    assert_eq!(data[8], 0);
    assert_eq!(data[9], 12);
    assert_eq!(data[10], 9);
    // first seed word, big-endian
    assert_eq!(&data[11..15], &[0x01, 0x02, 0x03, 0x04]);
    // field image length and payload
    assert_eq!(data[27], 0);
    assert_eq!(data[28], 2);
    assert_eq!(&data[29..31], &[0xde, 0xad]);

    let mut loaded = Settings::new();
    let pfd_len = loaded.load_from_u8_vec(&data).expect("header rejected");
    assert_eq!(pfd_len, 2);
    assert_eq!(loaded.sound, false);
    assert_eq!(loaded.playing_field_width, 12);
    assert_eq!(loaded.playing_field_height, 9);
    assert!(loaded.playing_field_data.is_none());
    // the seed reload keeps the historical layout: each word's two low
    // bytes re-read the word's first byte
    assert_eq!(
        loaded.playing_field_seed,
        [0x01020101, 0x05060505, 0x090a0909, 0x0d0e0d0d]
    );
}

#[test]
fn settings_load_rejects_a_bad_header() {
    let s = Settings::new();
    let mut data = s.save_as_u8_vec();
    data[0] = 0x00;
    let mut loaded = Settings::new();
    loaded.playing_field_width = 17;
    assert!(loaded.load_from_u8_vec(&data).is_none());
    // nothing changed on the failed load
    assert_eq!(loaded.playing_field_width, 17);
}

#[test]
fn seed_fast_forward_matches_the_generator_transition() {
    let mut s = Settings::new();
    let seed0 = s.playing_field_seed;
    // no input, no change
    s.alter_seed_with_input(&no_presses());
    assert_eq!(s.playing_field_seed, seed0);
    // one weighted event advances by exactly one generator step
    let mut one = no_presses();
    one.a = true;
    s.alter_seed_with_input(&one);
    let mut gen = Rng::new_with_seed(seed0);
    let _ = gen.next_i32();
    assert_eq!(s.playing_field_seed, [gen.s0, gen.s1, gen.s2, gen.s3]);
    // a and b together advance by three steps in total
    let mut both = no_presses();
    both.a = true;
    both.b = true;
    s.alter_seed_with_input(&both);
    let _ = gen.next_i32();
    let _ = gen.next_i32();
    let _ = gen.next_i32();
    assert_eq!(s.playing_field_seed, [gen.s0, gen.s1, gen.s2, gen.s3]);
}

#[test]
fn settings_defaults_match_the_generator_fallback_seed() {
    let s = Settings::new();
    assert!(s.sound);
    assert_eq!(s.playing_field_width, 10);
    assert_eq!(s.playing_field_height, 10);
    assert_eq!(s.playing_field_seed, [1014776995, 476057059, 3301633994, 706340607]);
    assert!(s.playing_field_data.is_none());
    let zeroed = Rng::new_with_seed([0, 0, 0, 0]);
    assert_eq!(
        [zeroed.s0, zeroed.s1, zeroed.s2, zeroed.s3],
        s.playing_field_seed
    );
}
