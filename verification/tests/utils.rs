use discorddrive::utils::{base_255_to_byte, byte_to_base_255, BitMask, ToBase32};

const SYMBOLS: &str = "0123456789ABCDEFGHIJKLMNOPQRSTUVWXYZabcdefghijklmnopqrstuvwxyz!\"#$%&'()+,-./:;<=>?@[]^{}~‰£¤¥¦§«¬²³µÀÁÂÃÄÅÆÇÈÉÊËÌÍÎÏÐÑÒØßàáâãäåæçèéêëìþÿǷǾǿɅɆɄɃȽȾȺȸȹɎʘʗʖʕʔʓʒʑʊʇʆʁʂϠϡϢϭϱϺϻϿϾϼ◔◍◎◐◑◒◓◚◛◳◲◱◰◯◿◜◝◞◟◠◡◉◊▣▤▥▦▧▨▩▚▙▜▛▝▞▟▂▃▄▅▆▇█▉▊▋▌▍░▒▓①②③④⑤⑥⑦⑧⑨⑩⑪⑫⑬⑭⑮ⒶⒷⒸⒹⒺⒻⒼⒽⒾⒿ⑴⑵⑶⑷⑸⑹‹";

#[test]
fn to_base32() {
    let value = discorddrive::utils::to_base32(1234567890);
    assert_eq!(value, "14pc0mi");
}

#[test]
fn from_base32() {
    let value = discorddrive::utils::from_base32("14pc0mi");
    assert_eq!(value, 1234567890);
}

#[test]
fn base32_zero() {
    let value = discorddrive::utils::to_base32(0);
    assert_eq!(value, "0");

    let value = discorddrive::utils::from_base32("0");
    assert_eq!(value, 0);
}

#[test]
fn to_base256() {
    let value = byte_to_base_255(255);
    assert_eq!(value, '‹');
}

#[test]
fn random_conversions_b256() {
    for i in 0..255 {
        let c = byte_to_base_255(i);
        println!("{} -> {}", i, c);
        let b = base_255_to_byte(c);
        println!("{} <- {}", b, c);
        assert_eq!(i, b);
    }
}

#[test]
fn test_bitmask() {
    let mut mask = BitMask::<1>::new();
    mask.set(0, true);
    mask.set(1, true);
    mask.set(2, true);
    mask.set(3, true);
    mask.set(4, true);
    mask.set(5, true);
    mask.set(6, true);
    mask.set(7, true);

    assert_eq!(mask.as_bytes()[0], 0b11111111);

    mask.set(0, false);
    mask.set(1, false);
    mask.set(2, false);
    mask.set(3, false);
    mask.set(4, false);
    mask.set(5, false);
    mask.set(6, false);
    mask.set(7, false);

    assert_eq!(mask.as_bytes()[0], 0b00000000);

    mask.set(0, true);
    mask.set(1, true);
    mask.set(2, true);
    mask.set(3, true);
    mask.set(4, true);
    mask.set(5, true);
    mask.set(6, true);
    mask.set(7, true);

    assert_eq!(mask.as_bytes()[0], 0b11111111);

    mask.set(0, false);
    mask.set(1, false);
    mask.set(2, false);
    mask.set(3, false);
    mask.set(4, false);
    mask.set(5, false);
    mask.set(6, false);
    mask.set(7, false);

    assert_eq!(mask.as_bytes()[0], 0b00000000);
}

#[test]
fn base32_digits_are_in_order() {
    assert_eq!(discorddrive::utils::to_base32(9), "9");
    assert_eq!(discorddrive::utils::to_base32(10), "a");
    assert_eq!(discorddrive::utils::to_base32(31), "v");
    assert_eq!(discorddrive::utils::to_base32(32), "10");
    assert_eq!(discorddrive::utils::to_base32(1023), "vv");
    assert_eq!(discorddrive::utils::to_base32(1024), "100");
    assert_eq!(discorddrive::utils::to_base32(u64::MAX), "fvvvvvvvvvvvv");
}

#[test]
fn base32_round_trip_on_many_values() {
    let mut x: u64 = 0;
    for step in 0..200u64 {
        let text = discorddrive::utils::to_base32(x);
        assert_eq!(discorddrive::utils::from_base32(&text), x);
        assert!(x == 0 || !text.starts_with('0'));
        x = x.wrapping_mul(6364136223846793005).wrapping_add(1442695040888963407 + step);
    }
    assert_eq!(discorddrive::utils::from_base32("fvvvvvvvvvvvv"), u64::MAX);
}

#[test]
fn base32_reads_leading_zeros_and_the_empty_text() {
    assert_eq!(discorddrive::utils::from_base32(""), 0);
    assert_eq!(discorddrive::utils::from_base32("000v"), 31);
    assert_eq!(discorddrive::utils::from_base32("00000000000000000001"), 1);
}

#[test]
fn parse_base32_tells_what_it_cannot_read() {
    let read = |s: &str| {
        let chars: Vec<char> = s.chars().collect();
        discorddrive::utils::parse_base32(&chars)
    };
    assert_eq!(read("14pc0mi"), Some(1234567890));
    assert_eq!(read(""), Some(0));
    assert_eq!(read("fvvvvvvvvvvvv"), Some(u64::MAX));
    // one more than fits
    assert_eq!(read("g000000000000"), None);
    assert_eq!(read("10000000000000"), None);
    // no digits of radix 32
    assert_eq!(read("w"), None);
    assert_eq!(read("1A"), None);
    assert_eq!(read("1:2"), None);
    assert_eq!(read("-1"), None);
}

#[test]
fn base32_of_u64_through_the_trait() {
    assert_eq!(1234567890u64.to_base32(), "14pc0mi");
    assert_eq!(<u64 as ToBase32>::from_base32("14pc0mi"), 1234567890);
}

#[test]
fn base32_of_u128_has_two_halves() {
    assert_eq!(0u128.to_base32(), "0.0");
    assert_eq!(1u128.to_base32(), "0.1");
    assert_eq!((1u128 << 64).to_base32(), "1.0");
    assert_eq!(((1234567890u128) << 64 | 31).to_base32(), "14pc0mi.v");
    assert_eq!(u128::MAX.to_base32(), "fvvvvvvvvvvvv.fvvvvvvvvvvvv");
    assert_eq!(<u128 as ToBase32>::from_base32("14pc0mi.v"), (1234567890u128) << 64 | 31);
    assert_eq!(<u128 as ToBase32>::from_base32("1.0"), 1u128 << 64);
    // what follows a second dot is passed over
    assert_eq!(<u128 as ToBase32>::from_base32("1.2.3"), (1u128 << 64) | 2);
    for x in [0u128, 1, u64::MAX as u128, (u64::MAX as u128) + 1, u128::MAX, 0x0123_4567_89ab_cdef_0011_2233_4455_6677] {
        assert_eq!(<u128 as ToBase32>::from_base32(&x.to_base32()), x);
    }
}

#[test]
fn base255_follows_the_alphabet() {
    let symbols: Vec<char> = SYMBOLS.chars().collect();
    assert_eq!(symbols.len(), 256);
    for b in 0..=255u8 {
        assert_eq!(byte_to_base_255(b), symbols[b as usize]);
    }
    assert_eq!(byte_to_base_255(0), '0');
    assert_eq!(byte_to_base_255(10), 'A');
    assert_eq!(byte_to_base_255(36), 'a');
    assert_eq!(byte_to_base_255(76), ':');
}

#[test]
fn base255_round_trip_on_every_byte() {
    for b in 0..=255u8 {
        assert_eq!(base_255_to_byte(byte_to_base_255(b)), b);
    }
}

#[test]
fn base255_reads_an_unknown_symbol_as_zero() {
    assert_eq!(base_255_to_byte('*'), 0);
    assert_eq!(base_255_to_byte('\n'), 0);
    assert_eq!(base_255_to_byte(' '), 0);
    assert_eq!(base_255_to_byte('0'), 0);
    assert_eq!(base_255_to_byte('1'), 1);
    assert_eq!(base_255_to_byte('‹'), 255);
}

#[test]
fn bitmask_starts_clear() {
    let mask = BitMask::<4>::new();
    assert_eq!(mask.as_bytes(), [0u8; 4]);
    for i in 0..32 {
        assert!(!mask.get(i));
    }
    assert_eq!(BitMask::<0>::new().as_bytes().len(), 0);
}

#[test]
fn bitmask_bit_order_is_lsb_first() {
    let mut mask = BitMask::<2>::new();
    mask.set(0, true);
    assert_eq!(mask.as_bytes(), [0b0000_0001, 0]);
    mask.set(7, true);
    assert_eq!(mask.as_bytes(), [0b1000_0001, 0]);
    mask.set(8, true);
    assert_eq!(mask.as_bytes(), [0b1000_0001, 0b0000_0001]);
    mask.set(13, true);
    assert_eq!(mask.as_bytes(), [0b1000_0001, 0b0010_0001]);
    mask.set(7, false);
    assert_eq!(mask.as_bytes(), [0b0000_0001, 0b0010_0001]);
}

#[test]
fn bitmask_get_after_set() {
    for i in 0..24 {
        for v in [true, false] {
            let mut mask = BitMask::<3>::from_bytes(&[0b1010_0101, 0xff, 0x00]);
            let before: Vec<bool> = (0..24).map(|j| mask.get(j)).collect();
            mask.set(i, v);
            for j in 0..24 {
                assert_eq!(mask.get(j), if j == i { v } else { before[j] });
            }
        }
    }
}

#[test]
fn bitmask_set_then_clear_gives_zero_bytes() {
    for i in 0..2048 {
        let mut mask = BitMask::<256>::new();
        mask.set(i, true);
        assert!(mask.get(i));
        assert_eq!(mask.as_bytes()[i / 8], 1u8 << (i % 8));
        mask.set(i, false);
        assert_eq!(mask.as_bytes(), [0u8; 256]);
    }
}

#[test]
fn bitmask_bytes_round_trip() {
    let bytes: Vec<u8> = (0..=255u8).rev().collect();
    let mask = BitMask::<256>::from_bytes(&bytes);
    assert_eq!(mask.as_bytes(), bytes.as_slice());
    let back = BitMask::<256>::from_bytes(mask.as_bytes());
    assert_eq!(back.as_bytes(), mask.as_bytes());
    let copy = mask.clone();
    assert_eq!(copy.as_bytes(), mask.as_bytes());
}

#[test]
fn bitmask_from_short_bytes_pads_with_zeros() {
    let mask = BitMask::<4>::from_bytes(&[7, 9]);
    assert_eq!(mask.as_bytes(), [7, 9, 0, 0]);
    assert_eq!(BitMask::<4>::from_bytes(&[]).as_bytes(), [0, 0, 0, 0]);
}

#[test]
fn bitmask_from_hex() {
    assert_eq!(BitMask::<4>::from_hex("00ff10aB").as_bytes(), [0x00, 0xff, 0x10, 0xab]);
    assert_eq!(BitMask::<4>::from_hex("7f").as_bytes(), [0x7f, 0, 0, 0]);
    assert_eq!(BitMask::<4>::from_hex("").as_bytes(), [0, 0, 0, 0]);
    // a plus sign in the first place of a pair is a sign
    assert_eq!(BitMask::<2>::from_hex("+f+0").as_bytes(), [0x0f, 0x00]);
    for pair in ["00", "0f", "a0", "Ff", "+9", "9c"] {
        let expected = u8::from_str_radix(pair, 16).unwrap();
        assert_eq!(BitMask::<1>::from_hex(pair).as_bytes(), [expected]);
    }
}
