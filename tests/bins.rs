use emma::bins::{
    pad_to_align, powerlaw_bin_from_size, powerlaw_bins_round_up_size, size_class, SizeClass,
};

#[test]
fn powerlaw_bins_of_small_sizes() {
    let expected: [(usize, u32); 19] = [
        (0b100, 0),
        (0b101, 1),
        (0b110, 2),
        (0b111, 3),
        (0b1000, 4),
        (0b1001, 5),
        (0b1010, 5),
        (0b100000, 12),
        (0b101000, 13),
        (0b110000, 14),
        (0b111000, 15),
        (0b1000000, 16),
        (0b1001000, 17),
        (0b1010000, 17),
        (0b1011000, 18),
        (0b1100000, 18),
        (0b1101000, 19),
        (0b1111000, 20),
        (0b10010000, 21),
    ];
    for (size, bin) in expected {
        assert_eq!(powerlaw_bin_from_size(size), bin, "{size}");
    }
}

#[test]
fn powerlaw_bins_round_up() {
    assert_eq!(powerlaw_bins_round_up_size(0b1000), 0b1000);
    assert_eq!(powerlaw_bins_round_up_size(0b1001), 0b1010);
    assert_eq!(powerlaw_bins_round_up_size(0b1010), 0b1010);
    assert_eq!(powerlaw_bins_round_up_size(0b10010), 0b10100);
    assert_eq!(powerlaw_bins_round_up_size(0b110100), 0b111000);
    assert_eq!(powerlaw_bins_round_up_size(0b1011000), 0b1100000);
    assert_eq!(powerlaw_bins_round_up_size(usize::MAX / 2 + 1), usize::MAX / 2 + 1);
    assert_eq!(
        powerlaw_bins_round_up_size(usize::MAX / 2 + 2),
        0b101usize << (usize::BITS - 3)
    );
    assert_eq!(powerlaw_bins_round_up_size(4080), 4096);
}

#[test]
fn bins_are_monotone() {
    let mut last = powerlaw_bin_from_size(4);
    for s in 5..100_000usize {
        let b = powerlaw_bin_from_size(s);
        assert!(last <= b, "{s}");
        last = b;
    }
}

#[test]
fn round_up_is_idempotent_and_never_shrinks() {
    for s in 8..100_000usize {
        let r = powerlaw_bins_round_up_size(s);
        assert!(r >= s);
        assert_eq!(powerlaw_bins_round_up_size(r), r);
        assert_eq!(powerlaw_bin_from_size(r), powerlaw_bin_from_size(s));
        // At most three significant bits.
        assert!((r >> r.trailing_zeros()) < 8);
    }
}

#[test]
fn size_classes_at_the_cutoffs() {
    assert_eq!(size_class(1, 1), SizeClass::Small { bin: 0, object_size: 8 });
    assert_eq!(size_class(16, 8), SizeClass::Small { bin: 1, object_size: 16 });
    assert_eq!(size_class(504, 8), SizeClass::Small { bin: 62, object_size: 504 });
    assert_eq!(size_class(505, 1), SizeClass::Small { bin: 63, object_size: 512 });
    assert_eq!(size_class(512, 256), SizeClass::Small { bin: 63, object_size: 512 });
    // An alignment above what small pages guarantee forces a medium page.
    assert_eq!(size_class(512, 512), SizeClass::Medium { bin: 0, object_size: 512 });
    assert_eq!(size_class(513, 1), SizeClass::Medium { bin: 1, object_size: 640 });
    assert_eq!(size_class(1792, 8), SizeClass::Medium { bin: 7, object_size: 1792 });
    assert_eq!(size_class(1793, 1), SizeClass::Large { bin: 0, object_size: 2048 });
    assert_eq!(size_class(10000, 8), SizeClass::Large { bin: 9, object_size: 10240 });
    assert_eq!(size_class(917504, 8), SizeClass::Large { bin: 35, object_size: 917504 });
    assert_eq!(size_class(917505, 1), SizeClass::Huge { mapped_size: 921600 });
    assert_eq!(size_class(1 << 20, 8), SizeClass::Huge { mapped_size: 1 << 20 });
}

#[test]
fn padding_to_alignment() {
    assert_eq!(pad_to_align(10, 8), 16);
    assert_eq!(pad_to_align(110, 32), 128);
    assert_eq!(pad_to_align(60, 16), 64);
    assert_eq!(pad_to_align(64, 64), 64);
    assert_eq!(pad_to_align(1, 1), 1);
}
