use bitpage::{zero_masks, BitPage};

#[test]
fn test_zero_masks() {
    let zero_masks = zero_masks();

    for mask in zero_masks.iter() {
        println!("{:b}", mask);
    }
    assert_eq!(zero_masks.len(), 64);
    assert_eq!(zero_masks[0], 0);
    assert_eq!(zero_masks[1], 1);
    assert_eq!(zero_masks[10], 0x3ff);
    assert_eq!(zero_masks[63], u64::MAX >> 1);
}

#[test]
fn test_ops() {
    println!("ALL ZEROS -- SET BIT");

    for i in 0..64 {
        let mut bit_page = BitPage::zeroes();

        BitPage::set_bit(&mut bit_page, i);

        println!(
            "BitPage[{}] = {:?} ==> {} ==> {:?}",
            i,
            bit_page,
            BitPage::is_bit_set(&bit_page, i),
            BitPage::active_bits(bit_page)
        );
        assert_eq!(bit_page, 1u64 << i);
        assert!(BitPage::is_bit_set(&bit_page, i));
        assert_eq!(BitPage::active_bits(bit_page), vec![i]);
    }
}

#[test]
fn page_word_operations() {
    let mut w = BitPage::ones();
    BitPage::clear_bit(&mut w, 5);
    assert_eq!(w, !(1u64 << 5));
    assert!(!BitPage::is_bit_set(&w, 5));
    assert!(BitPage::is_bit_set(&w, 6));
    assert_eq!(BitPage::count_ones(&w), 63);
    assert!(!BitPage::is_ones(&w));
    BitPage::not(&mut w);
    assert_eq!(w, 1u64 << 5);
    BitPage::or(&mut w, &0b11);
    assert_eq!(w, 0b100011);
    BitPage::and(&mut w, &0b110);
    assert_eq!(w, 0b10);
    assert!(BitPage::is_all_zeros(&0));
    assert!(BitPage::is_all_ones(&u64::MAX));
    assert!(BitPage::is_zeroes(&BitPage::zeroes()));
}

#[test]
fn page_active_bits_in_order() {
    assert_eq!(BitPage::active_bits(0), Vec::<usize>::new());
    assert_eq!(BitPage::active_bits(u64::MAX), (0..64).collect::<Vec<usize>>());
    assert_eq!(BitPage::active_bits(0x8000_0000_0000_0101), vec![0, 8, 63]);
    assert_eq!(BitPage::count_ones(&0xDEAD_BEEF), 24);
}
