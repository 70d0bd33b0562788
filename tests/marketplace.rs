use kitties::dna::combine_dna;
use kitties::kitties::{Error, Module, MAX_KITTY_INDEX};

#[test]
fn combine_dna_takes_bits_by_selector() {
    assert_eq!(combine_dna(0b1111_0000, 0b1100_1100, 0b1010_1010), 0b1110_0100);
    assert_eq!(combine_dna(0xff, 0x00, 0x00), 0x00);
    assert_eq!(combine_dna(0xff, 0x00, 0xff), 0xff);
}

#[test]
fn create_issues_increasing_ids() {
    let mut m = Module::new();
    assert_eq!(m.create(1, [7u8; 16]), Ok(0));
    assert_eq!(m.create(2, [8u8; 16]), Ok(1));
    assert_eq!(m.breed(2, 0, 1, [0u8; 16]), Ok(2));
    assert_eq!(m.create(1, [9u8; 16]), Ok(3));
    assert_eq!(m.kitties_count(), 4);
    assert_eq!(m.owner_of(0), Some(1));
    assert_eq!(m.owner_of(1), Some(2));
    assert_eq!(m.owner_of(2), Some(2));
    assert_eq!(m.kitty(3).unwrap().dna, [9u8; 16]);
    assert_eq!(m.kitty(3).unwrap().price, 0);
    assert!(m.kitty(4).is_none());
}

#[test]
fn breed_combines_parent_genomes() {
    let mut m = Module::new();
    let mut g1 = [0u8; 16];
    let mut g2 = [0u8; 16];
    let mut sel = [0u8; 16];
    for i in 0..16 {
        g1[i] = 0b1111_0000 ^ (i as u8);
        g2[i] = 0b1100_1100;
        sel[i] = 0b1010_1010 | (i as u8);
    }
    m.create(1, g1).unwrap();
    m.create(1, g2).unwrap();
    let child = m.breed(3, 0, 1, sel).unwrap();
    let dna = m.kitty(child).unwrap().dna;
    for i in 0..16 {
        assert_eq!(dna[i], combine_dna(g1[i], g2[i], sel[i]));
    }
    assert_eq!(dna[0], 0b1110_0100);
    assert_eq!(m.owner_of(child), Some(3));
    assert_eq!(m.owned_kitties(&(3, None)).unwrap().next, Some(child));
}

#[test]
fn breed_rejects_bad_parents() {
    let mut m = Module::new();
    m.create(1, [1u8; 16]).unwrap();
    assert_eq!(m.breed(1, 0, 5, [0u8; 16]), Err(Error::InvalidParent));
    assert_eq!(m.breed(1, 5, 0, [0u8; 16]), Err(Error::InvalidParent));
    assert_eq!(m.breed(1, 0, 0, [0u8; 16]), Err(Error::SameParent));
    assert_eq!(m.kitties_count(), 1);
}

#[test]
fn create_at_largest_id_overflows() {
    let mut m = Module::with_first_id(MAX_KITTY_INDEX);
    assert_eq!(m.create(1, [1u8; 16]), Err(Error::Overflow));
    assert_eq!(m.kitties_count(), MAX_KITTY_INDEX);
    assert!(m.kitty(MAX_KITTY_INDEX).is_none());
    assert_eq!(m.owned_kitties(&(1, None)), None);

    let mut m = Module::with_first_id(MAX_KITTY_INDEX - 2);
    assert_eq!(m.create(1, [1u8; 16]), Ok(MAX_KITTY_INDEX - 2));
    assert_eq!(m.create(1, [2u8; 16]), Ok(MAX_KITTY_INDEX - 1));
    assert_eq!(m.breed(1, MAX_KITTY_INDEX - 2, MAX_KITTY_INDEX - 1, [3u8; 16]), Err(Error::Overflow));
    assert_eq!(m.kitties_count(), MAX_KITTY_INDEX);
}

#[test]
fn transfer_moves_ownership() {
    let mut m = Module::new();
    m.create(1, [1u8; 16]).unwrap();
    m.create(1, [2u8; 16]).unwrap();
    assert_eq!(m.transfer(1, 2, 0), Ok(()));
    assert_eq!(m.owner_of(0), Some(2));
    assert_eq!(m.owned_kitties(&(1, Some(0))), None);
    assert_eq!(m.owned_kitties(&(1, None)).unwrap().next, Some(1));
    assert_eq!(m.owned_kitties(&(2, None)).unwrap().prev, Some(0));
    assert_eq!(m.transfer(2, 2, 0), Ok(()));
    assert_eq!(m.owner_of(0), Some(2));
    assert_eq!(m.transfer(1, 2, 9), Err(Error::NotFound));
}

#[test]
fn unauthorized_transfer_changes_nothing() {
    let mut m = Module::new();
    m.create(1, [1u8; 16]).unwrap();
    let head_before = m.owned_kitties(&(1, None));
    assert_eq!(m.transfer(2, 3, 0), Err(Error::Unauthorized));
    assert_eq!(m.owner_of(0), Some(1));
    assert_eq!(m.owned_kitties(&(1, None)), head_before);
    assert_eq!(m.owned_kitties(&(3, None)), None);
}

#[test]
fn set_price_by_owner_only() {
    let mut m = Module::new();
    m.create(1, [1u8; 16]).unwrap();
    assert_eq!(m.set_price(2, 0, 50), Err(Error::Unauthorized));
    assert_eq!(m.kitty(0).unwrap().price, 0);
    assert_eq!(m.set_price(1, 0, 50), Ok(()));
    assert_eq!(m.kitty(0).unwrap().price, 50);
    assert_eq!(m.set_price(1, 3, 50), Err(Error::NotFound));
}

#[test]
fn buy_checks_in_order() {
    let mut m = Module::new();
    m.create(1, [1u8; 16]).unwrap();
    assert_eq!(m.buy_payment(2, 7, 100), Err(Error::NotFound));
    assert_eq!(m.buy_payment(2, 0, 100), Err(Error::NotForSale));
    m.set_price(1, 0, 60).unwrap();
    assert_eq!(m.buy_payment(1, 0, 100), Err(Error::OwnPurchase));
    assert_eq!(m.buy_payment(2, 0, 59), Err(Error::PriceTooHigh));
    assert_eq!(m.buy_payment(2, 0, 60), Ok((1, 60)));
    assert_eq!(m.buy_kitty(2, 0, 59, true), Err(Error::PriceTooHigh));
    assert_eq!(m.owner_of(0), Some(1));
}

#[test]
fn failed_payment_leaves_kitty_unchanged() {
    let mut m = Module::new();
    m.create(1, [1u8; 16]).unwrap();
    m.set_price(1, 0, 60).unwrap();
    assert_eq!(m.buy_kitty(2, 0, 100, false), Err(Error::InsufficientBalance));
    assert_eq!(m.owner_of(0), Some(1));
    assert_eq!(m.kitty(0).unwrap().price, 60);
}

#[test]
fn paid_purchase_moves_kitty_and_clears_price() {
    let mut m = Module::new();
    m.create(1, [1u8; 16]).unwrap();
    m.set_price(1, 0, 60).unwrap();
    assert_eq!(m.buy_kitty(2, 0, 100, true), Ok(()));
    assert_eq!(m.owner_of(0), Some(2));
    assert_eq!(m.kitty(0).unwrap().price, 0);
    assert_eq!(m.kitty(0).unwrap().dna, [1u8; 16]);
    assert_eq!(m.owned_kitties(&(1, None)).unwrap().next, None);
    assert_eq!(m.owned_kitties(&(2, None)).unwrap().next, Some(0));
    assert_eq!(m.buy_kitty(3, 0, 100, true), Err(Error::NotForSale));
}

#[test]
fn contains_kitty_tracks_created_kitties() {
    let mut m = Module::new();
    assert!(!m.contains_kitty(0));
    m.create(4, [0u8; 16]).unwrap();
    assert!(m.contains_kitty(0));
    assert!(!m.contains_kitty(1));
}
