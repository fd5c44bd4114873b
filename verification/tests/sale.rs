use fixed_price_sale::decimal::{Decimal, ATTOS_PER_UNIT};
use fixed_price_sale::resources::{
    ComponentAddress, FungibleBucket, LocalIdKind, NonFungibleBucket, NonFungibleLocalId, ResourceAddress,
    ResourceType,
};
use fixed_price_sale::sale::{FixedPriceSaleWithRoyalty, RoyaltyShare, RoyaltyVault, SaleError};

fn address(tag: u8) -> ResourceAddress {
    ResourceAddress { bytes: [tag; 30] }
}

fn account(tag: u8) -> ComponentAddress {
    ComponentAddress { bytes: [tag; 30] }
}

fn id(n: u64) -> NonFungibleLocalId {
    let mut bytes = [0u8; 64];
    bytes[..8].copy_from_slice(&n.to_be_bytes());
    NonFungibleLocalId { kind: LocalIdKind::Integer, len: 8, bytes }
}

fn id_number(i: &NonFungibleLocalId) -> u64 {
    let mut b = [0u8; 8];
    b.copy_from_slice(&i.bytes[..8]);
    u64::from_be_bytes(b)
}

fn dec(units: i128, tenths: i128) -> Decimal {
    Decimal::from_attos(units * ATTOS_PER_UNIT + tenths * (ATTOS_PER_UNIT / 10))
}

fn nfts(tag: u8, ids: &[u64]) -> NonFungibleBucket {
    NonFungibleBucket { resource_address: address(tag), ids: ids.iter().map(|n| id(*n)).collect() }
}

const XRD: u8 = 200;

fn xrd_type() -> ResourceType {
    ResourceType::Fungible { divisibility: 18 }
}

fn new_sale(price: Decimal) -> FixedPriceSaleWithRoyalty {
    let (sale, shares) = FixedPriceSaleWithRoyalty::instantiate_fixed_price_sale_with_royalty(
        vec![nfts(1, &[1]), nfts(2, &[1, 2])],
        address(XRD),
        xrd_type(),
        price,
        vec![],
        vec![],
    )
    .unwrap();
    assert!(shares.is_empty());
    sale
}

fn ids_of(list: &[(ResourceAddress, Vec<NonFungibleLocalId>)]) -> Vec<(u8, Vec<u64>)> {
    list.iter().map(|(a, ids)| (a.bytes[0], ids.iter().map(id_number).collect())).collect()
}

#[test]
fn test_fixed_token_sale_with_royalty() {
    let result = FixedPriceSaleWithRoyalty::instantiate_fixed_price_sale_with_royalty(
        vec![nfts(1, &[1]), nfts(2, &[1, 2])],
        address(XRD),
        xrd_type(),
        dec(1, 0),
        vec![account(10), account(11)],
        vec![dec(0, 1), dec(0, 1)],
    );
    let (sale, shares) = result.unwrap();
    assert_eq!(shares.len(), 2);
    assert_eq!(shares[0].account_component.bytes, account(10).bytes);
    assert_eq!(shares[0].percentage, dec(0, 1));
    assert_eq!(shares[1].account_component.bytes, account(11).bytes);
    assert_eq!(shares[1].percentage, dec(0, 1));
    let (token, price) = sale.price();
    assert_eq!(token.bytes, address(XRD).bytes);
    assert_eq!(price, dec(1, 0));
    assert!(!sale.is_sold());
    assert_eq!(ids_of(&sale.non_fungible_ids()), vec![(1, vec![1]), (2, vec![1, 2])]);
}

#[test]
fn instantiate_gathers_buckets_of_one_resource_into_one_vault() {
    let (sale, _) = FixedPriceSaleWithRoyalty::instantiate_fixed_price_sale_with_royalty(
        vec![nfts(3, &[7]), nfts(4, &[1]), nfts(3, &[8, 9]), nfts(4, &[]), nfts(5, &[2])],
        address(XRD),
        xrd_type(),
        dec(2, 0),
        vec![],
        vec![],
    )
    .unwrap();
    assert_eq!(ids_of(&sale.non_fungible_ids()), vec![(3, vec![7, 8, 9]), (4, vec![1]), (5, vec![2])]);
    let addresses = sale.non_fungible_addresses();
    let flat: Vec<(u8, u64)> =
        addresses.iter().map(|g| (g.resource_address.bytes[0], id_number(&g.local_id))).collect();
    assert_eq!(flat, vec![(3, 7), (3, 8), (3, 9), (4, 1), (5, 2)]);
}

#[test]
fn instantiate_refuses_non_fungible_payment_token() {
    let r = FixedPriceSaleWithRoyalty::instantiate_fixed_price_sale_with_royalty(
        vec![nfts(1, &[1])],
        address(XRD),
        ResourceType::NonFungible,
        dec(-1, 0),
        vec![account(1)],
        vec![],
    );
    assert_eq!(r.err(), Some(SaleError::NonFungiblePaymentToken));
}

#[test]
fn instantiate_refuses_negative_price() {
    let r = FixedPriceSaleWithRoyalty::instantiate_fixed_price_sale_with_royalty(
        vec![nfts(1, &[1])],
        address(XRD),
        xrd_type(),
        Decimal::from_attos(-1),
        vec![],
        vec![dec(-1, 0)],
    );
    assert_eq!(r.err(), Some(SaleError::NegativePrice));
}

#[test]
fn instantiate_accepts_zero_price() {
    let sale = new_sale(Decimal::zero());
    assert_eq!(sale.price().1, Decimal::zero());
}

#[test]
fn instantiate_refuses_negative_royalty() {
    let r = FixedPriceSaleWithRoyalty::instantiate_fixed_price_sale_with_royalty(
        vec![nfts(1, &[1])],
        address(XRD),
        xrd_type(),
        dec(1, 0),
        vec![account(1), account(2)],
        vec![dec(200, 0), Decimal::from_attos(-1)],
    );
    assert_eq!(r.err(), Some(SaleError::NegativeRoyaltyPercentage));
}

#[test]
fn instantiate_refuses_royalties_over_one_hundred() {
    let r = FixedPriceSaleWithRoyalty::instantiate_fixed_price_sale_with_royalty(
        vec![nfts(1, &[1])],
        address(XRD),
        xrd_type(),
        dec(1, 0),
        vec![account(1)],
        vec![dec(0, 6), Decimal::from_attos(4 * (ATTOS_PER_UNIT / 10) + 1)],
    );
    assert_eq!(r.err(), Some(SaleError::RoyaltiesOverHundred));
    let r = FixedPriceSaleWithRoyalty::instantiate_fixed_price_sale_with_royalty(
        vec![nfts(1, &[1])],
        address(XRD),
        xrd_type(),
        dec(1, 0),
        vec![account(1), account(2)],
        vec![dec(0, 6), dec(0, 6)],
    );
    assert_eq!(r.err(), Some(SaleError::RoyaltiesOverHundred));
    let r = FixedPriceSaleWithRoyalty::instantiate_fixed_price_sale_with_royalty(
        vec![nfts(1, &[1])],
        address(XRD),
        xrd_type(),
        dec(1, 0),
        vec![account(1)],
        vec![Decimal::from_attos(i128::MAX), Decimal::from_attos(i128::MAX)],
    );
    assert_eq!(r.err(), Some(SaleError::RoyaltiesOverHundred));
}

#[test]
fn instantiate_accepts_royalties_of_exactly_one_hundred() {
    let r = FixedPriceSaleWithRoyalty::instantiate_fixed_price_sale_with_royalty(
        vec![nfts(1, &[1])],
        address(XRD),
        xrd_type(),
        dec(1, 0),
        vec![account(1), account(2)],
        vec![dec(0, 6), dec(0, 4)],
    );
    assert!(r.is_ok());
}

#[test]
fn instantiate_refuses_unequal_royalty_lists() {
    let r = FixedPriceSaleWithRoyalty::instantiate_fixed_price_sale_with_royalty(
        vec![nfts(1, &[1])],
        address(XRD),
        xrd_type(),
        dec(1, 0),
        vec![account(1)],
        vec![dec(0, 1), dec(0, 1)],
    );
    assert_eq!(r.err(), Some(SaleError::RoyaltyLengthMismatch));
}

#[test]
fn buy_hands_over_every_token_and_keeps_the_price() {
    let mut sale = new_sale(dec(5, 0));
    let purchase = sale
        .buy(FungibleBucket { resource_address: address(XRD), amount: dec(7, 5) })
        .unwrap();
    let tokens: Vec<(u8, Vec<u64>)> = purchase
        .tokens
        .iter()
        .map(|b| (b.resource_address.bytes[0], b.ids.iter().map(id_number).collect()))
        .collect();
    assert_eq!(tokens, vec![(1, vec![1]), (2, vec![1, 2])]);
    assert_eq!(purchase.remaining_payment.amount, dec(2, 5));
    assert_eq!(purchase.remaining_payment.resource_address.bytes, address(XRD).bytes);
    assert!(sale.is_sold());
    assert_eq!(ids_of(&sale.non_fungible_ids()), vec![(1, vec![]), (2, vec![])]);
    assert!(sale.non_fungible_addresses().is_empty());
    let payment = sale.withdraw_payment().unwrap();
    assert_eq!(payment.amount, dec(5, 0));
    assert_eq!(payment.resource_address.bytes, address(XRD).bytes);
    assert!(!sale.is_sold());
    assert_eq!(sale.withdraw_payment().err(), Some(SaleError::NotSold));
}

#[test]
fn buy_refuses_wrong_token() {
    let mut sale = new_sale(dec(1, 0));
    let r = sale.buy(FungibleBucket { resource_address: address(9), amount: dec(10, 0) });
    assert_eq!(r.err(), Some(SaleError::WrongPaymentToken));
    assert!(!sale.is_sold());
    assert_eq!(ids_of(&sale.non_fungible_ids()), vec![(1, vec![1]), (2, vec![1, 2])]);
}

#[test]
fn buy_refuses_too_little() {
    let mut sale = new_sale(dec(1, 0));
    let r = sale.buy(FungibleBucket { resource_address: address(XRD), amount: Decimal::from_attos(ATTOS_PER_UNIT - 1) });
    assert_eq!(r.err(), Some(SaleError::InsufficientPayment));
    assert_eq!(ids_of(&sale.non_fungible_ids()), vec![(1, vec![1]), (2, vec![1, 2])]);
}

#[test]
fn buy_refuses_a_price_finer_than_the_token_allows() {
    let (mut sale, _) = FixedPriceSaleWithRoyalty::instantiate_fixed_price_sale_with_royalty(
        vec![nfts(1, &[1])],
        address(XRD),
        ResourceType::Fungible { divisibility: 0 },
        dec(1, 5),
        vec![],
        vec![],
    )
    .unwrap();
    let r = sale.buy(FungibleBucket { resource_address: address(XRD), amount: dec(2, 0) });
    assert_eq!(r.err(), Some(SaleError::PaymentWithdrawalRefused));
    assert!(!sale.is_sold());
    assert_eq!(sale.change_price(dec(1, 0)), Ok(()));
    let purchase = sale.buy(FungibleBucket { resource_address: address(XRD), amount: dec(2, 0) }).unwrap();
    assert_eq!(purchase.remaining_payment.amount, dec(1, 0));
}

#[test]
fn buy_with_exact_payment_leaves_nothing() {
    let mut sale = new_sale(dec(3, 0));
    let purchase = sale.buy(FungibleBucket { resource_address: address(XRD), amount: dec(3, 0) }).unwrap();
    assert_eq!(purchase.remaining_payment.amount, Decimal::zero());
}

#[test]
fn buy_at_price_zero_does_not_mark_sold() {
    let mut sale = new_sale(Decimal::zero());
    let purchase = sale.buy(FungibleBucket { resource_address: address(XRD), amount: dec(1, 0) }).unwrap();
    assert_eq!(purchase.tokens.len(), 2);
    assert_eq!(purchase.remaining_payment.amount, dec(1, 0));
    assert!(!sale.is_sold());
    let handed_back = sale.cancel_sale().unwrap();
    assert!(handed_back.iter().all(|b| b.ids.is_empty()));
}

#[test]
fn second_buy_hands_over_empty_buckets() {
    let mut sale = new_sale(dec(1, 0));
    sale.buy(FungibleBucket { resource_address: address(XRD), amount: dec(1, 0) }).unwrap();
    let again = sale.buy(FungibleBucket { resource_address: address(XRD), amount: dec(1, 0) }).unwrap();
    assert!(again.tokens.iter().all(|b| b.ids.is_empty()));
    assert_eq!(sale.withdraw_payment().unwrap().amount, dec(2, 0));
}

#[test]
fn cancel_sale_hands_the_tokens_back() {
    let mut sale = new_sale(dec(1, 0));
    let tokens = sale.cancel_sale().unwrap();
    let back: Vec<(u8, Vec<u64>)> =
        tokens.iter().map(|b| (b.resource_address.bytes[0], b.ids.iter().map(id_number).collect())).collect();
    assert_eq!(back, vec![(1, vec![1]), (2, vec![1, 2])]);
    assert_eq!(ids_of(&sale.non_fungible_ids()), vec![(1, vec![]), (2, vec![])]);
    assert_eq!(sale.withdraw_payment().err(), Some(SaleError::NotSold));
}

#[test]
fn cancel_sale_refused_after_sale() {
    let mut sale = new_sale(dec(1, 0));
    sale.buy(FungibleBucket { resource_address: address(XRD), amount: dec(1, 0) }).unwrap();
    assert_eq!(sale.cancel_sale().err(), Some(SaleError::AlreadySold));
}

#[test]
fn change_price_then_price_reads_it_back() {
    let mut sale = new_sale(dec(1, 0));
    assert_eq!(sale.change_price(dec(4, 2)), Ok(()));
    assert_eq!(sale.price().1, dec(4, 2));
    assert_eq!(sale.change_price(Decimal::from_attos(-5)), Err(SaleError::NegativePrice));
    assert_eq!(sale.price().1, dec(4, 2));
}

#[test]
fn non_fungible_ids_lists_every_token() {
    let many: Vec<u64> = (0..150).collect();
    let (sale, _) = FixedPriceSaleWithRoyalty::instantiate_fixed_price_sale_with_royalty(
        vec![nfts(1, &many), nfts(2, &[5])],
        address(XRD),
        xrd_type(),
        dec(1, 0),
        vec![],
        vec![],
    )
    .unwrap();
    let listed = ids_of(&sale.non_fungible_ids());
    assert_eq!(listed[0].1, many);
    assert_eq!(listed[1].1, vec![5]);
    assert_eq!(sale.non_fungible_addresses().len(), 151);
}

#[test]
fn decimal_multiplication_goes_through_the_ledger_arithmetic() {
    assert_eq!(dec(0, 1).checked_mul(dec(50, 0)), Some(dec(5, 0)));
    assert_eq!(Decimal::from_attos(3).checked_mul(Decimal::from_attos(ATTOS_PER_UNIT / 2)), Some(Decimal::from_attos(1)));
    assert_eq!(Decimal::from_attos(-3).checked_mul(Decimal::from_attos(ATTOS_PER_UNIT / 2)), Some(Decimal::from_attos(-1)));
    assert_eq!(Decimal::from_attos(i128::MAX).checked_mul(dec(2, 0)), None);
    assert_eq!(Decimal::from_units(7), dec(7, 0));
}

fn sale_with_royalties(price: Decimal, percents: &[Decimal]) -> FixedPriceSaleWithRoyalty {
    FixedPriceSaleWithRoyalty {
        nft_vaults: vec![nfts(1, &[4, 5])],
        payment_vault: Decimal::zero(),
        accepted_payment_token: address(XRD),
        payment_divisibility: 18,
        price,
        royalties: percents
            .iter()
            .enumerate()
            .map(|(i, p)| RoyaltyVault { badge_id: id(i as u64 + 100), percentage: *p, balance: Decimal::zero() })
            .collect(),
    }
}

#[test]
fn buy_pays_each_royalty_its_share_of_the_price() {
    let mut sale = sale_with_royalties(dec(5, 0), &[dec(0, 1), dec(0, 1)]);
    assert!(sale.is_well_formed());
    let purchase = sale.buy(FungibleBucket { resource_address: address(XRD), amount: dec(10, 0) }).unwrap();
    assert_eq!(sale.royalties[0].balance, dec(0, 5));
    assert_eq!(sale.royalties[1].balance, dec(0, 5));
    assert_eq!(sale.payment_vault, dec(4, 0));
    assert_eq!(purchase.remaining_payment.amount, dec(5, 0));
    assert_eq!(purchase.tokens[0].ids.len(), 2);
}

#[test]
fn buy_refused_when_a_royalty_is_finer_than_the_token_allows() {
    let mut sale = sale_with_royalties(dec(5, 0), &[dec(0, 1)]);
    sale.payment_divisibility = 0;
    let r = sale.buy(FungibleBucket { resource_address: address(XRD), amount: dec(10, 0) });
    assert_eq!(r.err(), Some(SaleError::PaymentWithdrawalRefused));
    assert_eq!(sale.royalties[0].balance, Decimal::zero());
    assert_eq!(sale.payment_vault, Decimal::zero());
    assert_eq!(sale.nft_vaults[0].ids.len(), 2);
}

#[test]
fn royalties_of_the_whole_price_leave_the_sale_unsold() {
    let mut sale = sale_with_royalties(dec(4, 0), &[dec(0, 5), dec(0, 5)]);
    let purchase = sale.buy(FungibleBucket { resource_address: address(XRD), amount: dec(4, 0) }).unwrap();
    assert_eq!(sale.royalties[0].balance, dec(2, 0));
    assert_eq!(sale.royalties[1].balance, dec(2, 0));
    assert_eq!(sale.payment_vault, Decimal::zero());
    assert_eq!(purchase.remaining_payment.amount, Decimal::zero());
    assert!(!sale.is_sold());
}

#[test]
fn a_tenth_royalty_on_a_price_of_ten_pays_one_and_nine() {
    let (mut sale, shares) = FixedPriceSaleWithRoyalty::instantiate_fixed_price_sale_with_royalty(
        vec![nfts(1, &[1])],
        address(XRD),
        xrd_type(),
        dec(10, 0),
        vec![account(10)],
        vec![dec(0, 1)],
    )
    .unwrap();
    assert_eq!(sale.record_royalty_vaults(&vec![id(77)], &shares), Ok(()));
    assert_eq!(sale.royalties.len(), 1);
    assert_eq!(id_number(&sale.royalties[0].badge_id), 77);
    assert_eq!(sale.royalties[0].percentage, dec(0, 1));
    assert_eq!(sale.royalties[0].balance, Decimal::zero());
    let purchase = sale.buy(FungibleBucket { resource_address: address(XRD), amount: dec(10, 0) }).unwrap();
    assert_eq!(purchase.tokens.len(), 1);
    assert_eq!(purchase.tokens[0].ids.iter().map(id_number).collect::<Vec<u64>>(), vec![1]);
    assert_eq!(sale.royalties[0].balance, dec(1, 0));
    assert_eq!(sale.payment_vault, dec(9, 0));
    assert_eq!(purchase.remaining_payment.amount, Decimal::zero());
    assert!(sale.is_sold());
}

#[test]
fn record_royalty_vaults_opens_one_vault_per_share() {
    let (mut sale, shares) = FixedPriceSaleWithRoyalty::instantiate_fixed_price_sale_with_royalty(
        vec![nfts(1, &[1])],
        address(XRD),
        xrd_type(),
        dec(1, 0),
        vec![account(10), account(11)],
        vec![dec(0, 1), dec(0, 2)],
    )
    .unwrap();
    assert_eq!(sale.record_royalty_vaults(&vec![id(1)], &shares), Err(SaleError::RoyaltyBadgeMismatch));
    assert_eq!(sale.record_royalty_vaults(&vec![id(1), id(1)], &shares), Err(SaleError::RoyaltyBadgeMismatch));
    assert!(sale.royalties.is_empty());
    assert_eq!(sale.record_royalty_vaults(&vec![id(1), id(2)], &shares), Ok(()));
    assert_eq!(sale.royalties.len(), 2);
    assert_eq!(sale.royalties[1].percentage, dec(0, 2));
    assert_eq!(sale.record_royalty_vaults(&vec![id(2)], &shares[..1].to_vec()), Err(SaleError::RoyaltyBadgeMismatch));
    let too_much = vec![RoyaltyShare { account_component: account(12), percentage: dec(0, 8) }];
    assert_eq!(sale.record_royalty_vaults(&vec![id(3)], &too_much), Err(SaleError::RoyaltiesOverHundred));
    let negative = vec![RoyaltyShare { account_component: account(12), percentage: Decimal::from_attos(-1) }];
    assert_eq!(sale.record_royalty_vaults(&vec![id(3)], &negative), Err(SaleError::NegativeRoyaltyPercentage));
    assert_eq!(sale.royalties.len(), 2);
    assert!(sale.is_well_formed());
}

#[test]
fn is_well_formed_spots_repeated_resources_and_negative_amounts() {
    let mut sale = sale_with_royalties(dec(1, 0), &[]);
    assert!(sale.is_well_formed());
    sale.nft_vaults.push(nfts(1, &[9]));
    assert!(!sale.is_well_formed());
    let mut sale = sale_with_royalties(dec(1, 0), &[dec(0, 1)]);
    sale.royalties[0].balance = Decimal::from_attos(-1);
    assert!(!sale.is_well_formed());
    let mut sale = sale_with_royalties(dec(1, 0), &[]);
    sale.payment_divisibility = 19;
    assert!(!sale.is_well_formed());
    let mut sale = sale_with_royalties(dec(1, 0), &[]);
    sale.nft_vaults[0].ids.push(id(4));
    assert!(!sale.is_well_formed());
    let sale = sale_with_royalties(dec(1, 0), &[dec(0, 6), dec(0, 6)]);
    assert!(!sale.is_well_formed());
    let mut sale = sale_with_royalties(dec(1, 0), &[dec(0, 1), dec(0, 1)]);
    sale.royalties[1].badge_id = sale.royalties[0].badge_id;
    assert!(!sale.is_well_formed());
}
