//! The fixed-price sale: a bundle of non-fungible tokens, sold as one for a
//! price in a fungible token, with vaults for royalties on the sale.

use vstd::prelude::*;
use crate::decimal::{mul_attos, pow10, smallest_unit, Decimal, ATTOS_PER_UNIT};
use crate::resources::{
    copy_ids, ids_distinct,
    holdings, ComponentAddress, FungibleBucket, Holding, NonFungibleBucket, NonFungibleGlobalId,
    NonFungibleLocalId, ResourceAddress, ResourceType,
};
use crate::vaults::{
    aggregate, aggregate_buckets, distinct_resources, emptied, global_ids, global_ids_of, lemma_aggregate,
    given, lemma_position, list_ids, listed, take_all,
};

verus! {

/// Why the sale refuses a call. Each refusal leaves the sale as it was.
#[derive(Clone, Copy, Debug, PartialEq, Eq, Structural)]
pub enum SaleError {
    /// The token asked for as payment is non-fungible.
    NonFungiblePaymentToken,
    /// The price is negative.
    NegativePrice,
    /// A royalty percentage is negative.
    NegativeRoyaltyPercentage,
    /// The royalty percentages add up to more than one hundred percent (one
    /// whole unit).
    RoyaltiesOverHundred,
    /// There are not as many royalty accounts as royalty percentages.
    RoyaltyLengthMismatch,
    /// The royalty badges to record do not match the royalty shares one for
    /// one, or a badge id comes twice.
    RoyaltyBadgeMismatch,
    /// The payment is not in the accepted payment token.
    WrongPaymentToken,
    /// The payment is less than the price.
    InsufficientPayment,
    /// The ledger refuses to take a royalty or the price out of the payment:
    /// the amount is negative, more than what is left, finer than the token's
    /// divisibility, or out of range.
    PaymentWithdrawalRefused,
    /// The sale is cancelled after the tokens were sold.
    AlreadySold,
    /// The payment is withdrawn before any sale.
    NotSold,
}

/// The text of the message for each refusal.
pub open spec fn error_message(e: SaleError) -> Seq<char> {
    match e {
        SaleError::NonFungiblePaymentToken => "[Instantiation]: Only payments of fungible resources are accepted."@,
        SaleError::NegativePrice => "The tokens can not be sold for a negative amount."@,
        SaleError::NegativeRoyaltyPercentage => "[Instantiation]: Royalty percentages can not be negative."@,
        SaleError::RoyaltiesOverHundred => "[Instantiation]: Royalty percentages can not add up to more than 100%."@,
        SaleError::RoyaltyLengthMismatch => "[Instantiation]: Royalty accounts and percents must be the same length."@,
        SaleError::RoyaltyBadgeMismatch => "[Instantiation]: Each royalty share needs a royalty badge of its own."@,
        SaleError::WrongPaymentToken => "[Buy]: Invalid tokens were provided as payment."@,
        SaleError::InsufficientPayment => "[Buy]: Invalid quantity was provided."@,
        SaleError::PaymentWithdrawalRefused => "[Buy]: The payment bucket can not cover this withdrawal."@,
        SaleError::AlreadySold => "[Cancel Sale]: Can not cancel the sale after the tokens have been sold"@,
        SaleError::NotSold => "[Withdraw Payment]: Can not withdraw the payment when no sale has happened yet."@,
    }
}

impl SaleError {
    /// The message with which the component aborts the call.
    pub fn message(&self) -> (r: &'static str)
        ensures
            r@ == error_message(*self),
    {
        match self {
            SaleError::NonFungiblePaymentToken => "[Instantiation]: Only payments of fungible resources are accepted.",
            SaleError::NegativePrice => "The tokens can not be sold for a negative amount.",
            SaleError::NegativeRoyaltyPercentage => "[Instantiation]: Royalty percentages can not be negative.",
            SaleError::RoyaltiesOverHundred => "[Instantiation]: Royalty percentages can not add up to more than 100%.",
            SaleError::RoyaltyLengthMismatch => "[Instantiation]: Royalty accounts and percents must be the same length.",
            SaleError::RoyaltyBadgeMismatch => "[Instantiation]: Each royalty share needs a royalty badge of its own.",
            SaleError::WrongPaymentToken => "[Buy]: Invalid tokens were provided as payment.",
            SaleError::InsufficientPayment => "[Buy]: Invalid quantity was provided.",
            SaleError::PaymentWithdrawalRefused => "[Buy]: The payment bucket can not cover this withdrawal.",
            SaleError::AlreadySold => "[Cancel Sale]: Can not cancel the sale after the tokens have been sold",
            SaleError::NotSold => "[Withdraw Payment]: Can not withdraw the payment when no sale has happened yet.",
        }
    }
}

/// A claim to royalties: the account that may claim them and its percentage
/// of the sale price, the data of a royalty badge.
#[derive(Clone, Copy, Debug)]
pub struct RoyaltyShare {
    pub account_component: ComponentAddress,
    pub percentage: Decimal,
}

/// The vault of the royalties owed to the holder of one royalty badge: the
/// badge's id, the percentage that the badge records, and the balance.
#[derive(Clone, Copy, Debug)]
pub struct RoyaltyVault {
    pub badge_id: NonFungibleLocalId,
    pub percentage: Decimal,
    pub balance: Decimal,
}

/// A royalty vault as numbers.
pub struct RoyaltyState {
    pub badge_id: NonFungibleLocalId,
    pub percentage: int,
    pub balance: int,
}

impl View for RoyaltyVault {
    type V = RoyaltyState;

    open spec fn view(&self) -> RoyaltyState {
        RoyaltyState { badge_id: self.badge_id, percentage: self.percentage.attos as int, balance: self.balance.attos as int }
    }
}

/// The royalty vaults as numbers.
pub open spec fn royalty_states(rs: Seq<RoyaltyVault>) -> Seq<RoyaltyState> {
    rs.map_values(|r: RoyaltyVault| r@)
}

/// The state of a sale, in numbers: the vaults of tokens for sale, the balance
/// of the payment vault, the accepted payment token and its divisibility, the
/// price, and the royalty vaults. Amounts are counted in attos.
#[verifier::ext_equal]
pub struct SaleState {
    pub nft_vaults: Seq<Holding>,
    pub payment_balance: int,
    pub accepted_payment_token: ResourceAddress,
    pub payment_divisibility: nat,
    pub price: int,
    pub royalties: Seq<RoyaltyState>,
}

/// The sum of the percentages of the royalty vaults.
pub open spec fn percentage_total(rs: Seq<RoyaltyState>) -> int
    decreases rs.len(),
{
    if rs.len() == 0 {
        0
    } else {
        percentage_total(rs.drop_last()) + rs.last().percentage
    }
}

/// The badge ids of the royalty vaults, in order.
pub open spec fn badge_ids(rs: Seq<RoyaltyState>) -> Seq<NonFungibleLocalId> {
    rs.map_values(|r: RoyaltyState| r.badge_id)
}

/// What the royalty vaults keep true: no balance and no percentage is
/// negative, the percentages add up to at most one whole unit (one hundred
/// percent), and no badge id comes twice.
pub open spec fn royalties_well_formed(rs: Seq<RoyaltyState>) -> bool {
    &&& forall|i: int| 0 <= i < rs.len() ==> (#[trigger] rs[i]).balance >= 0 && rs[i].percentage >= 0
    &&& percentage_total(rs) <= ATTOS_PER_UNIT
    &&& badge_ids(rs).no_duplicates()
}

/// What a sale keeps true between calls: one vault per resource, no id twice
/// in a vault, no negative balance or price, a divisibility of at most
/// eighteen, and well-formed royalty vaults.
pub open spec fn well_formed(s: SaleState) -> bool {
    &&& distinct_resources(s.nft_vaults)
    &&& forall|i: int| 0 <= i < s.nft_vaults.len() ==> (#[trigger] s.nft_vaults[i]).1.no_duplicates()
    &&& s.payment_balance >= 0
    &&& s.payment_divisibility <= 18
    &&& s.price >= 0
    &&& royalties_well_formed(s.royalties)
}

/// Whether the tokens have been sold: the payment vault is not empty.
pub open spec fn sold(s: SaleState) -> bool {
    s.payment_balance != 0
}

/// The sum of the attos of the decimals.
pub open spec fn sum_attos(ds: Seq<Decimal>) -> int
    decreases ds.len(),
{
    if ds.len() == 0 {
        0
    } else {
        sum_attos(ds.drop_last()) + ds.last().attos
    }
}

/// The sum of the balances of the royalty vaults.
pub open spec fn royalty_total(rs: Seq<RoyaltyState>) -> int
    decreases rs.len(),
{
    if rs.len() == 0 {
        0
    } else {
        royalty_total(rs.drop_last()) + rs.last().balance
    }
}

/// Whether the ledger lets `amount` be taken from a bucket of `balance`, of a
/// token with the given divisibility: it is not negative, not more than the
/// balance, and a whole number of the token's smallest units.
pub open spec fn withdrawable(amount: int, balance: int, divisibility: nat) -> bool {
    &&& 0 <= amount <= balance
    &&& amount % pow10((18 - divisibility) as nat) == 0
}

/// The first refusal, if any, of an instantiation with these arguments.
pub open spec fn instantiation_error(
    payment_token_type: ResourceType,
    price: Decimal,
    account_count: nat,
    percents: Seq<Decimal>,
) -> Option<SaleError> {
    if payment_token_type is NonFungible {
        Some(SaleError::NonFungiblePaymentToken)
    } else if price.attos < 0 {
        Some(SaleError::NegativePrice)
    } else if exists|i: int| 0 <= i < percents.len() && percents[i].attos < 0 {
        Some(SaleError::NegativeRoyaltyPercentage)
    } else if sum_attos(percents) > ATTOS_PER_UNIT {
        Some(SaleError::RoyaltiesOverHundred)
    } else if account_count != percents.len() {
        Some(SaleError::RoyaltyLengthMismatch)
    } else {
        None
    }
}

/// The royalty shares made from the accounts and percentages, pair by pair.
pub open spec fn paired_shares(accounts: Seq<ComponentAddress>, percents: Seq<Decimal>) -> Seq<RoyaltyShare> {
    Seq::new(percents.len(), |i: int| RoyaltyShare { account_component: accounts[i], percentage: percents[i] })
}

/// The sale that an instantiation sets up, where it is not refused.
pub open spec fn instantiated(
    tokens: Seq<Holding>,
    payment_token: ResourceAddress,
    divisibility: nat,
    price: Decimal,
) -> SaleState {
    SaleState {
        nft_vaults: aggregate(tokens),
        payment_balance: 0,
        accepted_payment_token: payment_token,
        payment_divisibility: divisibility,
        price: price.attos as int,
        royalties: Seq::empty(),
    }
}

/// The royalty on the price `price` of a vault with the percentage `percentage`,
/// as the ledger multiplies it.
pub open spec fn royalty_owed(percentage: int, price: int) -> int {
    mul_attos(percentage, price)
}

/// The royalty vaults after the first `n` of them took, in turn, their
/// royalty on the price out of a payment of `payment`: the updated vaults and
/// what is left of the payment, or `None` where the ledger refuses a
/// withdrawal.
pub open spec fn settle(rs: Seq<RoyaltyState>, n: nat, payment: int, price: int, divisibility: nat) -> Option<
    (Seq<RoyaltyState>, int),
>
    decreases n,
{
    if n == 0 {
        Some((Seq::empty(), payment))
    } else {
        match settle(rs, (n - 1) as nat, payment, price, divisibility) {
            None => None,
            Some(done) => {
                let r = rs[n - 1];
                let owed = royalty_owed(r.percentage, price);
                if withdrawable(owed, done.1, divisibility) {
                    Some(
                        (
                            done.0.push(
                                RoyaltyState { badge_id: r.badge_id, percentage: r.percentage, balance: r.balance + owed },
                            ),
                            done.1 - owed,
                        ),
                    )
                } else {
                    None
                }
            },
        }
    }
}

/// What a purchase with a payment of `amount` of `token` does: the sale
/// after it, the tokens handed over, and what is left of the payment; or the
/// refusal. Each royalty vault takes its royalty on the price, the payment
/// vault takes the rest of the price, and the buyer keeps the payment less
/// the price.
pub open spec fn buy_outcome(s: SaleState, token: ResourceAddress, amount: int) -> Result<
    (SaleState, Seq<Holding>, int),
    SaleError,
> {
    if token != s.accepted_payment_token {
        Err(SaleError::WrongPaymentToken)
    } else if amount < s.price {
        Err(SaleError::InsufficientPayment)
    } else {
        match settle(s.royalties, s.royalties.len(), amount, s.price, s.payment_divisibility) {
            None => Err(SaleError::PaymentWithdrawalRefused),
            Some(done) => {
                let seller = s.price - (amount - done.1);
                if withdrawable(seller, done.1, s.payment_divisibility) {
                    Ok(
                        (
                            SaleState {
                                nft_vaults: emptied(s.nft_vaults),
                                payment_balance: s.payment_balance + seller,
                                royalties: done.0,
                                ..s
                            },
                            s.nft_vaults,
                            done.1 - seller,
                        ),
                    )
                } else {
                    Err(SaleError::PaymentWithdrawalRefused)
                }
            },
        }
    }
}

/// The percentages of the royalty shares, in order.
pub open spec fn share_percents(shares: Seq<RoyaltyShare>) -> Seq<Decimal> {
    shares.map_values(|sh: RoyaltyShare| sh.percentage)
}

/// Empty royalty vaults for the badges `ids`, each with the percentage of the
/// share of the same index.
pub open spec fn new_royalty_vaults(ids: Seq<NonFungibleLocalId>, shares: Seq<RoyaltyShare>) -> Seq<RoyaltyState> {
    Seq::new(
        ids.len(),
        |i: int| RoyaltyState { badge_id: ids[i], percentage: shares[i].percentage.attos as int, balance: 0 },
    )
}

/// What recording a royalty vault for each minted badge does: the sale with an
/// empty vault per badge added after the vaults it has; or the refusal.
pub open spec fn record_outcome(s: SaleState, ids: Seq<NonFungibleLocalId>, shares: Seq<RoyaltyShare>) -> Result<
    SaleState,
    SaleError,
> {
    if ids.len() != shares.len() {
        Err(SaleError::RoyaltyBadgeMismatch)
    } else if exists|i: int| 0 <= i < shares.len() && shares[i].percentage.attos < 0 {
        Err(SaleError::NegativeRoyaltyPercentage)
    } else if percentage_total(s.royalties) + sum_attos(share_percents(shares)) > ATTOS_PER_UNIT {
        Err(SaleError::RoyaltiesOverHundred)
    } else if !(badge_ids(s.royalties) + ids).no_duplicates() {
        Err(SaleError::RoyaltyBadgeMismatch)
    } else {
        Ok(SaleState { royalties: s.royalties + new_royalty_vaults(ids, shares), ..s })
    }
}

/// What cancelling the sale does: the sale after it and the tokens handed
/// back; or the refusal.
pub open spec fn cancel_outcome(s: SaleState) -> Result<(SaleState, Seq<Holding>), SaleError> {
    if sold(s) {
        Err(SaleError::AlreadySold)
    } else {
        Ok((SaleState { nft_vaults: emptied(s.nft_vaults), ..s }, s.nft_vaults))
    }
}

/// What withdrawing the payment does: the sale after it and the amount handed
/// over; or the refusal.
pub open spec fn withdraw_outcome(s: SaleState) -> Result<(SaleState, int), SaleError> {
    if !sold(s) {
        Err(SaleError::NotSold)
    } else {
        Ok((SaleState { payment_balance: 0, ..s }, s.payment_balance))
    }
}

/// What changing the price to `price` does: the sale after it; or the refusal.
pub open spec fn change_price_outcome(s: SaleState, price: int) -> Result<SaleState, SaleError> {
    if price < 0 {
        Err(SaleError::NegativePrice)
    } else {
        Ok(SaleState { price, ..s })
    }
}

/// What a purchase hands back: the tokens bought, a bucket per resource, and
/// what is left of the payment.
pub struct Purchase {
    pub tokens: Vec<NonFungibleBucket>,
    pub remaining_payment: FungibleBucket,
}

/// A fixed-price sale of a bundle of non-fungible tokens: the vaults of the
/// tokens for sale, one per resource; the payment vault; the accepted payment
/// token and its divisibility; the price; and the royalty vaults.
pub struct FixedPriceSaleWithRoyalty {
    pub nft_vaults: Vec<NonFungibleBucket>,
    pub payment_vault: Decimal,
    pub accepted_payment_token: ResourceAddress,
    pub payment_divisibility: u8,
    pub price: Decimal,
    pub royalties: Vec<RoyaltyVault>,
}

impl View for FixedPriceSaleWithRoyalty {
    type V = SaleState;

    open spec fn view(&self) -> SaleState {
        SaleState {
            nft_vaults: holdings(self.nft_vaults@),
            payment_balance: self.payment_vault.attos as int,
            accepted_payment_token: self.accepted_payment_token,
            payment_divisibility: self.payment_divisibility as nat,
            price: self.price.attos as int,
            royalties: royalty_states(self.royalties@),
        }
    }
}

/// The sum of a prefix of non-negative decimals is at most the whole sum,
/// and not negative.
pub proof fn lemma_sum_attos_prefix(ds: Seq<Decimal>, k: int)
    requires
        0 <= k <= ds.len(),
        forall|i: int| 0 <= i < ds.len() ==> ds[i].attos >= 0,
    ensures
        0 <= sum_attos(ds.take(k)) <= sum_attos(ds),
    decreases ds.len(),
{
    if ds.len() > 0 {
        if k == ds.len() {
            assert(ds.take(k) =~= ds);
            lemma_sum_attos_prefix(ds.drop_last(), k - 1);
            assert(ds.drop_last().take(k - 1) =~= ds.drop_last());
        } else {
            lemma_sum_attos_prefix(ds.drop_last(), k);
            assert(ds.drop_last().take(k) =~= ds.take(k));
        }
    }
}

/// The royalties that the first `n` vaults are owed on the price `price`.
pub open spec fn owed_total(rs: Seq<RoyaltyState>, n: nat, price: int) -> int
    decreases n,
{
    if n == 0 {
        0
    } else {
        owed_total(rs, (n - 1) as nat, price) + royalty_owed(rs[n - 1].percentage, price)
    }
}

/// Once the ledger refuses a royalty withdrawal, the settlement stays refused.
pub proof fn lemma_settle_refused(rs: Seq<RoyaltyState>, m: nat, n: nat, payment: int, price: int, divisibility: nat)
    requires
        m <= n,
        settle(rs, m, payment, price, divisibility) is None,
    ensures
        settle(rs, n, payment, price, divisibility) is None,
    decreases n,
{
    if m < n {
        lemma_settle_refused(rs, m, (n - 1) as nat, payment, price, divisibility);
    }
}

/// A settlement that goes through pays each vault its royalty on the price,
/// keeps each vault's badge and percentage, and leaves the payment less the
/// royalties, between zero and the payment.
pub proof fn lemma_settle_bounds(rs: Seq<RoyaltyState>, n: nat, payment: int, price: int, divisibility: nat)
    requires
        n <= rs.len(),
        payment >= 0,
        settle(rs, n, payment, price, divisibility) is Some,
    ensures
        ({
            let done = settle(rs, n, payment, price, divisibility).unwrap();
            &&& 0 <= done.1 <= payment
            &&& done.1 == payment - owed_total(rs, n, price)
            &&& done.0.len() == n
            &&& forall|i: int| 0 <= i < n ==> {
                &&& (#[trigger] done.0[i]).badge_id == rs[i].badge_id
                &&& done.0[i].percentage == rs[i].percentage
                &&& done.0[i].balance == rs[i].balance + royalty_owed(rs[i].percentage, price)
                &&& 0 <= royalty_owed(rs[i].percentage, price) <= payment
            }
        }),
    decreases n,
{
    if n > 0 {
        lemma_settle_bounds(rs, (n - 1) as nat, payment, price, divisibility);
    }
}

/// The sum of the percentages of two runs of vaults is the sum of their sums.
pub proof fn lemma_percentage_total_append(a: Seq<RoyaltyState>, b: Seq<RoyaltyState>)
    ensures
        percentage_total(a + b) == percentage_total(a) + percentage_total(b),
    decreases b.len(),
{
    if b.len() > 0 {
        lemma_percentage_total_append(a, b.drop_last());
        assert((a + b).drop_last() =~= a + b.drop_last());
    }
}

/// Vaults with the same percentages have the same sum of percentages.
pub proof fn lemma_percentage_total_same(a: Seq<RoyaltyState>, b: Seq<RoyaltyState>)
    requires
        a.len() == b.len(),
        forall|i: int| 0 <= i < a.len() ==> #[trigger] a[i].percentage == b[i].percentage,
    ensures
        percentage_total(a) == percentage_total(b),
    decreases a.len(),
{
    if a.len() > 0 {
        lemma_percentage_total_same(a.drop_last(), b.drop_last());
    }
}

/// The sum of the percentages of new vaults is that of their shares.
pub proof fn lemma_new_vaults_total(ids: Seq<NonFungibleLocalId>, shares: Seq<RoyaltyShare>)
    requires
        ids.len() == shares.len(),
    ensures
        percentage_total(new_royalty_vaults(ids, shares)) == sum_attos(share_percents(shares)),
    decreases ids.len(),
{
    if ids.len() > 0 {
        lemma_new_vaults_total(ids.drop_last(), shares.drop_last());
        assert(new_royalty_vaults(ids, shares).drop_last() =~= new_royalty_vaults(ids.drop_last(), shares.drop_last()));
        assert(share_percents(shares).drop_last() =~= share_percents(shares.drop_last()));
    }
}

/// With no negative percentage, a prefix sums to at most the whole, and each
/// percentage is at most the whole.
pub proof fn lemma_percentage_total_prefix(rs: Seq<RoyaltyState>, k: int)
    requires
        0 <= k <= rs.len(),
        forall|i: int| 0 <= i < rs.len() ==> #[trigger] rs[i].percentage >= 0,
    ensures
        0 <= percentage_total(rs.take(k)) <= percentage_total(rs),
        forall|i: int| 0 <= i < rs.len() ==> #[trigger] rs[i].percentage <= percentage_total(rs),
    decreases rs.len(),
{
    if rs.len() > 0 {
        if k == rs.len() {
            assert(rs.take(k) =~= rs);
            lemma_percentage_total_prefix(rs.drop_last(), k - 1);
        } else {
            lemma_percentage_total_prefix(rs.drop_last(), k);
            assert(rs.drop_last().take(k) =~= rs.take(k));
        }
        lemma_percentage_total_prefix(rs.drop_last(), 0);
        assert forall|i: int| 0 <= i < rs.len() implies #[trigger] rs[i].percentage <= percentage_total(rs) by {
            if i < rs.len() - 1 {
                assert(rs.drop_last()[i] == rs[i]);
            }
        }
    }
}

/// A non-negative share of a non-negative price, as the ledger multiplies it,
/// is not negative and, times one unit, at most the exact product.
pub proof fn lemma_share_of_price(p: int, price: int)
    requires
        p >= 0,
        price >= 0,
    ensures
        0 <= royalty_owed(p, price),
        ATTOS_PER_UNIT * royalty_owed(p, price) <= p * price,
{
    assert(p * price >= 0) by (nonlinear_arith)
        requires
            p >= 0,
            price >= 0,
    ;
    let q = (p * price) / (ATTOS_PER_UNIT as int);
    assert(q >= 0 && ATTOS_PER_UNIT * q <= p * price) by (nonlinear_arith)
        requires
            p * price >= 0,
            q == (p * price) / (ATTOS_PER_UNIT as int),
            ATTOS_PER_UNIT > 0,
    ;
}

/// With no negative percentage and a non-negative price, the royalties owed,
/// times one unit, are at most the sum of the percentages times the price.
pub proof fn lemma_owed_total_bounded(rs: Seq<RoyaltyState>, n: nat, price: int)
    requires
        n <= rs.len(),
        price >= 0,
        forall|i: int| 0 <= i < rs.len() ==> #[trigger] rs[i].percentage >= 0,
    ensures
        0 <= owed_total(rs, n, price),
        ATTOS_PER_UNIT * owed_total(rs, n, price) <= percentage_total(rs.take(n as int)) * price,
    decreases n,
{
    if n > 0 {
        lemma_owed_total_bounded(rs, (n - 1) as nat, price);
        lemma_share_of_price(rs[n - 1].percentage, price);
        let t = rs.take(n as int);
        assert(t.drop_last() =~= rs.take(n - 1));
        assert(percentage_total(t) == percentage_total(rs.take(n - 1)) + rs[n - 1].percentage);
        let a = percentage_total(rs.take(n - 1));
        let b = rs[n - 1].percentage;
        assert((a + b) * price == a * price + b * price) by (nonlinear_arith);
    }
}

/// Under well-formed royalty vaults, the royalties owed on a non-negative price
/// are at most the price.
pub proof fn lemma_owed_within_price(rs: Seq<RoyaltyState>, price: int)
    requires
        royalties_well_formed(rs),
        price >= 0,
    ensures
        0 <= owed_total(rs, rs.len(), price) <= price,
{
    assert forall|i: int| 0 <= i < rs.len() implies #[trigger] rs[i].percentage >= 0 by {
        assert(rs[i].balance >= 0);
    }
    lemma_owed_total_bounded(rs, rs.len(), price);
    assert(rs.take(rs.len() as int) =~= rs);
    let t = percentage_total(rs);
    assert(t * price <= ATTOS_PER_UNIT * price) by (nonlinear_arith)
        requires
            t <= ATTOS_PER_UNIT,
            price >= 0,
    ;
}

/// Whether `start` plus the sum of the non-negative decimals `ps` is at most
/// one whole unit.
pub fn sum_within_unit(start: i128, ps: &Vec<Decimal>) -> (r: bool)
    requires
        0 <= start <= ATTOS_PER_UNIT,
        forall|i: int| 0 <= i < ps.len() ==> #[trigger] ps[i].attos >= 0,
    ensures
        r == (start + sum_attos(ps@) <= ATTOS_PER_UNIT),
{
    let unit: i128 = Decimal::from_units(1).attos;
    let n = ps.len();
    let mut total: i128 = start;
    let mut i: usize = 0;
    while i < n
        invariant
            i <= n == ps.len(),
            unit == ATTOS_PER_UNIT,
            forall|j: int| 0 <= j < n ==> #[trigger] ps[j].attos >= 0,
            total == start + sum_attos(ps@.take(i as int)),
            total <= unit,
        decreases n - i,
    {
        proof {
            assert(ps@.take(i + 1).drop_last() =~= ps@.take(i as int));
            lemma_sum_attos_prefix(ps@, i + 1);
            assert(ps@.take(i + 1).last() == ps@[i as int]);
        }
        match total.checked_add(ps[i].attos) {
            None => {
                return false;
            },
            Some(t) => {
                if t > unit {
                    return false;
                }
                total = t;
            },
        }
        i = i + 1;
    }
    assert(ps@.take(n as int) =~= ps@);
    true
}

/// The sum of the percentages of royalty vaults with no negative percentage,
/// where it is at most one whole unit.
pub fn royalty_percentages_within_unit(rs: &Vec<RoyaltyVault>) -> (r: Option<i128>)
    requires
        forall|i: int| 0 <= i < rs.len() ==> #[trigger] rs[i].percentage.attos >= 0,
    ensures
        r is Some <==> percentage_total(royalty_states(rs@)) <= ATTOS_PER_UNIT,
        r matches Some(t) ==> t == percentage_total(royalty_states(rs@)),
{
    let ghost v = royalty_states(rs@);
    let unit: i128 = Decimal::from_units(1).attos;
    let n = rs.len();
    let mut total: i128 = 0;
    let mut i: usize = 0;
    proof {
        assert forall|j: int| 0 <= j < v.len() implies #[trigger] v[j].percentage >= 0 by {
            assert(v[j] == rs@[j]@);
        }
    }
    while i < n
        invariant
            i <= n == rs.len() == v.len(),
            v == royalty_states(rs@),
            unit == ATTOS_PER_UNIT,
            forall|j: int| 0 <= j < v.len() ==> #[trigger] v[j].percentage >= 0,
            total == percentage_total(v.take(i as int)),
            total <= unit,
        decreases n - i,
    {
        proof {
            assert(v.take(i + 1).drop_last() =~= v.take(i as int));
            lemma_percentage_total_prefix(v, i + 1);
            assert(v.take(i + 1).last() == v[i as int]);
            assert(v[i as int] == rs@[i as int]@);
        }
        match total.checked_add(rs[i].percentage.attos) {
            None => {
                return None;
            },
            Some(t) => {
                if t > unit {
                    return None;
                }
                total = t;
            },
        }
        i = i + 1;
    }
    assert(v.take(n as int) =~= v);
    Some(total)
}

/// The badge ids of the royalty vaults, in order.
pub fn badge_id_list(rs: &Vec<RoyaltyVault>) -> (r: Vec<NonFungibleLocalId>)
    ensures
        r@ == badge_ids(royalty_states(rs@)),
{
    let mut r: Vec<NonFungibleLocalId> = Vec::new();
    let mut i: usize = 0;
    while i < rs.len()
        invariant
            i <= rs.len(),
            r@ == badge_ids(royalty_states(rs@)).take(i as int),
        decreases rs.len() - i,
    {
        r.push(rs[i].badge_id);
        i = i + 1;
        assert(r@ =~= badge_ids(royalty_states(rs@)).take(i as int));
    }
    assert(badge_ids(royalty_states(rs@)).take(rs.len() as int) =~= badge_ids(royalty_states(rs@)));
    r
}

impl FixedPriceSaleWithRoyalty {
    /// The sale, in numbers, is well formed.
    pub open spec fn wf(&self) -> bool {
        well_formed(self@)
    }

    /// Whether the sale is well formed: no two vaults of tokens are of the same
    /// resource, no vault holds an id twice, no balance and not the price is
    /// negative, the divisibility is at most eighteen, no royalty percentage is
    /// negative, the percentages add up to at most one unit, and no badge id
    /// comes twice.
    pub fn is_well_formed(&self) -> (r: bool)
        ensures
            r == self.wf(),
    {
        let ghost hs = self@.nft_vaults;
        let n = self.nft_vaults.len();
        let mut i: usize = 0;
        while i < n
            invariant
                n == self.nft_vaults.len() == hs.len(),
                hs == self@.nft_vaults,
                i <= n,
                forall|a: int, b: int| 0 <= a < i && 0 <= b < n && a != b ==> hs[a].0 != hs[b].0,
            decreases n - i,
        {
            let mut j: usize = 0;
            while j < n
                invariant
                    n == self.nft_vaults.len() == hs.len(),
                    hs == self@.nft_vaults,
                    i < n,
                    j <= n,
                    forall|a: int, b: int| 0 <= a < i && 0 <= b < n && a != b ==> hs[a].0 != hs[b].0,
                    forall|b: int| 0 <= b < j && b != i ==> hs[i as int].0 != hs[b].0,
                decreases n - j,
            {
                assert(hs[i as int] == self.nft_vaults[i as int]@ && hs[j as int] == self.nft_vaults[j as int]@);
                if j != i && self.nft_vaults[i].resource_address.equals(&self.nft_vaults[j].resource_address) {
                    return false;
                }
                j = j + 1;
            }
            i = i + 1;
        }
        let mut i: usize = 0;
        while i < n
            invariant
                n == self.nft_vaults.len() == hs.len(),
                hs == self@.nft_vaults,
                i <= n,
                forall|a: int| 0 <= a < i ==> (#[trigger] hs[a]).1.no_duplicates(),
            decreases n - i,
        {
            assert(hs[i as int] == self.nft_vaults[i as int]@);
            if !ids_distinct(&self.nft_vaults[i].ids) {
                return false;
            }
            i = i + 1;
        }
        if self.payment_vault.attos < 0 || self.payment_divisibility > 18 || self.price.attos < 0 {
            return false;
        }
        let ghost v = self@.royalties;
        let m = self.royalties.len();
        let mut k: usize = 0;
        while k < m
            invariant
                m == self.royalties.len() == v.len(),
                v == self@.royalties,
                k <= m,
                forall|a: int| 0 <= a < k ==> (#[trigger] v[a]).balance >= 0 && v[a].percentage >= 0,
                forall|a: int| 0 <= a < k ==> (#[trigger] self.royalties@[a]).percentage.attos >= 0,
            decreases m - k,
        {
            assert(v[k as int] == self.royalties[k as int]@);
            if self.royalties[k].balance.attos < 0 || self.royalties[k].percentage.attos < 0 {
                return false;
            }
            k = k + 1;
        }
        if royalty_percentages_within_unit(&self.royalties).is_none() {
            return false;
        }
        let badges = badge_id_list(&self.royalties);
        ids_distinct(&badges)
    }

    /// Sets up a sale of the tokens in `non_fungible_tokens`, for `price` of
    /// `accepted_payment_token`, whose type the ledger reports as
    /// `accepted_payment_token_type`.
    ///
    /// Percentages are fractions of the price: one whole unit is one hundred
    /// percent. Refuses, in this order: a non-fungible payment token, a
    /// negative price, a negative royalty percentage, royalty percentages that
    /// add up to more than one hundred percent, and unequal numbers of royalty
    /// accounts and percentages. Otherwise the tokens are gathered into one
    /// vault per resource and the payment vault is empty; the royalty shares
    /// to be minted as badges, one per account and percentage, are handed back
    /// beside the sale, whose royalty vaults `record_royalty_vaults` then
    /// opens, one per minted badge.
    pub fn instantiate_fixed_price_sale_with_royalty(
        non_fungible_tokens: Vec<NonFungibleBucket>,
        accepted_payment_token: ResourceAddress,
        accepted_payment_token_type: ResourceType,
        price: Decimal,
        royalty_accounts: Vec<ComponentAddress>,
        royalty_percents: Vec<Decimal>,
    ) -> (r: Result<(Self, Vec<RoyaltyShare>), SaleError>)
        requires
            accepted_payment_token_type matches ResourceType::Fungible { divisibility } ==> divisibility <= 18,
            forall|a: ResourceAddress| (#[trigger] given(holdings(non_fungible_tokens@), a)).no_duplicates(),
        ensures
            match r {
                Err(e) => instantiation_error(
                    accepted_payment_token_type,
                    price,
                    royalty_accounts.len() as nat,
                    royalty_percents@,
                ) == Some(e),
                Ok((sale, shares)) => {
                    &&& instantiation_error(
                        accepted_payment_token_type,
                        price,
                        royalty_accounts.len() as nat,
                        royalty_percents@,
                    ) is None
                    &&& accepted_payment_token_type matches ResourceType::Fungible { divisibility }
                    &&& sale@ == instantiated(
                        holdings(non_fungible_tokens@),
                        accepted_payment_token,
                        divisibility as nat,
                        price,
                    )
                    &&& sale.wf()
                    &&& royalty_accounts.len() == royalty_percents.len()
                    &&& shares.len() == royalty_accounts.len()
                    &&& shares@ == paired_shares(royalty_accounts@, royalty_percents@)
                },
            },
    {
        let divisibility = match accepted_payment_token_type {
            ResourceType::NonFungible => {
                return Err(SaleError::NonFungiblePaymentToken);
            },
            ResourceType::Fungible { divisibility } => divisibility,
        };
        if price.attos < 0 {
            return Err(SaleError::NegativePrice);
        }
        let n = royalty_percents.len();
        let mut i: usize = 0;
        while i < n
            invariant
                i <= n == royalty_percents.len(),
                price.attos >= 0,
                accepted_payment_token_type == (ResourceType::Fungible { divisibility }),
                forall|j: int| 0 <= j < i ==> royalty_percents[j].attos >= 0,
            decreases n - i,
        {
            if royalty_percents[i].attos < 0 {
                assert(royalty_percents@[i as int].attos < 0);
                return Err(SaleError::NegativeRoyaltyPercentage);
            }
            i = i + 1;
        }
        if !sum_within_unit(0, &royalty_percents) {
            return Err(SaleError::RoyaltiesOverHundred);
        }
        if royalty_accounts.len() != n {
            return Err(SaleError::RoyaltyLengthMismatch);
        }
        let nft_vaults = aggregate_buckets(&non_fungible_tokens);
        proof {
            let bs = holdings(non_fungible_tokens@);
            let hs = aggregate(bs);
            lemma_aggregate(bs, accepted_payment_token);
            assert forall|i: int| 0 <= i < hs.len() implies (#[trigger] hs[i]).1.no_duplicates() by {
                lemma_aggregate(bs, hs[i].0);
                lemma_position(hs, hs[i].0, i);
                assert(given(bs, hs[i].0).no_duplicates());
            }
        }
        let mut shares: Vec<RoyaltyShare> = Vec::new();
        let mut i: usize = 0;
        while i < n
            invariant
                i <= n == royalty_percents.len() == royalty_accounts.len(),
                shares@ == paired_shares(royalty_accounts@, royalty_percents@).take(i as int),
            decreases n - i,
        {
            shares.push(RoyaltyShare { account_component: royalty_accounts[i], percentage: royalty_percents[i] });
            i = i + 1;
            assert(shares@ =~= paired_shares(royalty_accounts@, royalty_percents@).take(i as int));
        }
        assert(paired_shares(royalty_accounts@, royalty_percents@).take(n as int) =~= paired_shares(
            royalty_accounts@,
            royalty_percents@,
        ));
        let sale = FixedPriceSaleWithRoyalty {
            nft_vaults,
            payment_vault: Decimal::zero(),
            accepted_payment_token,
            payment_divisibility: divisibility,
            price,
            royalties: Vec::new(),
        };
        assert(royalty_states(sale.royalties@) =~= Seq::<RoyaltyState>::empty());
        assert(sale@ =~= instantiated(holdings(non_fungible_tokens@), accepted_payment_token, divisibility as nat, price));
        Ok((sale, shares))
    }

    /// Opens an empty royalty vault for each minted royalty badge: badge
    /// `badge_ids[i]` carries the share `shares[i]`. The vaults come after
    /// those the sale already has.
    ///
    /// Refuses unequal numbers of badges and shares, a negative percentage,
    /// percentages that, with those already recorded, add up to more than one
    /// hundred percent, and a badge id that comes twice or is already recorded.
    pub fn record_royalty_vaults(
        &mut self,
        badge_ids: &Vec<NonFungibleLocalId>,
        shares: &Vec<RoyaltyShare>,
    ) -> (r: Result<(), SaleError>)
        requires
            old(self).wf(),
        ensures
            final(self).wf(),
            match r {
                Ok(()) => record_outcome(old(self)@, badge_ids@, shares@) == Ok::<SaleState, SaleError>(final(self)@),
                Err(e) => {
                    &&& record_outcome(old(self)@, badge_ids@, shares@) == Err::<SaleState, SaleError>(e)
                    &&& final(self)@ == old(self)@
                },
            },
    {
        let ghost s = self@;
        let n = shares.len();
        if badge_ids.len() != n {
            return Err(SaleError::RoyaltyBadgeMismatch);
        }
        let mut percents: Vec<Decimal> = Vec::new();
        let mut i: usize = 0;
        while i < n
            invariant
                i <= n == shares.len() == badge_ids.len(),
                self@ == s,
                well_formed(s),
                percents@ == share_percents(shares@).take(i as int),
                forall|j: int| 0 <= j < i ==> #[trigger] shares@[j].percentage.attos >= 0,
            decreases n - i,
        {
            if shares[i].percentage.attos < 0 {
                assert(shares@[i as int].percentage.attos < 0);
                return Err(SaleError::NegativeRoyaltyPercentage);
            }
            percents.push(shares[i].percentage);
            i = i + 1;
            assert(percents@ =~= share_percents(shares@).take(i as int));
        }
        assert(percents@ =~= share_percents(shares@));
        proof {
            assert forall|j: int| 0 <= j < self.royalties.len() implies #[trigger] self.royalties@[j].percentage.attos
                >= 0 by {
                assert(s.royalties[j] == self.royalties@[j]@);
            }
        }
        let existing = match royalty_percentages_within_unit(&self.royalties) {
            Some(t) => t,
            None => {
                assert(false);
                return Err(SaleError::RoyaltiesOverHundred);
            },
        };
        proof {
            assert forall|i: int| 0 <= i < s.royalties.len() implies #[trigger] s.royalties[i].percentage >= 0 by {
                assert(s.royalties[i].balance >= 0);
            }
            lemma_percentage_total_prefix(s.royalties, 0);
        }
        if !sum_within_unit(existing, &percents) {
            return Err(SaleError::RoyaltiesOverHundred);
        }
        let mut all_ids = badge_id_list(&self.royalties);
        let mut new_ids = copy_ids(badge_ids, n);
        assert(new_ids@ =~= badge_ids@);
        all_ids.append(&mut new_ids);
        if !ids_distinct(&all_ids) {
            return Err(SaleError::RoyaltyBadgeMismatch);
        }
        let ghost fresh = new_royalty_vaults(badge_ids@, shares@);
        let mut j: usize = 0;
        while j < n
            invariant
                j <= n == shares.len() == badge_ids.len(),
                fresh == new_royalty_vaults(badge_ids@, shares@),
                self@ == (SaleState { royalties: s.royalties + fresh.take(j as int), ..s }),
            decreases n - j,
        {
            let ghost before = self.royalties@;
            self.royalties.push(RoyaltyVault {
                badge_id: badge_ids[j],
                percentage: shares[j].percentage,
                balance: Decimal::zero(),
            });
            proof {
                assert(royalty_states(self.royalties@) =~= royalty_states(before).push(self.royalties@[before.len() as int]@));
                assert(fresh.take(j + 1) =~= fresh.take(j as int).push(fresh[j as int]));
                assert(s.royalties + fresh.take(j + 1) =~= (s.royalties + fresh.take(j as int)).push(fresh[j as int]));
            }
            j = j + 1;
        }
        assert(fresh.take(n as int) =~= fresh);
        proof {
            let rs = self@.royalties;
            lemma_percentage_total_append(s.royalties, fresh);
            lemma_new_vaults_total(badge_ids@, shares@);
            assert(self::badge_ids(rs) =~= self::badge_ids(s.royalties) + badge_ids@);
            assert forall|i: int| 0 <= i < rs.len() implies (#[trigger] rs[i]).balance >= 0 && rs[i].percentage >= 0 by {
                if i < s.royalties.len() {
                    assert(rs[i] == s.royalties[i]);
                } else {
                    assert(rs[i] == fresh[i - s.royalties.len()]);
                    assert(shares@[i - s.royalties.len()].percentage.attos >= 0);
                }
            }
            assert(percentage_total(rs) <= ATTOS_PER_UNIT);
            assert(self::badge_ids(rs).no_duplicates());
            assert(royalties_well_formed(rs));
            assert(well_formed(self@));
        }
        Ok(())
    }

    /// Buys the tokens with `payment`.
    ///
    /// Refuses a payment in another token than the accepted one, and one of
    /// less than the price. Otherwise each royalty vault, in turn, takes its
    /// percentage of the price out of the payment; then the rest of the price
    /// goes into the payment vault, every token is handed over, a bucket per
    /// resource, and the payment less the price comes back. Where the ledger
    /// refuses one of these withdrawals from the payment (an amount finer than
    /// the token's divisibility), the purchase is refused and nothing changes.
    pub fn buy(&mut self, payment: FungibleBucket) -> (r: Result<Purchase, SaleError>)
        requires
            old(self).wf(),
            payment.amount.attos >= 0,
            old(self)@.payment_balance + payment.amount.attos <= i128::MAX,
            forall|i: int|
                0 <= i < old(self)@.royalties.len() ==> old(self)@.royalties[i].balance + payment.amount.attos
                    <= i128::MAX,
        ensures
            final(self).wf(),
            match r {
                Ok(purchase) => {
                    &&& buy_outcome(old(self)@, payment.resource_address, payment.amount.attos as int) == Ok::<
                        (SaleState, Seq<Holding>, int),
                        SaleError,
                    >((final(self)@, holdings(purchase.tokens@), purchase.remaining_payment.amount.attos as int))
                    &&& purchase.remaining_payment.resource_address == payment.resource_address
                },
                Err(e) => {
                    &&& buy_outcome(old(self)@, payment.resource_address, payment.amount.attos as int) == Err::<
                        (SaleState, Seq<Holding>, int),
                        SaleError,
                    >(e)
                    &&& final(self)@ == old(self)@
                },
            },
    {
        let ghost s = self@;
        if !payment.resource_address.equals(&self.accepted_payment_token) {
            return Err(SaleError::WrongPaymentToken);
        }
        if payment.amount.attos < self.price.attos {
            return Err(SaleError::InsufficientPayment);
        }
        let unit = smallest_unit(self.payment_divisibility);
        let amount = payment.amount.attos;
        let price = self.price;
        let mut remaining: i128 = amount;
        let mut paid: Vec<RoyaltyVault> = Vec::new();
        let n = self.royalties.len();
        let mut k: usize = 0;
        while k < n
            invariant
                s == self@,
                self.wf(),
                n == self.royalties.len() == s.royalties.len(),
                k <= n,
                0 <= amount,
                amount == payment.amount.attos,
                payment.resource_address == s.accepted_payment_token,
                amount >= s.price,
                price.attos == s.price,
                unit == pow10((18 - s.payment_divisibility) as nat),
                unit >= 1,
                forall|i: int| 0 <= i < s.royalties.len() ==> s.royalties[i].balance + amount <= i128::MAX,
                settle(s.royalties, k as nat, amount as int, s.price, s.payment_divisibility) == Some::<
                    (Seq<RoyaltyState>, int),
                >((royalty_states(paid@), remaining as int)),
            decreases n - k,
        {
            proof {
                lemma_settle_bounds(s.royalties, k as nat, amount as int, s.price, s.payment_divisibility);
            }
            let royalty = self.royalties[k];
            assert(royalty@ == s.royalties[k as int]);
            let owed = match royalty.percentage.checked_mul(price) {
                Some(d) => d.attos,
                None => {
                    proof {
                        lemma_settle_refused(
                            s.royalties,
                            (k + 1) as nat,
                            n as nat,
                            amount as int,
                            s.price,
                            s.payment_divisibility,
                        );
                    }
                    return Err(SaleError::PaymentWithdrawalRefused);
                },
            };
            if owed < 0 || owed > remaining || owed % unit != 0 {
                proof {
                    lemma_settle_refused(
                        s.royalties,
                        (k + 1) as nat,
                        n as nat,
                        amount as int,
                        s.price,
                        s.payment_divisibility,
                    );
                }
                return Err(SaleError::PaymentWithdrawalRefused);
            }
            remaining = remaining - owed;
            let ghost before = paid@;
            paid.push(RoyaltyVault {
                badge_id: royalty.badge_id,
                percentage: royalty.percentage,
                balance: Decimal::from_attos(royalty.balance.attos + owed),
            });
            assert(royalty_states(paid@) =~= royalty_states(before).push(paid@[k as int]@));
            k = k + 1;
        }
        proof {
            lemma_settle_bounds(s.royalties, n as nat, amount as int, s.price, s.payment_divisibility);
        }
        let seller = price.attos - (amount - remaining);
        if seller < 0 || seller > remaining || seller % unit != 0 {
            return Err(SaleError::PaymentWithdrawalRefused);
        }
        remaining = remaining - seller;
        self.royalties = paid;
        self.payment_vault = Decimal::from_attos(self.payment_vault.attos + seller);
        let tokens = take_all(&mut self.nft_vaults);
        proof {
            let e = emptied(s.nft_vaults);
            assert forall|i: int, j: int| 0 <= i < e.len() && 0 <= j < e.len() && i != j implies e[i].0 != e[j].0 by {
                assert(s.nft_vaults[i].0 != s.nft_vaults[j].0);
            }
            assert forall|i: int| 0 <= i < e.len() implies (#[trigger] e[i]).1.no_duplicates() by {}
            let rs = self@.royalties;
            assert(rs.len() == s.royalties.len());
            assert forall|i: int| 0 <= i < rs.len() implies (#[trigger] rs[i]).balance >= 0 && rs[i].percentage >= 0 by {
                assert(s.royalties[i].balance >= 0 && s.royalties[i].percentage >= 0);
            }
            lemma_percentage_total_same(rs, s.royalties);
            assert(badge_ids(rs) =~= badge_ids(s.royalties));
        }
        assert(self@ =~= SaleState {
            nft_vaults: emptied(s.nft_vaults),
            payment_balance: s.payment_balance + seller,
            royalties: royalty_states(self.royalties@),
            ..s
        });
        assert(well_formed(self@));
        Ok(Purchase {
            tokens,
            remaining_payment: FungibleBucket {
                resource_address: payment.resource_address,
                amount: Decimal::from_attos(remaining),
            },
        })
    }

    /// Cancels the sale and hands every token back, a bucket per resource.
    ///
    /// Refused once the tokens have been sold.
    pub fn cancel_sale(&mut self) -> (r: Result<Vec<NonFungibleBucket>, SaleError>)
        requires
            old(self).wf(),
        ensures
            final(self).wf(),
            match r {
                Ok(tokens) => cancel_outcome(old(self)@) == Ok::<(SaleState, Seq<Holding>), SaleError>(
                    (final(self)@, holdings(tokens@)),
                ),
                Err(e) => {
                    &&& cancel_outcome(old(self)@) == Err::<(SaleState, Seq<Holding>), SaleError>(e)
                    &&& final(self)@ == old(self)@
                },
            },
    {
        let ghost s = self@;
        if self.is_sold() {
            return Err(SaleError::AlreadySold);
        }
        let tokens = take_all(&mut self.nft_vaults);
        proof {
            let e = emptied(s.nft_vaults);
            assert forall|i: int, j: int| 0 <= i < e.len() && 0 <= j < e.len() && i != j implies e[i].0 != e[j].0 by {
                assert(s.nft_vaults[i].0 != s.nft_vaults[j].0);
            }
        }
        assert(self@ =~= SaleState { nft_vaults: emptied(s.nft_vaults), ..s });
        Ok(tokens)
    }

    /// Hands over the whole payment vault, a bucket of the accepted payment
    /// token.
    ///
    /// Refused while no sale has happened.
    pub fn withdraw_payment(&mut self) -> (r: Result<FungibleBucket, SaleError>)
        requires
            old(self).wf(),
        ensures
            final(self).wf(),
            match r {
                Ok(bucket) => {
                    &&& withdraw_outcome(old(self)@) == Ok::<(SaleState, int), SaleError>(
                        (final(self)@, bucket.amount.attos as int),
                    )
                    &&& bucket.resource_address == old(self)@.accepted_payment_token
                },
                Err(e) => {
                    &&& withdraw_outcome(old(self)@) == Err::<(SaleState, int), SaleError>(e)
                    &&& final(self)@ == old(self)@
                },
            },
    {
        let ghost s = self@;
        if !self.is_sold() {
            return Err(SaleError::NotSold);
        }
        let amount = self.payment_vault;
        self.payment_vault = Decimal::zero();
        assert(self@ =~= SaleState { payment_balance: 0, ..s });
        Ok(FungibleBucket { resource_address: self.accepted_payment_token, amount })
    }

    /// Sets the price to `price`, in the accepted payment token.
    ///
    /// Refuses a negative price.
    pub fn change_price(&mut self, price: Decimal) -> (r: Result<(), SaleError>)
        requires
            old(self).wf(),
        ensures
            final(self).wf(),
            match r {
                Ok(()) => change_price_outcome(old(self)@, price.attos as int) == Ok::<SaleState, SaleError>(
                    final(self)@,
                ),
                Err(e) => {
                    &&& change_price_outcome(old(self)@, price.attos as int) == Err::<SaleState, SaleError>(e)
                    &&& final(self)@ == old(self)@
                },
            },
    {
        let ghost s = self@;
        if price.attos < 0 {
            return Err(SaleError::NegativePrice);
        }
        self.price = price;
        assert(self@ =~= SaleState { price: price.attos as int, ..s });
        Ok(())
    }

    /// The accepted payment token and the price.
    pub fn price(&self) -> (r: (ResourceAddress, Decimal))
        ensures
            r.0 == self@.accepted_payment_token,
            r.1.attos == self@.price,
    {
        (self.accepted_payment_token, self.price)
    }

    /// Whether the tokens have been sold: the payment vault is not empty.
    pub fn is_sold(&self) -> (r: bool)
        ensures
            r == sold(self@),
    {
        self.payment_vault.attos != 0
    }

    /// Each resource for sale with the ids of all its tokens, resource after
    /// resource.
    pub fn non_fungible_ids(&self) -> (r: Vec<(ResourceAddress, Vec<NonFungibleLocalId>)>)
        ensures
            listed(r@) == self@.nft_vaults,
    {
        list_ids(&self.nft_vaults)
    }

    /// The global ids of the tokens that `non_fungible_ids` lists, in its order.
    pub fn non_fungible_addresses(&self) -> (r: Vec<NonFungibleGlobalId>)
        ensures
            r@ == global_ids(self@.nft_vaults),
    {
        let ids = self.non_fungible_ids();
        global_ids_of(&ids)
    }
}

} // verus!
