//! What holds of the sale across its operations.

use vstd::prelude::*;
use vstd::arithmetic::div_mod::{
    lemma_add_mod_noop, lemma_fundamental_div_mod, lemma_mod_multiples_vanish, lemma_mod_pos_bound, lemma_small_mod,
    lemma_sub_mod_noop,
};
use crate::decimal::{lemma_pow10_add, lemma_pow10_monotone, pow10, Decimal, ATTOS_PER_UNIT};
use crate::resources::{Holding, NonFungibleGlobalId, NonFungibleLocalId, ResourceAddress, ResourceType};
use crate::sale::{
    badge_ids, buy_outcome, cancel_outcome, change_price_outcome, instantiated, instantiation_error,
    lemma_new_vaults_total, lemma_owed_within_price, lemma_percentage_total_append, lemma_percentage_total_same,
    lemma_settle_bounds, lemma_share_of_price, new_royalty_vaults, owed_total, paired_shares, percentage_total,
    record_outcome, royalty_owed, royalty_total, settle, share_percents, sold, sum_attos,
    well_formed, withdraw_outcome, RoyaltyShare, RoyaltyState, SaleError, SaleState,
};
use crate::resources::ComponentAddress;
use crate::vaults::{
    distinct_resources, emptied, given, global_ids, has_resource, held, lemma_aggregate, lemma_global_ids_len,
    lemma_position, total_ids,
};

verus! {

/// A new sale keeps one vault per resource of the tokens handed in, and the
/// vault of each resource holds exactly that resource's tokens, in the order
/// in which they were handed in. It has not been sold and keeps no royalty
/// vault until its badges are recorded.
pub proof fn law_instantiated_sale_holds_what_was_handed_in(
    tokens: Seq<Holding>,
    payment_token: ResourceAddress,
    divisibility: nat,
    price: Decimal,
    a: ResourceAddress,
)
    requires
        divisibility <= 18,
        price.attos >= 0,
        forall|b: ResourceAddress| (#[trigger] given(tokens, b)).no_duplicates(),
    ensures
        ({
            let s = instantiated(tokens, payment_token, divisibility, price);
            &&& well_formed(s)
            &&& has_resource(s.nft_vaults, a) == has_resource(tokens, a)
            &&& held(s.nft_vaults, a) == given(tokens, a)
            &&& !sold(s)
            &&& s.royalties.len() == 0
        }),
{
    lemma_instantiated_well_formed(tokens, payment_token, divisibility, price);
    lemma_aggregate(tokens, a);
}

/// A new sale, set up from tokens with no id twice per resource, is well
/// formed.
pub proof fn lemma_instantiated_well_formed(
    tokens: Seq<Holding>,
    payment_token: ResourceAddress,
    divisibility: nat,
    price: Decimal,
)
    requires
        divisibility <= 18,
        price.attos >= 0,
        forall|b: ResourceAddress| (#[trigger] given(tokens, b)).no_duplicates(),
    ensures
        well_formed(instantiated(tokens, payment_token, divisibility, price)),
{
    let s = instantiated(tokens, payment_token, divisibility, price);
    let hs = s.nft_vaults;
    lemma_aggregate(tokens, payment_token);
    assert forall|i: int| 0 <= i < hs.len() implies (#[trigger] hs[i]).1.no_duplicates() by {
        lemma_aggregate(tokens, hs[i].0);
        lemma_position(hs, hs[i].0, i);
        assert(given(tokens, hs[i].0).no_duplicates());
    }
    assert(badge_ids(s.royalties) =~= Seq::<NonFungibleLocalId>::empty());
}

/// After instantiation, recording one minted badge per royalty share that the
/// instantiation handed back opens one empty royalty vault per share, in the
/// order of the shares: badge `ids[i]` with the percentage of the `i`-th share.
pub proof fn law_one_royalty_vault_per_share(
    tokens: Seq<Holding>,
    payment_token: ResourceAddress,
    payment_token_type: ResourceType,
    price: Decimal,
    accounts: Seq<ComponentAddress>,
    percents: Seq<Decimal>,
    ids: Seq<NonFungibleLocalId>,
)
    requires
        instantiation_error(payment_token_type, price, accounts.len(), percents) is None,
        payment_token_type matches ResourceType::Fungible { divisibility } && divisibility <= 18,
        ids.len() == percents.len(),
        ids.no_duplicates(),
    ensures
        ({
            let divisibility = payment_token_type->divisibility;
            let s = instantiated(tokens, payment_token, divisibility as nat, price);
            let shares = paired_shares(accounts, percents);
            let r = record_outcome(s, ids, shares);
            &&& r == Ok::<SaleState, SaleError>(SaleState { royalties: new_royalty_vaults(ids, shares), ..s })
            &&& r->Ok_0.royalties.len() == shares.len()
            &&& forall|i: int|
                0 <= i < ids.len() ==> #[trigger] r->Ok_0.royalties[i] == (RoyaltyState {
                    badge_id: ids[i],
                    percentage: percents[i].attos as int,
                    balance: 0,
                })
        }),
{
    let divisibility = payment_token_type->divisibility;
    let s = instantiated(tokens, payment_token, divisibility as nat, price);
    let shares = paired_shares(accounts, percents);
    assert(share_percents(shares) =~= percents);
    assert(!(exists|i: int| 0 <= i < shares.len() && shares[i].percentage.attos < 0)) by {
        if exists|i: int| 0 <= i < shares.len() && shares[i].percentage.attos < 0 {
            let i = choose|i: int| 0 <= i < shares.len() && shares[i].percentage.attos < 0;
            assert(percents[i].attos < 0);
        }
    }
    assert(s.royalties =~= Seq::<RoyaltyState>::empty());
    assert(percentage_total(s.royalties) == 0);
    assert(badge_ids(s.royalties) + ids =~= ids);
    assert(s.royalties + new_royalty_vaults(ids, shares) =~= new_royalty_vaults(ids, shares));
}

/// The royalty vaults gain in a settlement what the payment loses.
pub proof fn lemma_settle_conserves(rs: Seq<RoyaltyState>, n: nat, payment: int, price: int, divisibility: nat)
    requires
        n <= rs.len(),
        payment >= 0,
        settle(rs, n, payment, price, divisibility) is Some,
    ensures
        royalty_total(settle(rs, n, payment, price, divisibility).unwrap().0) == royalty_total(rs.take(n as int))
            + owed_total(rs, n, price),
    decreases n,
{
    lemma_settle_bounds(rs, n, payment, price, divisibility);
    if n > 0 {
        lemma_settle_conserves(rs, (n - 1) as nat, payment, price, divisibility);
        let done = settle(rs, (n - 1) as nat, payment, price, divisibility).unwrap();
        let next = settle(rs, n, payment, price, divisibility).unwrap();
        assert(next.0.drop_last() =~= done.0);
        assert(rs.take(n as int).drop_last() =~= rs.take(n - 1));
    }
}

/// The part of the price that goes to the seller: the price less the
/// royalties owed on it.
pub open spec fn seller_share(s: SaleState) -> int {
    s.price - owed_total(s.royalties, s.royalties.len(), s.price)
}

/// A purchase pays each royalty vault its percentage of the price and the
/// seller the rest of the price, so that royalties and seller together get
/// exactly the price, and hands back the payment less the price.
pub proof fn law_buy_pays_royalties_on_the_price(s: SaleState, token: ResourceAddress, amount: int)
    requires
        well_formed(s),
        buy_outcome(s, token, amount) is Ok,
    ensures
        ({
            let (after, _tokens, left) = buy_outcome(s, token, amount)->Ok_0;
            &&& left == amount - s.price
            &&& after.payment_balance == s.payment_balance + seller_share(s)
            &&& 0 <= seller_share(s) <= s.price
            &&& (royalty_total(after.royalties) - royalty_total(s.royalties)) + (after.payment_balance
                - s.payment_balance) == s.price
            &&& after.royalties.len() == s.royalties.len()
            &&& forall|i: int|
                0 <= i < s.royalties.len() ==> {
                    &&& (#[trigger] after.royalties[i]).balance == s.royalties[i].balance + royalty_owed(
                        s.royalties[i].percentage,
                        s.price,
                    )
                    &&& after.royalties[i].badge_id == s.royalties[i].badge_id
                    &&& after.royalties[i].percentage == s.royalties[i].percentage
                }
        }),
{
    lemma_settle_bounds(s.royalties, s.royalties.len(), amount, s.price, s.payment_divisibility);
    lemma_settle_conserves(s.royalties, s.royalties.len(), amount, s.price, s.payment_divisibility);
    assert(s.royalties.take(s.royalties.len() as int) =~= s.royalties);
    lemma_owed_within_price(s.royalties, s.price);
}

/// The royalties owed on the first `n` vaults grow with `n`.
pub proof fn lemma_owed_total_grows(rs: Seq<RoyaltyState>, m: nat, n: nat, price: int)
    requires
        m <= n <= rs.len(),
        price >= 0,
        forall|i: int| 0 <= i < rs.len() ==> #[trigger] rs[i].percentage >= 0,
    ensures
        owed_total(rs, m, price) <= owed_total(rs, n, price),
    decreases n,
{
    if m < n {
        lemma_owed_total_grows(rs, m, (n - 1) as nat, price);
        lemma_share_of_price(rs[n - 1].percentage, price);
    }
}

/// Where the royalties owed fit in the payment, the settlement goes through
/// exactly where each royalty is a whole number of the token's smallest units,
/// and then the royalties together are one too.
pub proof fn lemma_settle_succeeds(rs: Seq<RoyaltyState>, n: nat, payment: int, price: int, divisibility: nat)
    requires
        n <= rs.len(),
        price >= 0,
        divisibility <= 18,
        forall|i: int| 0 <= i < rs.len() ==> #[trigger] rs[i].percentage >= 0,
        owed_total(rs, n, price) <= payment,
    ensures
        (settle(rs, n, payment, price, divisibility) is Some) == (forall|i: int|
            0 <= i < n ==> #[trigger] royalty_owed(rs[i].percentage, price) % pow10((18 - divisibility) as nat) == 0),
        settle(rs, n, payment, price, divisibility) is Some ==> owed_total(rs, n, price) % pow10(
            (18 - divisibility) as nat,
        ) == 0,
    decreases n,
{
    let u = pow10((18 - divisibility) as nat);
    lemma_pow10_monotone(0, (18 - divisibility) as nat);
    lemma_owed_total_grows(rs, 0, n, price);
    if n > 0 {
        lemma_owed_total_grows(rs, (n - 1) as nat, n, price);
        lemma_settle_succeeds(rs, (n - 1) as nat, payment, price, divisibility);
        let o = royalty_owed(rs[n - 1].percentage, price);
        lemma_share_of_price(rs[n - 1].percentage, price);
        let t = owed_total(rs, (n - 1) as nat, price);
        if settle(rs, (n - 1) as nat, payment, price, divisibility) is Some {
            lemma_settle_bounds(rs, (n - 1) as nat, payment, price, divisibility);
            if o % u == 0 {
                lemma_add_mod_noop(t, o, u);
                lemma_small_mod(0, u as nat);
            }
        } else {
            assert(!(forall|i: int| 0 <= i < n - 1 ==> #[trigger] royalty_owed(rs[i].percentage, price) % u == 0));
        }
    }
}

/// On a well-formed sale, a purchase in the accepted token of at least the
/// price goes through exactly where the price and each royalty on it are
/// whole numbers of the token's smallest units.
pub proof fn law_buy_succeeds_exactly(s: SaleState, amount: int)
    requires
        well_formed(s),
        amount >= s.price,
    ensures
        (buy_outcome(s, s.accepted_payment_token, amount) is Ok) == (s.price % pow10(
            (18 - s.payment_divisibility) as nat,
        ) == 0 && forall|i: int|
            0 <= i < s.royalties.len() ==> #[trigger] royalty_owed(s.royalties[i].percentage, s.price) % pow10(
                (18 - s.payment_divisibility) as nat,
            ) == 0),
{
    let rs = s.royalties;
    let u = pow10((18 - s.payment_divisibility) as nat);
    lemma_pow10_monotone(0, (18 - s.payment_divisibility) as nat);
    assert forall|i: int| 0 <= i < rs.len() implies #[trigger] rs[i].percentage >= 0 by {
        assert(rs[i].balance >= 0);
    }
    lemma_owed_within_price(rs, s.price);
    let t = owed_total(rs, rs.len(), s.price);
    lemma_settle_succeeds(rs, rs.len(), amount, s.price, s.payment_divisibility);
    if settle(rs, rs.len(), amount, s.price, s.payment_divisibility) is Some {
        lemma_settle_bounds(rs, rs.len(), amount, s.price, s.payment_divisibility);
        lemma_sub_mod_noop(s.price, t, u);
        lemma_mod_pos_bound(s.price, u);
        lemma_small_mod((s.price % u) as nat, u as nat);
        assert((s.price % u - 0) % u == s.price % u);
    }
}

/// Emptying vaults keeps their resources, distinct where they were, and
/// leaves no id.
pub proof fn lemma_emptied(hs: Seq<Holding>)
    ensures
        emptied(hs).len() == hs.len(),
        forall|i: int| 0 <= i < hs.len() ==> #[trigger] emptied(hs)[i].0 == hs[i].0,
        forall|i: int| 0 <= i < hs.len() ==> (#[trigger] emptied(hs)[i]).1.len() == 0,
        forall|i: int| 0 <= i < hs.len() ==> (#[trigger] emptied(hs)[i]).1.no_duplicates(),
        distinct_resources(hs) ==> distinct_resources(emptied(hs)),
        total_ids(emptied(hs)) == 0,
        emptied(emptied(hs)) == emptied(hs),
    decreases hs.len(),
{
    if hs.len() > 0 {
        lemma_emptied(hs.drop_last());
        assert(emptied(hs).drop_last() =~= emptied(hs.drop_last()));
    }
    if distinct_resources(hs) {
        let e = emptied(hs);
        assert forall|i: int, j: int| 0 <= i < e.len() && 0 <= j < e.len() && i != j implies e[i].0 != e[j].0 by {
            assert(hs[i].0 != hs[j].0);
        }
    }
    assert(emptied(emptied(hs)) =~= emptied(hs));
}

/// A purchase keeps a well-formed sale well formed, with the same accepted
/// token, divisibility and price.
pub proof fn lemma_buy_keeps_well_formed(s: SaleState, token: ResourceAddress, amount: int)
    requires
        well_formed(s),
        buy_outcome(s, token, amount) is Ok,
    ensures
        ({
            let after = buy_outcome(s, token, amount)->Ok_0.0;
            &&& well_formed(after)
            &&& after.accepted_payment_token == s.accepted_payment_token
            &&& after.payment_divisibility == s.payment_divisibility
            &&& after.price == s.price
            &&& after.payment_balance >= s.payment_balance
        }),
{
    let after = buy_outcome(s, token, amount)->Ok_0.0;
    law_buy_pays_royalties_on_the_price(s, token, amount);
    lemma_emptied(s.nft_vaults);
    let rs = after.royalties;
    assert forall|i: int| 0 <= i < rs.len() implies (#[trigger] rs[i]).balance >= 0 && rs[i].percentage >= 0 by {
        assert(s.royalties[i].balance >= 0 && s.royalties[i].percentage >= 0);
        lemma_share_of_price(s.royalties[i].percentage, s.price);
    }
    lemma_percentage_total_same(rs, s.royalties);
    assert(badge_ids(rs) =~= badge_ids(s.royalties));
}

/// A purchase hands over every token the sale holds, a bucket per resource,
/// and leaves every vault empty, of the same resource; it keeps the sale well
/// formed.
pub proof fn law_buy_hands_over_every_token(s: SaleState, token: ResourceAddress, amount: int)
    requires
        well_formed(s),
        buy_outcome(s, token, amount) is Ok,
    ensures
        ({
            let (after, tokens, left) = buy_outcome(s, token, amount)->Ok_0;
            &&& tokens == s.nft_vaults
            &&& after.nft_vaults == emptied(s.nft_vaults)
            &&& total_ids(after.nft_vaults) == 0
            &&& 0 <= left <= amount
            &&& well_formed(after)
        }),
{
    lemma_buy_keeps_well_formed(s, token, amount);
    law_buy_pays_royalties_on_the_price(s, token, amount);
    lemma_emptied(s.nft_vaults);
}

/// A purchase marks the sale as sold exactly where it was sold already or the
/// seller's part of the price is positive; so on a sale without royalty
/// vaults a purchase at a positive price marks it as sold.
pub proof fn law_buy_marks_sold(s: SaleState, token: ResourceAddress, amount: int)
    requires
        well_formed(s),
        buy_outcome(s, token, amount) is Ok,
    ensures
        ({
            let after = buy_outcome(s, token, amount)->Ok_0.0;
            &&& sold(after) == (sold(s) || seller_share(s) > 0)
            &&& s.royalties.len() == 0 && s.price > 0 ==> sold(after)
        }),
{
    law_buy_pays_royalties_on_the_price(s, token, amount);
}

/// A purchase in another token than the accepted one, or of less than the
/// price, is refused with that reason.
pub proof fn law_buy_refuses_bad_payment(s: SaleState, token: ResourceAddress, amount: int)
    ensures
        token != s.accepted_payment_token ==> buy_outcome(s, token, amount) == Err::<
            (SaleState, Seq<Holding>, int),
            SaleError,
        >(SaleError::WrongPaymentToken),
        token == s.accepted_payment_token && amount < s.price ==> buy_outcome(s, token, amount) == Err::<
            (SaleState, Seq<Holding>, int),
            SaleError,
        >(SaleError::InsufficientPayment),
{
}

/// A sold sale cannot be cancelled, and the payment of an unsold one cannot be
/// withdrawn.
pub proof fn law_sold_decides_cancel_and_withdraw(s: SaleState)
    ensures
        sold(s) ==> cancel_outcome(s) == Err::<(SaleState, Seq<Holding>), SaleError>(SaleError::AlreadySold),
        !sold(s) ==> withdraw_outcome(s) == Err::<(SaleState, int), SaleError>(SaleError::NotSold),
        cancel_outcome(s) is Ok <==> !sold(s),
        withdraw_outcome(s) is Ok <==> sold(s),
{
}

/// Cancelling hands back what the vaults held and leaves them empty; after a
/// purchase, what it hands back is empty buckets.
pub proof fn law_cancel_hands_back_the_tokens(s: SaleState, token: ResourceAddress, amount: int)
    requires
        well_formed(s),
    ensures
        cancel_outcome(s) is Ok ==> {
            let (after, tokens) = cancel_outcome(s)->Ok_0;
            &&& tokens == s.nft_vaults
            &&& after.nft_vaults == emptied(s.nft_vaults)
            &&& well_formed(after)
        },
        buy_outcome(s, token, amount) is Ok && cancel_outcome(buy_outcome(s, token, amount)->Ok_0.0) is Ok ==> total_ids(
            cancel_outcome(buy_outcome(s, token, amount)->Ok_0.0)->Ok_0.1,
        ) == 0,
{
    lemma_emptied(s.nft_vaults);
}

/// Withdrawing hands over the whole payment vault, which is then empty, so
/// the sale no longer counts as sold and a second withdrawal is refused.
pub proof fn law_withdraw_empties_the_payment_vault(s: SaleState)
    requires
        well_formed(s),
        withdraw_outcome(s) is Ok,
    ensures
        ({
            let (after, amount) = withdraw_outcome(s)->Ok_0;
            &&& amount == s.payment_balance
            &&& amount > 0
            &&& !sold(after)
            &&& withdraw_outcome(after) == Err::<(SaleState, int), SaleError>(SaleError::NotSold)
            &&& well_formed(after)
        }),
{
}

/// The price read after a change of price is the new price; nothing else
/// changes. A negative price is refused.
pub proof fn law_change_price_then_read(s: SaleState, price: int)
    requires
        well_formed(s),
    ensures
        price < 0 ==> change_price_outcome(s, price) == Err::<SaleState, SaleError>(SaleError::NegativePrice),
        price >= 0 ==> {
            let after = change_price_outcome(s, price)->Ok_0;
            &&& after.price == price
            &&& after == SaleState { price, ..s }
            &&& well_formed(after)
        },
{
}

/// Every global id listed is of a listed resource and one of its listed ids.
pub proof fn lemma_global_ids_members(hs: Seq<Holding>)
    ensures
        forall|k: int|
            0 <= k < global_ids(hs).len() ==> exists|i: int|
                0 <= i < hs.len() && (#[trigger] global_ids(hs)[k]).resource_address == hs[i].0
                    && hs[i].1.contains(global_ids(hs)[k].local_id),
        forall|i: int, j: int|
            0 <= i < hs.len() && 0 <= j < hs[i].1.len() ==> global_ids(hs).contains(
                NonFungibleGlobalId { resource_address: hs[i].0, local_id: #[trigger] hs[i].1[j] },
            ),
    decreases hs.len(),
{
    if hs.len() > 0 {
        let rest = hs.drop_last();
        lemma_global_ids_members(rest);
        lemma_global_ids_len(rest);
        let g = global_ids(hs);
        let g0 = global_ids(rest);
        let last = hs.last();
        let tail = last.1.map_values(
            |id: NonFungibleLocalId| NonFungibleGlobalId { resource_address: last.0, local_id: id },
        );
        assert(g == g0 + tail);
        assert forall|k: int| 0 <= k < g.len() implies exists|i: int|
            0 <= i < hs.len() && (#[trigger] g[k]).resource_address == hs[i].0 && hs[i].1.contains(g[k].local_id) by {
            if k < g0.len() {
                let i = choose|i: int| 0 <= i < rest.len() && g0[k].resource_address == rest[i].0 && rest[i].1.contains(
                    g0[k].local_id,
                );
                assert(hs[i] == rest[i]);
            } else {
                let j = k - g0.len();
                assert(g[k] == tail[j]);
                assert(last.1[j] == g[k].local_id);
                assert(hs[hs.len() - 1] == last);
            }
        }
        assert forall|i: int, j: int| 0 <= i < hs.len() && 0 <= j < hs[i].1.len() implies g.contains(
            NonFungibleGlobalId { resource_address: hs[i].0, local_id: #[trigger] hs[i].1[j] },
        ) by {
            let x = NonFungibleGlobalId { resource_address: hs[i].0, local_id: hs[i].1[j] };
            if i < hs.len() - 1 {
                assert(rest[i] == hs[i]);
                assert(g0.contains(x));
                let k = choose|k: int| 0 <= k < g0.len() && g0[k] == x;
                assert(g[k] == x);
            } else {
                assert(g[g0.len() + j] == tail[j]);
            }
        }
    }
}

/// Where no resource is listed twice and no id twice under a resource, no
/// global id is listed twice.
pub proof fn lemma_global_ids_distinct(hs: Seq<Holding>)
    requires
        distinct_resources(hs),
        forall|i: int| 0 <= i < hs.len() ==> (#[trigger] hs[i]).1.no_duplicates(),
    ensures
        global_ids(hs).no_duplicates(),
    decreases hs.len(),
{
    if hs.len() > 0 {
        let rest = hs.drop_last();
        assert forall|i: int| 0 <= i < rest.len() implies (#[trigger] rest[i]).1.no_duplicates() by {
            assert(rest[i] == hs[i]);
        }
        lemma_global_ids_distinct(rest);
        lemma_global_ids_members(rest);
        let g = global_ids(hs);
        let g0 = global_ids(rest);
        let last = hs.last();
        let tail = last.1.map_values(
            |id: NonFungibleLocalId| NonFungibleGlobalId { resource_address: last.0, local_id: id },
        );
        assert(g == g0 + tail);
        assert(last == hs[hs.len() - 1]);
        assert forall|a: int, b: int| 0 <= a < g.len() && 0 <= b < g.len() && a != b implies g[a] != g[b] by {
            if a < g0.len() && b < g0.len() {
            } else if a >= g0.len() && b >= g0.len() {
                assert(g[a] == tail[a - g0.len()]);
                assert(g[b] == tail[b - g0.len()]);
            } else {
                let (x, y) = if a < g0.len() { (a, b) } else { (b, a) };
                assert(g[x] == g0[x]);
                let i = choose|i: int| 0 <= i < rest.len() && g0[x].resource_address == rest[i].0 && rest[i].1.contains(
                    g0[x].local_id,
                );
                assert(rest[i] == hs[i]);
                assert(g[y] == tail[y - g0.len()]);
                assert(hs[i].0 != hs[hs.len() - 1].0);
            }
        }
    }
}

/// What `non_fungible_ids` and `non_fungible_addresses` list of a well-formed
/// sale: every resource once, with all its ids once each, and a global id
/// for exactly each listed token, none twice.
pub proof fn law_listing_covers_every_token(s: SaleState)
    requires
        well_formed(s),
    ensures
        distinct_resources(s.nft_vaults),
        forall|i: int| 0 <= i < s.nft_vaults.len() ==> (#[trigger] s.nft_vaults[i]).1.no_duplicates(),
        global_ids(s.nft_vaults).no_duplicates(),
        global_ids(s.nft_vaults).len() == total_ids(s.nft_vaults),
        forall|k: int|
            0 <= k < global_ids(s.nft_vaults).len() ==> exists|i: int|
                0 <= i < s.nft_vaults.len() && (#[trigger] global_ids(s.nft_vaults)[k]).resource_address
                    == s.nft_vaults[i].0 && s.nft_vaults[i].1.contains(global_ids(s.nft_vaults)[k].local_id),
        forall|i: int, j: int|
            0 <= i < s.nft_vaults.len() && 0 <= j < s.nft_vaults[i].1.len() ==> global_ids(s.nft_vaults).contains(
                NonFungibleGlobalId { resource_address: s.nft_vaults[i].0, local_id: #[trigger] s.nft_vaults[i].1[j] },
            ),
{
    lemma_global_ids_len(s.nft_vaults);
    lemma_global_ids_members(s.nft_vaults);
    lemma_global_ids_distinct(s.nft_vaults);
}

/// After a purchase or a cancellation goes through, every resource is still
/// listed, with no id, and no global id is listed.
pub proof fn law_nothing_listed_after_hand_over(s: SaleState, token: ResourceAddress, amount: int)
    ensures
        buy_outcome(s, token, amount) is Ok ==> {
            let after = buy_outcome(s, token, amount)->Ok_0.0;
            &&& after.nft_vaults.len() == s.nft_vaults.len()
            &&& forall|i: int|
                0 <= i < s.nft_vaults.len() ==> #[trigger] after.nft_vaults[i].0 == s.nft_vaults[i].0
                    && after.nft_vaults[i].1.len() == 0
            &&& global_ids(after.nft_vaults).len() == 0
        },
        cancel_outcome(s) is Ok ==> {
            let after = cancel_outcome(s)->Ok_0.0;
            &&& after.nft_vaults.len() == s.nft_vaults.len()
            &&& forall|i: int|
                0 <= i < s.nft_vaults.len() ==> #[trigger] after.nft_vaults[i].0 == s.nft_vaults[i].0
                    && after.nft_vaults[i].1.len() == 0
            &&& global_ids(after.nft_vaults).len() == 0
        },
{
    lemma_emptied(s.nft_vaults);
    lemma_global_ids_len(emptied(s.nft_vaults));
}

/// Recording royalty vaults keeps a well-formed sale well formed and changes
/// nothing but the royalty vaults.
pub proof fn lemma_record_keeps_well_formed(s: SaleState, ids: Seq<NonFungibleLocalId>, shares: Seq<RoyaltyShare>)
    requires
        well_formed(s),
        record_outcome(s, ids, shares) is Ok,
    ensures
        well_formed(record_outcome(s, ids, shares)->Ok_0),
        record_outcome(s, ids, shares)->Ok_0 == (SaleState {
            royalties: record_outcome(s, ids, shares)->Ok_0.royalties,
            ..s
        }),
{
    let fresh = new_royalty_vaults(ids, shares);
    let rs = s.royalties + fresh;
    lemma_percentage_total_append(s.royalties, fresh);
    lemma_new_vaults_total(ids, shares);
    assert(badge_ids(rs) =~= badge_ids(s.royalties) + ids);
    assert forall|i: int| 0 <= i < rs.len() implies (#[trigger] rs[i]).balance >= 0 && rs[i].percentage >= 0 by {
        if i < s.royalties.len() {
            assert(rs[i] == s.royalties[i]);
        } else {
            assert(rs[i] == fresh[i - s.royalties.len()]);
            assert(!(shares[i - s.royalties.len()].percentage.attos < 0));
        }
    }
}

/// The tokens that a new sale hands over, to a buyer or back on
/// cancellation, are of each resource exactly those handed in, in the order
/// in which they were handed in.
pub proof fn law_tokens_out_are_tokens_in(
    tokens: Seq<Holding>,
    payment_token: ResourceAddress,
    divisibility: nat,
    price: Decimal,
    token: ResourceAddress,
    amount: int,
    a: ResourceAddress,
)
    ensures
        ({
            let s = instantiated(tokens, payment_token, divisibility, price);
            &&& cancel_outcome(s) is Ok
            &&& held(cancel_outcome(s)->Ok_0.1, a) == given(tokens, a)
            &&& buy_outcome(s, token, amount) is Ok ==> held(buy_outcome(s, token, amount)->Ok_0.1, a) == given(
                tokens,
                a,
            )
        }),
{
    lemma_aggregate(tokens, a);
}

/// A call that can change a sale.
pub enum SaleCall {
    Buy { token: ResourceAddress, amount: int },
    CancelSale,
    WithdrawPayment,
    ChangePrice { price: int },
    RecordRoyaltyVaults { badge_ids: Seq<NonFungibleLocalId>, shares: Seq<RoyaltyShare> },
}

/// The sale after a call: what the call makes of it where it goes through,
/// the sale unchanged where it is refused.
pub open spec fn step(s: SaleState, c: SaleCall) -> SaleState {
    match c {
        SaleCall::Buy { token, amount } => match buy_outcome(s, token, amount) {
            Ok(o) => o.0,
            Err(_) => s,
        },
        SaleCall::CancelSale => match cancel_outcome(s) {
            Ok(o) => o.0,
            Err(_) => s,
        },
        SaleCall::WithdrawPayment => match withdraw_outcome(s) {
            Ok(o) => o.0,
            Err(_) => s,
        },
        SaleCall::ChangePrice { price } => match change_price_outcome(s, price) {
            Ok(o) => o,
            Err(_) => s,
        },
        SaleCall::RecordRoyaltyVaults { badge_ids, shares } => match record_outcome(s, badge_ids, shares) {
            Ok(o) => o,
            Err(_) => s,
        },
    }
}

/// The sale after the calls `cs`, one after another.
pub open spec fn run(s: SaleState, cs: Seq<SaleCall>) -> SaleState
    decreases cs.len(),
{
    if cs.len() == 0 {
        s
    } else {
        step(run(s, cs.drop_last()), cs.last())
    }
}

/// Every call keeps a well-formed sale well formed, with the same accepted
/// token and divisibility; the tokens for sale either stay as they were or
/// are all taken out, and they are taken out only by a purchase of at least
/// the price in the accepted token or by a cancellation.
pub proof fn lemma_step(s: SaleState, c: SaleCall)
    requires
        well_formed(s),
    ensures
        well_formed(step(s, c)),
        step(s, c).accepted_payment_token == s.accepted_payment_token,
        step(s, c).payment_divisibility == s.payment_divisibility,
        step(s, c).nft_vaults == s.nft_vaults || step(s, c).nft_vaults == emptied(s.nft_vaults),
        step(s, c).nft_vaults != s.nft_vaults ==> match c {
            SaleCall::Buy { token, amount } => token == s.accepted_payment_token && amount >= s.price,
            SaleCall::CancelSale => !sold(s),
            _ => false,
        },
        !(c is Buy) && !sold(s) ==> !sold(step(s, c)),
        !(c is WithdrawPayment) && sold(s) ==> sold(step(s, c)),
{
    lemma_emptied(s.nft_vaults);
    match c {
        SaleCall::Buy { token, amount } => {
            if buy_outcome(s, token, amount) is Ok {
                lemma_buy_keeps_well_formed(s, token, amount);
            }
        },
        SaleCall::RecordRoyaltyVaults { badge_ids, shares } => {
            if record_outcome(s, badge_ids, shares) is Ok {
                lemma_record_keeps_well_formed(s, badge_ids, shares);
            }
        },
        _ => {},
    }
}

/// In every state that calls lead to from a well-formed sale, the sale is well
/// formed (so the price is not negative), keeps its accepted token and
/// divisibility, and its tokens for sale are those it had or none of them.
pub proof fn law_every_state_is_well_formed(s: SaleState, cs: Seq<SaleCall>)
    requires
        well_formed(s),
    ensures
        well_formed(run(s, cs)),
        run(s, cs).price >= 0,
        run(s, cs).accepted_payment_token == s.accepted_payment_token,
        run(s, cs).payment_divisibility == s.payment_divisibility,
        run(s, cs).nft_vaults == s.nft_vaults || run(s, cs).nft_vaults == emptied(s.nft_vaults),
    decreases cs.len(),
{
    lemma_emptied(s.nft_vaults);
    if cs.len() > 0 {
        law_every_state_is_well_formed(s, cs.drop_last());
        lemma_step(run(s, cs.drop_last()), cs.last());
    }
}

/// Every state that calls lead to from a new sale is well formed, has a
/// price that is not negative, and keeps the accepted token it was set up
/// with.
pub proof fn law_reachable_sales_are_well_formed(
    tokens: Seq<Holding>,
    payment_token: ResourceAddress,
    divisibility: nat,
    price: Decimal,
    cs: Seq<SaleCall>,
)
    requires
        divisibility <= 18,
        price.attos >= 0,
        forall|b: ResourceAddress| (#[trigger] given(tokens, b)).no_duplicates(),
    ensures
        ({
            let t = run(instantiated(tokens, payment_token, divisibility, price), cs);
            &&& well_formed(t)
            &&& t.price >= 0
            &&& t.accepted_payment_token == payment_token
        }),
{
    lemma_instantiated_well_formed(tokens, payment_token, divisibility, price);
    law_every_state_is_well_formed(instantiated(tokens, payment_token, divisibility, price), cs);
}

/// Tokens leave a sale only through a purchase or a cancellation: where no
/// call buys or cancels, the tokens for sale stay as they were; and no call
/// ever adds a token.
pub proof fn law_tokens_leave_only_by_purchase_or_cancellation(s: SaleState, cs: Seq<SaleCall>)
    requires
        well_formed(s),
    ensures
        run(s, cs).nft_vaults == s.nft_vaults || run(s, cs).nft_vaults == emptied(s.nft_vaults),
        (forall|i: int| 0 <= i < cs.len() ==> !(#[trigger] cs[i] is Buy) && !(cs[i] is CancelSale)) ==> run(
            s,
            cs,
        ).nft_vaults == s.nft_vaults,
    decreases cs.len(),
{
    law_every_state_is_well_formed(s, cs);
    if cs.len() > 0 {
        law_tokens_leave_only_by_purchase_or_cancellation(s, cs.drop_last());
        law_every_state_is_well_formed(s, cs.drop_last());
        lemma_step(run(s, cs.drop_last()), cs.last());
        if forall|i: int| 0 <= i < cs.len() ==> !(#[trigger] cs[i] is Buy) && !(cs[i] is CancelSale) {
            assert forall|i: int| 0 <= i < cs.drop_last().len() implies !(#[trigger] cs.drop_last()[i] is Buy) && !(
            cs.drop_last()[i] is CancelSale) by {
                assert(cs.drop_last()[i] == cs[i]);
            }
            assert(cs.last() == cs[cs.len() - 1]);
        }
    }
}

/// A sale that has not been sold stays unsold while no call buys.
pub proof fn law_unsold_while_nothing_is_bought(s: SaleState, cs: Seq<SaleCall>)
    requires
        well_formed(s),
        !sold(s),
        forall|i: int| 0 <= i < cs.len() ==> !(#[trigger] cs[i] is Buy),
    ensures
        !sold(run(s, cs)),
    decreases cs.len(),
{
    if cs.len() > 0 {
        assert forall|i: int| 0 <= i < cs.drop_last().len() implies !(#[trigger] cs.drop_last()[i] is Buy) by {
            assert(cs.drop_last()[i] == cs[i]);
        }
        law_unsold_while_nothing_is_bought(s, cs.drop_last());
        law_every_state_is_well_formed(s, cs.drop_last());
        assert(cs.last() == cs[cs.len() - 1]);
        lemma_step(run(s, cs.drop_last()), cs.last());
    }
}

/// A sold sale stays sold until its payment is withdrawn.
pub proof fn law_sold_until_withdrawn(s: SaleState, cs: Seq<SaleCall>)
    requires
        well_formed(s),
        sold(s),
        forall|i: int| 0 <= i < cs.len() ==> !(#[trigger] cs[i] is WithdrawPayment),
    ensures
        sold(run(s, cs)),
    decreases cs.len(),
{
    if cs.len() > 0 {
        assert forall|i: int| 0 <= i < cs.drop_last().len() implies !(#[trigger] cs.drop_last()[i] is WithdrawPayment) by {
            assert(cs.drop_last()[i] == cs[i]);
        }
        law_sold_until_withdrawn(s, cs.drop_last());
        law_every_state_is_well_formed(s, cs.drop_last());
        assert(cs.last() == cs[cs.len() - 1]);
        lemma_step(run(s, cs.drop_last()), cs.last());
    }
}

/// Ten to the power: one at zero, ten at one, products add exponents, and
/// ten to the eighteenth is one whole unit in attos.
pub proof fn law_powers_of_ten(m: nat, n: nat)
    ensures
        pow10(0) == 1,
        pow10(1) == 10,
        pow10(m) * pow10(n) == pow10(m + n),
        pow10(18) == ATTOS_PER_UNIT,
{
    reveal_with_fuel(pow10, 19);
    lemma_pow10_add(m, n);
}

/// For a token of divisibility `d`, its smallest unit, in attos, times ten to
/// the `d` is one whole unit; and an amount of attos is a whole number of
/// smallest units exactly where the amount, times ten to the `d`, is a whole
/// number of units: where it has at most `d` decimal places.
pub proof fn law_smallest_unit_of_a_divisibility(d: nat, amount: int)
    requires
        d <= 18,
        amount >= 0,
    ensures
        pow10((18 - d) as nat) * pow10(d) == ATTOS_PER_UNIT,
        (amount % pow10((18 - d) as nat) == 0) == ((amount * pow10(d)) % (ATTOS_PER_UNIT as int) == 0),
{
    law_powers_of_ten((18 - d) as nat, d);
    let u = pow10((18 - d) as nat);
    let v = pow10(d);
    let e = ATTOS_PER_UNIT as int;
    lemma_pow10_monotone(0, (18 - d) as nat);
    lemma_pow10_monotone(0, d);
    lemma_fundamental_div_mod(amount, u);
    lemma_mod_pos_bound(amount, u);
    let q = amount / u;
    let r = amount % u;
    assert(amount * v == e * q + r * v && 0 <= r * v < e && (r * v == 0) == (r == 0)) by (nonlinear_arith)
        requires
            amount == u * q + r,
            u * v == e,
            0 <= r < u,
            v >= 1,
    ;
    lemma_mod_multiples_vanish(q, r * v, e);
    lemma_small_mod((r * v) as nat, e as nat);
}

/// On a well-formed sale with no royalty vault, a purchase in the accepted
/// token of at least the price goes through exactly where the price has no
/// more decimal places than the token's divisibility; it then puts the price
/// in the payment vault and hands back the payment less the price.
pub proof fn law_buy_at_any_price_the_token_can_express(s: SaleState, amount: int)
    requires
        well_formed(s),
        s.royalties.len() == 0,
        amount >= s.price,
    ensures
        (buy_outcome(s, s.accepted_payment_token, amount) is Ok) == ((s.price * pow10(s.payment_divisibility))
            % (ATTOS_PER_UNIT as int) == 0),
        buy_outcome(s, s.accepted_payment_token, amount) is Ok ==> {
            let (after, _tokens, left) = buy_outcome(s, s.accepted_payment_token, amount)->Ok_0;
            &&& after.payment_balance == s.payment_balance + s.price
            &&& left == amount - s.price
        },
        buy_outcome(s, s.accepted_payment_token, amount) is Err ==> buy_outcome(
            s,
            s.accepted_payment_token,
            amount,
        ) == Err::<(SaleState, Seq<Holding>, int), SaleError>(SaleError::PaymentWithdrawalRefused),
{
    law_buy_succeeds_exactly(s, amount);
    law_smallest_unit_of_a_divisibility(s.payment_divisibility, s.price);
    if buy_outcome(s, s.accepted_payment_token, amount) is Ok {
        law_buy_pays_royalties_on_the_price(s, s.accepted_payment_token, amount);
    }
}

/// An instantiation goes through only with one royalty account per royalty
/// percentage; with unequal numbers it is refused, and where nothing else is
/// wrong the refusal names the mismatch.
pub proof fn law_one_account_per_percentage(
    payment_token_type: ResourceType,
    price: Decimal,
    account_count: nat,
    percents: Seq<Decimal>,
)
    ensures
        instantiation_error(payment_token_type, price, account_count, percents) is None ==> account_count
            == percents.len(),
        account_count != percents.len() ==> instantiation_error(payment_token_type, price, account_count, percents)
            is Some,
        account_count != percents.len() && payment_token_type is Fungible && price.attos >= 0 && (forall|i: int|
            0 <= i < percents.len() ==> #[trigger] percents[i].attos >= 0) && sum_attos(percents) <= ATTOS_PER_UNIT
            ==> instantiation_error(payment_token_type, price, account_count, percents) == Some(
            SaleError::RoyaltyLengthMismatch,
        ),
{
}

} // verus!
