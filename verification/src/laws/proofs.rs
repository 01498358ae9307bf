//! Ecash proofs: what transactions hold, what the wallet lists, and what it hands out.

use vstd::prelude::*;

use crate::database::Store;
use crate::error::Fault;
use crate::nuts::{
    proof_query, CurrencyUnit, Proof, ProofInfo, ProofInfoView, ProofQuery, SpendingConditions,
    State, UncheckedUrl,
};
use crate::proofs::{
    all_listed, grouped, groups, handed_over, law_grouping_is_lossless, law_groups_are_appended,
    law_listing_is_complete, law_mints_are_listed_once, lemma_of_mint_concat, lemma_of_mint_group,
    of_mint, with_mint, EventProofs, Purse, TxInfo,
};

verus! {

/// Whether what the wallet knows of a proof is what it was told: the proof, its point and its mint
/// as they were listed, the state that was last set for the point, or unspent where none was, the
/// conditions of its secret, and the unit of its keyset.
pub open spec fn is_told_of(
    store: Store,
    entry: (Seq<char>, Proof),
    info: ProofInfoView,
) -> bool {
    &&& info.mint_url == entry.0
    &&& info.cash == entry.1
    &&& info.y == entry.1.y->0@
    &&& store.proof_states.contains_key(info.y) ==> info.state == store.proof_states[info.y]
    &&& !store.proof_states.contains_key(info.y) ==> info.state is Unspent
    &&& entry.1.spending_condition is Some ==> info.spending_condition == Some(
        entry.1.spending_condition->0@,
    )
    &&& entry.1.spending_condition is None ==> info.spending_condition is None
    &&& info.unit == store.keysets.infos[entry.1.keyset_id@].unit
}

/// A proof is described exactly when its keyset is known, whatever is known of the keyset, and
/// then as the wallet was told of it.
pub proof fn law_proof_is_described_if_its_keyset_is_known(
    store: Store,
    mint: Seq<char>,
    cash: Proof,
)
    ensures
        store.described(mint, cash) is Some <==> store.keysets.infos.contains_key(
            cash.keyset_id@,
        ),
        store.described(mint, cash) matches Some(info) ==> is_told_of(store, (mint, cash), info),
{
}

/// A proof is asked for exactly when its mint, unit and state and the conditions of its secret are
/// among those that are given. What is not given may be anything.
pub proof fn law_query_looks_at_what_is_given(
    info: ProofInfoView,
    mint_url: Option<UncheckedUrl>,
    unit: Option<CurrencyUnit>,
    state: Option<Vec<State>>,
    spending_conditions: Option<Vec<SpendingConditions>>,
)
    ensures
        info.fits(proof_query(mint_url, unit, state, spending_conditions)) <==> {
            &&& mint_url is Some ==> mint_url->0.text@ == info.mint_url
            &&& unit is Some ==> unit->0 == info.unit
            &&& state is Some ==> exists|i: int|
                0 <= i < state->0@.len() && #[trigger] state->0@[i] == info.state
            &&& spending_conditions is Some ==> info.spending_condition is Some && exists|i: int|
                0 <= i < spending_conditions->0@.len() && (
                #[trigger] spending_conditions->0@[i]).text@ == info.spending_condition->0
        },
{
    if let Some(conditions) = spending_conditions {
        let views = conditions@.map_values(|c: SpendingConditions| c@);
        if info.spending_condition is Some {
            let own = info.spending_condition->0;
            if views.contains(own) {
                let i = choose|i: int| 0 <= i < views.len() && views[i] == own;
                assert(conditions@[i].text@ == own);
            }
            if exists|i: int|
                0 <= i < conditions@.len() && (#[trigger] conditions@[i]).text@ == own {
                let i = choose|i: int|
                    0 <= i < conditions@.len() && (#[trigger] conditions@[i]).text@ == own;
                assert(views[i] == own);
            }
        }
    }
}

/// Without a query, the proofs that are handed out are exactly the listed ones whose keyset is
/// known, in the order of the list.
pub proof fn law_all_proofs_of_known_keysets_are_handed_out(
    store: Store,
    listed: Seq<(Seq<char>, Proof)>,
)
    ensures
        store.chosen(listed, proof_query(None, None, None, None)) matches Ok(proofs)
            ==> proofs.map_values(|p: ProofInfoView| (p.mint_url, p.cash)) == listed.filter(
            |entry: (Seq<char>, Proof)| store.keysets.infos.contains_key(entry.1.keyset_id@),
        ),
    decreases listed.len(),
{
    reveal(Seq::filter);
    let query = proof_query(None, None, None, None);
    let known = |entry: (Seq<char>, Proof)|
        store.keysets.infos.contains_key(entry.1.keyset_id@);
    let bare = |p: ProofInfoView| (p.mint_url, p.cash);
    if store.chosen(listed, query) is Ok {
        if listed.len() == 0 {
            assert(store.chosen(listed, query)->Ok_0.map_values(bare) =~= listed.filter(known));
        } else {
            let rest = listed.drop_last();
            law_all_proofs_of_known_keysets_are_handed_out(store, rest);
            let before = store.chosen(rest, query)->Ok_0;
            let after = store.chosen(listed, query)->Ok_0;
            assert(before.map_values(bare) == rest.filter(known));
            let last = listed.last();
            if known(last) {
                let info = store.described(last.0, last.1)->0;
                law_query_looks_at_what_is_given(info, None, None, None, None);
                assert(after == before.push(info));
                assert(after.map_values(bare) =~= before.map_values(bare).push(last));
            } else {
                assert(after == before);
            }
            assert(after.map_values(bare) =~= listed.filter(known));
        }
    }
}

/// The proofs that are handed out for a query are, in order, those of the proofs that are handed
/// out without one that it asks for.
pub proof fn law_query_only_leaves_out(
    store: Store,
    listed: Seq<(Seq<char>, Proof)>,
    mint_url: Option<UncheckedUrl>,
    unit: Option<CurrencyUnit>,
    state: Option<Vec<State>>,
    spending_conditions: Option<Vec<SpendingConditions>>,
)
    ensures
        ({
            let query = proof_query(mint_url, unit, state, spending_conditions);
            let every = store.chosen(listed, proof_query(None, None, None, None));
            match store.chosen(listed, query) {
                Ok(proofs) => every is Ok && proofs == every->Ok_0.filter(
                    |p: ProofInfoView| p.fits(query),
                ),
                Err(fault) => every == Err::<Seq<ProofInfoView>, Fault>(fault),
            }
        }),
    decreases listed.len(),
{
    reveal(Seq::filter);
    let query = proof_query(mint_url, unit, state, spending_conditions);
    let none = proof_query(None, None, None, None);
    if listed.len() > 0 {
        let rest = listed.drop_last();
        law_query_only_leaves_out(store, rest, mint_url, unit, state, spending_conditions);
        let (mint, cash) = listed.last();
        if store.chosen(rest, none) is Ok && cash.y is Some && store.described(mint, cash) is Some {
            let info = store.described(mint, cash)->0;
            law_query_looks_at_what_is_given(info, None, None, None, None);
            let before = store.chosen(rest, none)->Ok_0;
            assert(before.push(info).drop_last() =~= before);
        }
    }
}

/// Every proof that is handed out is told of as the wallet was told: with its own point, conditions
/// and mint, the state that was last set for the point, and the unit of its keyset.
pub proof fn law_proofs_are_handed_out_as_told(
    store: Store,
    listed: Seq<(Seq<char>, Proof)>,
    mint_url: Option<UncheckedUrl>,
    unit: Option<CurrencyUnit>,
    state: Option<Vec<State>>,
    spending_conditions: Option<Vec<SpendingConditions>>,
    k: int,
)
    ensures
        store.chosen(
            listed,
            proof_query(mint_url, unit, state, spending_conditions),
        ) matches Ok(proofs) ==> (0 <= k < proofs.len() ==> is_told_of(
            store,
            (proofs[k].mint_url, proofs[k].cash),
            proofs[k],
        )),
    decreases listed.len(),
{
    let query = proof_query(mint_url, unit, state, spending_conditions);
    if listed.len() > 0 && store.chosen(listed, query) is Ok {
        let rest = listed.drop_last();
        law_proofs_are_handed_out_as_told(
            store,
            rest,
            mint_url,
            unit,
            state,
            spending_conditions,
            k,
        );
    }
}

/// Of the keysets only their units matter: what is handed out is the same for two wallets that know
/// the same keysets with the same units and have set the same states.
pub proof fn law_only_units_of_keysets_matter(
    store: Store,
    other: Store,
    listed: Seq<(Seq<char>, Proof)>,
    mint_url: Option<UncheckedUrl>,
    unit: Option<CurrencyUnit>,
    state: Option<Vec<State>>,
    spending_conditions: Option<Vec<SpendingConditions>>,
)
    requires
        store.proof_states == other.proof_states,
        forall|id: u64|
            #![trigger store.keysets.infos.contains_key(id)]
            #![trigger other.keysets.infos.contains_key(id)]
            store.keysets.infos.contains_key(id) == other.keysets.infos.contains_key(id) && (
            store.keysets.infos.contains_key(id) ==> store.keysets.infos[id].unit
                == other.keysets.infos[id].unit),
    ensures
        store.chosen(listed, proof_query(mint_url, unit, state, spending_conditions))
            == other.chosen(listed, proof_query(mint_url, unit, state, spending_conditions)),
    decreases listed.len(),
{
    if listed.len() > 0 {
        law_only_units_of_keysets_matter(
            store,
            other,
            listed.drop_last(),
            mint_url,
            unit,
            state,
            spending_conditions,
        );
        let (mint, cash) = listed.last();
        assert(store.described(mint, cash) == other.described(mint, cash));
    }
}

/// After the state of a point is set, every proof of that point is handed out in that state: asked
/// for by that state, the listed proofs of the point whose keyset is known are there; asked for by
/// other states, none is.
pub proof fn law_state_that_was_set_is_handed_out(
    store: Store,
    y: Seq<char>,
    set: State,
    listed: Seq<(Seq<char>, Proof)>,
    states: Vec<State>,
    i: int,
)
    requires
        0 <= i < listed.len(),
        listed[i].1.y is Some && listed[i].1.y->0@ == y,
        store.keysets.infos.contains_key(listed[i].1.keyset_id@),
    ensures
        ({
            let after = Store { proof_states: store.proof_states.insert(y, set), ..store };
            after.chosen(listed, proof_query(None, None, Some(states), None)) matches Ok(proofs)
                ==> {
                &&& states@.contains(set) ==> exists|k: int|
                    0 <= k < proofs.len() && (#[trigger] proofs[k]).cash == listed[i].1
                        && proofs[k].mint_url == listed[i].0 && proofs[k].state == set
                &&& !states@.contains(set) ==> forall|k: int|
                    0 <= k < proofs.len() ==> (#[trigger] proofs[k]).y != y
            }
        }),
    decreases listed.len(),
{
    let after = Store { proof_states: store.proof_states.insert(y, set), ..store };
    let query = proof_query(None, None, Some(states), None);
    if after.chosen(listed, query) is Ok {
        let proofs = after.chosen(listed, query)->Ok_0;
        if states@.contains(set) {
            lemma_listed_proof_is_chosen(after, listed, query, i);
            let info = after.described(listed[i].0, listed[i].1)->0;
            assert(info.fits(query));
            let k = choose|k: int| 0 <= k < proofs.len() && proofs[k] == info;
            assert(proofs[k].cash == listed[i].1);
        } else {
            assert forall|k: int| 0 <= k < proofs.len() implies (#[trigger] proofs[k]).y != y by {
                law_proofs_are_handed_out_as_told(
                    after,
                    listed,
                    None,
                    None,
                    Some(states),
                    None,
                    k,
                );
                lemma_chosen_fits(after, listed, query, k);
            }
        }
    }
}

proof fn lemma_chosen_fits(
    store: Store,
    listed: Seq<(Seq<char>, Proof)>,
    query: ProofQuery,
    k: int,
)
    ensures
        store.chosen(listed, query) matches Ok(proofs) ==> (0 <= k < proofs.len()
            ==> proofs[k].fits(query)),
    decreases listed.len(),
{
    if listed.len() > 0 && store.chosen(listed, query) is Ok {
        lemma_chosen_fits(store, listed.drop_last(), query, k);
    }
}

proof fn lemma_listed_proof_is_chosen(
    store: Store,
    listed: Seq<(Seq<char>, Proof)>,
    query: ProofQuery,
    i: int,
)
    requires
        0 <= i < listed.len(),
    ensures
        store.chosen(listed, query) matches Ok(proofs) ==> (store.described(
            listed[i].0,
            listed[i].1,
        ) matches Some(info) ==> (info.fits(query) ==> proofs.contains(info))),
    decreases listed.len(),
{
    if store.chosen(listed, query) is Ok {
        let rest = listed.drop_last();
        let before = store.chosen(rest, query)->Ok_0;
        let after = store.chosen(listed, query)->Ok_0;
        let info = store.described(listed[i].0, listed[i].1)->0;
        if i < rest.len() {
            lemma_listed_proof_is_chosen(store, rest, query, i);
            if before.contains(info) {
                let k = choose|k: int| 0 <= k < before.len() && before[k] == info;
                assert(after[k] == info);
            }
        } else if store.described(listed[i].0, listed[i].1) is Some && info.fits(query) {
            assert(after[before.len() as int] == info);
        }
    }
}

/// The groups of a transaction hold the proofs that were handed over for it, each under its own
/// mint, and nothing else, in the order in which they were handed over.
pub proof fn law_transaction_holds_what_was_handed_over(
    items: Seq<ProofInfo>,
    side: Seq<EventProofs>,
)
    requires
        groups(side) == grouped(items),
    ensures
        side.map_values(
            |g: EventProofs| g.proofs@.map_values(|p: Proof| (g.mint_url.text@, p)),
        ).flatten() == items.map_values(|item: ProofInfo| (item.mint_url.text@, item.cash)),
{
    law_grouping_is_lossless(items);
    let rows = side.map_values(
        |g: EventProofs| g.proofs@.map_values(|p: Proof| (g.mint_url.text@, p)),
    );
    lemma_flat_groups(side);
    assert(rows.flatten() == all_listed(groups(side)));
    assert(handed_over(items) =~= items.map_values(
        |item: ProofInfo| (item.mint_url.text@, item.cash),
    ));
}

proof fn lemma_flat_groups(side: Seq<EventProofs>)
    ensures
        side.map_values(
            |g: EventProofs| g.proofs@.map_values(|p: Proof| (g.mint_url.text@, p)),
        ).flatten() == all_listed(groups(side)),
    decreases side.len(),
{
    let row = |g: EventProofs| g.proofs@.map_values(|p: Proof| (g.mint_url.text@, p));
    let rows = side.map_values(row);
    if side.len() == 0 {
        assert(rows.flatten() =~= Seq::empty());
        assert(groups(side) =~= Seq::empty());
    } else {
        let rest = side.drop_last();
        lemma_flat_groups(rest);
        assert(rows =~= rest.map_values(row).push(row(side.last())));
        rest.map_values(row).lemma_flatten_push(row(side.last()));
        assert(groups(side).drop_last() =~= groups(rest));
        assert(groups(side).last() == side.last()@);
        assert(with_mint(side.last()@) =~= row(side.last()));
    }
}

/// Whether a group is of a mint.
pub open spec fn group_is_of(mint: Seq<char>) -> spec_fn(EventProofs) -> bool {
    |g: EventProofs| g.mint_url.text@ == mint
}

/// The proofs of a group.
pub open spec fn group_proofs() -> spec_fn(EventProofs) -> Seq<Proof> {
    |g: EventProofs| g.proofs@
}

/// The proofs that a side of a transaction holds for a mint.
pub open spec fn held_for(side: Seq<EventProofs>, mint: Seq<char>) -> Seq<Proof> {
    side.filter(group_is_of(mint)).map_values(group_proofs()).flatten()
}

proof fn lemma_held_for(side: Seq<EventProofs>, mint: Seq<char>)
    ensures
        held_for(side, mint) == of_mint(all_listed(groups(side)), mint),
    decreases side.len(),
{
    reveal(Seq::filter);
    let ours = group_is_of(mint);
    let row = group_proofs();
    if side.len() == 0 {
        assert(groups(side) =~= Seq::empty());
        assert(side.filter(ours).map_values(row) =~= Seq::empty());
        assert(held_for(side, mint) =~= of_mint(all_listed(groups(side)), mint));
    } else {
        let rest = side.drop_last();
        let last = side.last();
        lemma_held_for(rest, mint);
        assert(groups(side).drop_last() =~= groups(rest));
        assert(groups(side).last() == last@);
        lemma_of_mint_concat(all_listed(groups(rest)), with_mint(last@), mint);
        lemma_of_mint_group(last@, mint);
        let kept = rest.filter(ours);
        assert(all_listed(groups(side)) == all_listed(groups(rest)) + with_mint(last@));
        if ours(last) {
            assert(side.filter(ours) == kept.push(last));
            assert(kept.push(last).map_values(row) =~= kept.map_values(row).push(row(last)));
            kept.map_values(row).lemma_flatten_push(row(last));
        } else {
            assert(side.filter(ours) == kept);
            assert(of_mint(all_listed(groups(rest)), mint) + Seq::<Proof>::empty() =~= of_mint(
                all_listed(groups(rest)),
                mint,
            ));
        }
    }
}

/// One more transaction puts behind the listed proofs of each mint those that it holds for the
/// mint, the outgoing ones first. It takes none away, and before the first transaction there are
/// none.
pub proof fn law_listing_grows_by_both_sides(txs: Seq<TxInfo>, tx: TxInfo, mint: Seq<char>)
    ensures
        ({
            let ours = |entry: (Seq<char>, Proof)| entry.0 == mint;
            let bare = |entry: (Seq<char>, Proof)| entry.1;
            &&& Purse::empty().plus_txs(txs.push(tx)).listed().filter(ours).map_values(bare)
                == Purse::empty().plus_txs(txs).listed().filter(ours).map_values(bare) + held_for(
                tx.outputs@,
                mint,
            ) + held_for(tx.inputs@, mint)
            &&& Purse::empty().plus_txs(Seq::empty()).listed() == Seq::<
                (Seq<char>, Proof),
            >::empty()
        }),
{
    let ours = |entry: (Seq<char>, Proof)| entry.0 == mint;
    let bare = |entry: (Seq<char>, Proof)| entry.1;
    let all = txs.push(tx);
    let before = Purse::empty().plus_txs(txs);
    let after = Purse::empty().plus_txs(all);
    assert(all.drop_last() =~= txs);
    assert(all.last() == tx);
    law_mints_are_listed_once(txs);
    law_mints_are_listed_once(all);
    law_listing_is_complete(before, mint);
    law_listing_is_complete(after, mint);
    lemma_of_mint_is_filter(before.listed(), mint);
    lemma_of_mint_is_filter(after.listed(), mint);
    law_groups_are_appended(before, groups(tx.outputs@), mint);
    law_groups_are_appended(before.plus(groups(tx.outputs@)), groups(tx.inputs@), mint);
    lemma_held_for(tx.outputs@, mint);
    lemma_held_for(tx.inputs@, mint);
    assert(Purse::empty().plus_txs(Seq::empty()).listed() =~= Seq::empty());
}

proof fn lemma_of_mint_is_filter(listed: Seq<(Seq<char>, Proof)>, mint: Seq<char>)
    ensures
        of_mint(listed, mint) == listed.filter(
            |entry: (Seq<char>, Proof)| entry.0 == mint,
        ).map_values(|entry: (Seq<char>, Proof)| entry.1),
    decreases listed.len(),
{
    reveal(Seq::filter);
    let ours = |entry: (Seq<char>, Proof)| entry.0 == mint;
    let bare = |entry: (Seq<char>, Proof)| entry.1;
    if listed.len() == 0 {
        assert(listed.filter(ours).map_values(bare) =~= Seq::empty());
    } else {
        let rest = listed.drop_last();
        lemma_of_mint_is_filter(rest, mint);
        let kept = rest.filter(ours);
        if ours(listed.last()) {
            assert(kept.push(listed.last()).map_values(bare) =~= kept.map_values(bare).push(
                listed.last().1,
            ));
        }
    }
}

} // verus!
