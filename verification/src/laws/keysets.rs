//! Keysets: what the wallet knows after it was told of more.

use vstd::prelude::*;

use crate::keysets::Keysets;
use crate::nuts::KeySetInfo;

verus! {

/// Being told of one more keyset of a mint, the wallet knows of the keyset what it was told last.
/// The mint has the keyset's id, behind those that it had, or where it had it before. The infos of
/// other keysets and the ids of other mints stay as they were. Being told of no keyset changes
/// nothing.
pub proof fn law_wallet_knows_what_it_was_told(
    store: Keysets,
    mint: Seq<char>,
    infos: Seq<KeySetInfo>,
    info: KeySetInfo,
    other_mint: Seq<char>,
    other_id: u64,
)
    requires
        other_mint != mint,
        other_id != info.id@,
    ensures
        ({
            let before = store.plus_all(mint, infos);
            let after = store.plus_all(mint, infos.push(info));
            let had = if before.by_mint.contains_key(mint) {
                before.by_mint[mint]
            } else {
                Seq::empty()
            };
            &&& after.infos.contains_key(info.id@) && after.infos[info.id@] == info
            &&& after.infos.contains_key(other_id) == before.infos.contains_key(other_id)
            &&& before.infos.contains_key(other_id) ==> after.infos[other_id]
                == before.infos[other_id]
            &&& after.by_mint.contains_key(mint)
            &&& had.contains(info.id@) ==> after.by_mint[mint] == had
            &&& !had.contains(info.id@) ==> after.by_mint[mint] == had.push(info.id@)
            &&& after.by_mint.contains_key(other_mint) == before.by_mint.contains_key(other_mint)
            &&& before.by_mint.contains_key(other_mint) ==> after.by_mint[other_mint]
                == before.by_mint[other_mint]
        }),
        store.plus_all(mint, Seq::empty()) == store,
{
    assert(infos.push(info).drop_last() =~= infos);
    assert(infos.push(info).last() == info);
}

} // verus!
