use vstd::prelude::*;
use vstd::set_lib::lemma_set_disjoint_lens;

use crate::registry::{add_model, is_listing, mark_model, mark_result};

verus! {

/// Adding a key twice in a row leaves the registry as adding it once does:
/// the key's status is the same and the number of keys does not grow.
pub proof fn lemma_add_idempotent(m: Map<Seq<char>, bool>, k: Seq<char>)
    ensures
        add_model(add_model(m, k), k) == add_model(m, k),
        add_model(add_model(m, k), k)[k] == add_model(m, k)[k],
        add_model(add_model(m, k), k).len() == add_model(m, k).len(),
{
}

/// Adding a key that is already done leaves it done.
pub proof fn lemma_add_keeps_done(m: Map<Seq<char>, bool>, k: Seq<char>)
    requires
        m.contains_key(k),
        !m[k],
    ensures
        add_model(m, k).contains_key(k),
        !add_model(m, k)[k],
{
}

/// Marking a known key succeeds, hands the key back, and the key then has
/// the status it was given.
pub proof fn lemma_mark_known(m: Map<Seq<char>, bool>, key: String, status: bool)
    requires
        m.contains_key(key@),
    ensures
        mark_result(m, key) == Ok::<String, String>(key),
        mark_model(m, key@, status).contains_key(key@),
        mark_model(m, key@, status)[key@] == status,
{
}

/// Marking an unknown key fails, hands the key back, and leaves the registry
/// as it was.
pub proof fn lemma_mark_unknown(m: Map<Seq<char>, bool>, key: String, status: bool)
    requires
        !m.contains_key(key@),
    ensures
        mark_result(m, key) == Err::<String, String>(key),
        mark_model(m, key@, status) == m,
{
}

/// The two lists of a listing split the keys of the registry: every key is
/// in one of them, none is in both, and together they hold as many entries
/// as the registry holds keys.
pub proof fn lemma_listing_partition(
    m: Map<Seq<char>, bool>,
    pending: Seq<Seq<char>>,
    done: Seq<Seq<char>>,
)
    requires
        m.dom().finite(),
        is_listing(m, pending, done),
    ensures
        forall|k: Seq<char>|
            m.contains_key(k) <==> (#[trigger] pending.contains(k) || #[trigger] done.contains(
                k,
            )),
        forall|k: Seq<char>| !(#[trigger] pending.contains(k) && #[trigger] done.contains(k)),
        pending.len() + done.len() == m.len(),
{
    let p = pending.to_set();
    let d = done.to_set();
    pending.unique_seq_to_set();
    done.unique_seq_to_set();
    assert(p + d =~= m.dom());
    assert(p.disjoint(d));
    lemma_set_disjoint_lens(p, d);
}

} // verus!
