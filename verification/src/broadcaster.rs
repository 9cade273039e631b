//! The broadcaster: given the sender of one line of text, it plans the
//! fan-out — the formatted message, the exact set of recipients, and the
//! sender's acknowledgement — and it prunes from the registry the
//! recipients whose delivery failed.
//!
//! Delivery itself (writing to each socket in turn) is the event loop's
//! work; failures there never abort the remaining deliveries, they only
//! come back here as the list of failed ids.

use vstd::prelude::*;
use crate::codec::{spec_message_line, spec_ack_line, message_line, ack_line};
use crate::registry::Registry;

verus! {

/// The ids a broadcast from `sender` must reach: every registered id
/// except the sender's own.
pub open spec fn spec_recipients<W>(m: Map<u16, W>, sender: u16) -> Set<u16> {
    m.dom().remove(sender)
}

/// Everything one line from one client obliges the event loop to send:
/// the formatted message, the ids to deliver it to, and the
/// acknowledgement owed to the sender whatever happens to the others.
pub struct BroadcastPlan {
    pub message: String,
    pub recipients: Vec<u16>,
    pub ack: String,
}

/// Plans the broadcast of `text` from `sender`: the message goes to
/// every other registered client exactly once, never back to the
/// sender, and the acknowledgement is owed unconditionally — also when
/// there is no recipient at all.
pub fn plan_broadcast<W>(reg: &Registry<W>, sender: u16, text: &str) -> (p: BroadcastPlan)
    requires
        reg.wf(),
    ensures
        p.message@ == spec_message_line(sender, text@),
        p.ack@ == spec_ack_line(),
        p.recipients@.no_duplicates(),
        !p.recipients@.contains(sender),
        forall|k: u16| #[trigger]
            p.recipients@.contains(k) <==> spec_recipients(reg@, sender).contains(k),
{
    BroadcastPlan {
        message: message_line(sender, text),
        recipients: reg.other_ids(sender),
        ack: ack_line(),
    }
}

/// Removes every failed recipient from the registry. No failure spills
/// over: an id stays registered exactly when it was registered and did
/// not fail, and its sink is untouched.
pub fn prune_failed<W>(reg: &mut Registry<W>, failed: &Vec<u16>)
    requires
        old(reg).wf(),
    ensures
        final(reg).wf(),
        forall|k: u16| #[trigger]
            final(reg)@.dom().contains(k) <==> (old(reg)@.dom().contains(k) && !failed@.contains(
                k,
            )),
        forall|k: u16|
            #[trigger] final(reg)@.dom().contains(k) ==> final(reg)@[k] == old(reg)@[k],
{
    let n = failed.len();
    let mut i: usize = 0;
    while i < n
        invariant
            reg.wf(),
            n == failed@.len(),
            i <= n,
            forall|k: u16| #[trigger]
                reg@.dom().contains(k) <==> (old(reg)@.dom().contains(k) && !(exists|j: int|
                    0 <= j < i && #[trigger] failed@[j] == k)),
            forall|k: u16| #[trigger] reg@.dom().contains(k) ==> reg@[k] == old(reg)@[k],
        decreases n - i,
    {
        let ghost prev = reg@;
        let id = failed[i];
        reg.remove(id);
        proof {
            assert forall|k: u16| #[trigger]
                reg@.dom().contains(k) <==> (old(reg)@.dom().contains(k) && !(exists|j: int|
                    0 <= j < i + 1 && #[trigger] failed@[j] == k)) by {
                assert(reg@ == prev.remove(id));
                if k != id {
                    if exists|j: int| 0 <= j < i + 1 && #[trigger] failed@[j] == k {
                        let j = choose|j: int| 0 <= j < i + 1 && #[trigger] failed@[j] == k;
                        assert(0 <= j < i && failed@[j] == k);
                    }
                } else {
                    assert(failed@[i as int] == k);
                }
            };
        }
        i = i + 1;
    }
    proof {
        assert forall|k: u16| #[trigger]
            final(reg)@.dom().contains(k) <==> (old(reg)@.dom().contains(k)
                && !failed@.contains(k)) by {
            assert((exists|j: int| 0 <= j < n && #[trigger] failed@[j] == k) == failed@.contains(
                k,
            ));
        };
    }
}

/// A recipient named in a broadcast plan is reached exactly once: the
/// plan's recipient list holds its id a single time.
pub proof fn lemma_recipient_delivered_once(r: Seq<u16>, k: u16)
    requires
        r.no_duplicates(),
        r.contains(k),
    ensures
        r.to_multiset().count(k) == 1,
{
    broadcast use vstd::seq_lib::group_to_multiset_ensures;

    r.lemma_multiset_has_no_duplicates();
    assert(r.to_multiset().count(k) > 0);
}

/// Once a broken recipient has been removed, a later broadcast from any
/// other client is undisturbed: the broken id is no recipient any more,
/// every other client is a recipient exactly as before with its sink
/// unchanged, and the sender is still registered to receive its
/// acknowledgement.
pub proof fn lemma_broadcast_after_removal<W>(m: Map<u16, W>, broken: u16, sender: u16)
    requires
        sender != broken,
    ensures
        !spec_recipients(m.remove(broken), sender).contains(broken),
        forall|k: u16|
            k != broken ==> (#[trigger] spec_recipients(m.remove(broken), sender).contains(k)
                <==> spec_recipients(m, sender).contains(k)),
        forall|k: u16|
            k != broken && m.dom().contains(k) ==> #[trigger] m.remove(broken)[k] == m[k],
        m.dom().contains(sender) ==> m.remove(broken).dom().contains(sender),
{
}

/// When nobody but the sender itself is registered, a broadcast has no
/// recipient at all; planning one is still no error, and the plan keeps
/// owing the sender its acknowledgement.
pub proof fn lemma_lone_sender_no_recipients<W>(m: Map<u16, W>, sender: u16)
    requires
        forall|k: u16| #[trigger] m.dom().contains(k) ==> k == sender,
    ensures
        spec_recipients(m, sender) == Set::<u16>::empty(),
{
    assert(spec_recipients(m, sender) =~= Set::<u16>::empty());
}

} // verus!
