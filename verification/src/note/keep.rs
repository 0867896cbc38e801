//! Google Keep source notes.

use vstd::prelude::*;
use vstd::multiset::Multiset;

verus! {

/// One note from a Google Keep export.
///
/// A source note carries no folder, position, or pin/vault state; those are
/// synthesized when it is mapped into a destination collection.  It never
/// mutates after load.
#[derive(Clone, PartialEq, Debug)]
pub struct KeepNote {
    pub is_archived: bool,
    pub text_content: String,
    pub title: String,
    pub user_edited_timestamp_usec: u64,
    pub created_timestamp_usec: u64,
}

/// Whether the notes are ordered by ascending creation timestamp.
pub open spec fn sorted_by_created(s: Seq<KeepNote>) -> bool {
    forall|i: int, j: int|
        0 <= i < j < s.len() ==> s[i].created_timestamp_usec <= s[j].created_timestamp_usec
}

/// Sorts a batch of source notes by ascending creation timestamp.
///
/// The result holds exactly the given notes (as a multiset) in
/// chronological order of creation.
pub fn sort_notes_by_created(notes: Vec<KeepNote>) -> (r: Vec<KeepNote>)
    ensures
        sorted_by_created(r@),
        r@.to_multiset() == notes@.to_multiset(),
        r@.len() == notes@.len(),
{
    let mut rest = notes;
    let mut out: Vec<KeepNote> = Vec::new();
    proof {
        vstd::seq_lib::lemma_multiset_commutative(out@, rest@);
        assert(out@ + rest@ =~= rest@);
    }
    while rest.len() != 0
        invariant
            sorted_by_created(out@),
            out@.to_multiset().add(rest@.to_multiset()) == notes@.to_multiset(),
            out@.len() + rest@.len() == notes@.len(),
            forall|i: int, j: int|
                0 <= i < out@.len() && 0 <= j < rest@.len()
                    ==> out@[i].created_timestamp_usec <= rest@[j].created_timestamp_usec,
        decreases rest@.len(),
    {
        let mut best: usize = 0;
        let mut k: usize = 1;
        while k < rest.len()
            invariant
                0 <= best < rest@.len(),
                k <= rest@.len(),
                forall|i: int|
                    0 <= i < k ==> rest@[best as int].created_timestamp_usec
                        <= rest@[i].created_timestamp_usec,
            decreases rest@.len() - k,
        {
            if rest[k].created_timestamp_usec < rest[best].created_timestamp_usec {
                best = k;
            }
            k += 1;
        }
        let ghost prev = rest@;
        let picked = rest.remove(best);
        proof {
            prev.to_multiset_ensures();
            out@.to_multiset_ensures();
            assert(rest@.to_multiset() =~= prev.to_multiset().remove(picked));
            assert(out@.push(picked).to_multiset() =~= out@.to_multiset().insert(picked));
            assert(prev.to_multiset().count(picked) > 0) by {
                assert(prev.contains(picked));
            }
            assert(out@.to_multiset().insert(picked).add(prev.to_multiset().remove(picked))
                =~= out@.to_multiset().add(prev.to_multiset()));
        }
        out.push(picked);
    }
    proof {
        rest@.to_multiset_ensures();
        assert forall|a: KeepNote| rest@.to_multiset().count(a) == 0 by {
            if rest@.to_multiset().count(a) > 0 {
                assert(rest@.contains(a));
            }
        }
        assert(rest@.to_multiset() =~= Multiset::<KeepNote>::empty());
        assert(out@.to_multiset().add(Multiset::<KeepNote>::empty()) =~= out@.to_multiset());
    }
    out
}

} // verus!
