//! Accumulation of rollup state transitions: each work item proposes to
//! move the state root from a previous root to a new one; the moves must
//! chain from the stored root, or the whole batch is dropped.
use vstd::prelude::*;
use crate::hashing::{hash_eq, Hash32};

verus! {

/// A proposed move of the state root.
pub struct Operation {
    pub previous_root: Hash32,
    pub new_root: Hash32,
}

/// The running outcome of a batch: no move yet, the root after the moves
/// so far, or a failure (a move that did not chain).
pub type ItemAccumulate = Result<Option<Hash32>, ()>;

/// An item handed to accumulation: a work item's output (`None` when the
/// work item failed), or an incoming transfer.
pub enum AccumulateInput {
    WorkItem(Option<Vec<u8>>),
    Transfer,
}

/// What accumulation of a batch decides.
#[derive(Clone, Copy, Debug, PartialEq, Eq)]
pub enum AccumulateOutcome {
    /// Store this root.
    SetRoot(Hash32),
    /// Leave the state as it is.
    Unchanged,
    /// A move did not chain: drop the whole batch.
    Mismatch,
}

/// The running outcome, with roots as byte sequences.
pub open spec fn acc_view(a: ItemAccumulate) -> Result<Option<Seq<u8>>, ()> {
    match a {
        Ok(Some(h)) => Ok(Some(h@)),
        Ok(None) => Ok(None),
        Err(()) => Err(()),
    }
}

/// One work item: ignored after a failure, when the work item failed, or
/// when its output is too short to hold two roots; otherwise its previous
/// root must be the current root (the stored root until a move happened),
/// and then its new root becomes current, or the batch fails.
pub open spec fn accumulate_step(
    acc: Result<Option<Seq<u8>>, ()>,
    output: Option<Seq<u8>>,
    stored_root: Seq<u8>,
) -> Result<Option<Seq<u8>>, ()> {
    match acc {
        Err(()) => Err(()),
        Ok(current) => match output {
            None => acc,
            Some(o) => if o.len() < 64 {
                acc
            } else {
                let cur = match current {
                    Some(r) => r,
                    None => stored_root,
                };
                if o.subrange(0, 32) == cur {
                    Ok(Some(o.subrange(32, 64)))
                } else {
                    Err(())
                }
            },
        },
    }
}

/// The output of an accumulation input, as bytes.
pub open spec fn input_output(i: AccumulateInput) -> Option<Seq<u8>> {
    match i {
        AccumulateInput::WorkItem(Some(o)) => Some(o@),
        _ => None,
    }
}

/// A batch of work items, in order, from no move.
pub open spec fn accumulate_all(items: Seq<AccumulateInput>, stored_root: Seq<u8>) -> Result<
    Option<Seq<u8>>,
    (),
>
    decreases items.len(),
{
    if items.len() == 0 {
        Ok(None)
    } else {
        accumulate_step(
            accumulate_all(items.drop_last(), stored_root),
            input_output(items.last()),
            stored_root,
        )
    }
}

/// Reads the move that a work item's output encodes: its first 32 bytes are
/// the previous root, the next 32 the new root; `None` when shorter.
pub fn decode_operation(output: &[u8]) -> (r: Option<Operation>)
    ensures
        r is Some <==> output@.len() >= 64,
        r matches Some(op) ==> op.previous_root@ == output@.subrange(0, 32) && op.new_root@
            == output@.subrange(32, 64),
{
    if output.len() < 64 {
        return None;
    }
    let mut previous_root = [0u8; 32];
    let mut new_root = [0u8; 32];
    let mut i: usize = 0;
    while i < 32
        invariant
            i <= 32,
            output@.len() >= 64,
            forall|j: int| 0 <= j < i ==> previous_root@[j] == output@[j],
            forall|j: int| 0 <= j < i ==> new_root@[j] == output@[j + 32],
        decreases 32 - i,
    {
        previous_root[i] = output[i];
        new_root[i] = output[i + 32];
        i = i + 1;
    }
    assert(previous_root@ =~= output@.subrange(0, 32));
    assert(new_root@ =~= output@.subrange(32, 64));
    Some(Operation { previous_root, new_root })
}

/// Processes one work item's output (`None` for a failed work item)
/// against the running outcome; `stored_root` is the root in storage.
pub fn on_work_item(output: Option<&Vec<u8>>, acc: &mut ItemAccumulate, stored_root: &Hash32)
    ensures
        acc_view(*final(acc)) == accumulate_step(
            acc_view(*old(acc)),
            match output {
                Some(o) => Some(o@),
                None => None,
            },
            stored_root@,
        ),
{
    if acc.is_err() {
        return ;
    }
    let output = match output {
        Some(o) => o,
        None => return ,
    };
    let op = match decode_operation(output.as_slice()) {
        Some(op) => op,
        None => return ,
    };
    let current_root: Hash32 = match acc {
        Ok(Some(r)) => *r,
        _ => *stored_root,
    };
    if hash_eq(&op.previous_root, &current_root) {
        *acc = Ok(Some(op.new_root));
    } else {
        *acc = Err(());
    }
}

/// Processes a batch of work items and decides what to store.
pub fn on_work_items(items: &Vec<AccumulateInput>, stored_root: &Hash32) -> (r: AccumulateOutcome)
    requires
        forall|i: int| 0 <= i < items@.len() ==> (#[trigger] items@[i]) is WorkItem,
    ensures
        match accumulate_all(items@, stored_root@) {
            Ok(Some(root)) => r matches AccumulateOutcome::SetRoot(h) && h@ == root,
            Ok(None) => r == AccumulateOutcome::Unchanged,
            Err(()) => r == AccumulateOutcome::Mismatch,
        },
{
    let mut items_result: ItemAccumulate = Ok(None);
    let mut i: usize = 0;
    while i < items.len()
        invariant
            i <= items@.len(),
            acc_view(items_result) == accumulate_all(items@.take(i as int), stored_root@),
        decreases items@.len() - i,
    {
        assert(items@.take(i + 1).drop_last() =~= items@.take(i as int));
        match &items[i] {
            AccumulateInput::WorkItem(output) => {
                match output {
                    Some(o) => on_work_item(Some(o), &mut items_result, stored_root),
                    None => on_work_item(None, &mut items_result, stored_root),
                }
            },
            AccumulateInput::Transfer => {},
        }
        i = i + 1;
    }
    assert(items@.take(items@.len() as int) =~= items@);
    match items_result {
        Ok(Some(new_root)) => AccumulateOutcome::SetRoot(new_root),
        Ok(None) => AccumulateOutcome::Unchanged,
        Err(()) => AccumulateOutcome::Mismatch,
    }
}

} // verus!
