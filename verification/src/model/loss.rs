//! Cross entropy loss: which positions count, and how their losses are put together.
use vstd::prelude::*;

verus! {

/// How the losses of the positions are put together.
#[derive(Clone, Copy, Debug, PartialEq, Eq, Structural)]
pub enum LossReduction {
    /// Their mean.
    Mean,
    /// Not at all.
    Unreduced,
}

/// Why there is no loss.
#[derive(Clone, Copy, Debug, PartialEq, Eq, Structural)]
pub enum LossError {
    /// The logits are not of dimensions (B, T, V), or the targets not of (B, T).
    Shape,
    /// The target at this position counts, and is not in the vocabulary.
    Target(usize),
}

/// What is computed of the loss: for each position whether it counts, and the class
/// whose logit is looked up, which is the first class where the position does not count.
pub struct LossPlan {
    pub batch: usize,
    pub seq_len: usize,
    pub valid: Vec<bool>,
    pub classes: Vec<i64>,
    pub valid_count: usize,
}

/// How the losses of the positions are put together in the end.
#[derive(Clone, Copy, Debug, PartialEq, Eq, Structural)]
pub enum Reduced {
    /// One loss for each position, in (B, T).
    PerPosition(usize, usize),
    /// No position counts: the loss is infinite.
    Infinite,
    /// The sum of the losses, divided by so many.
    MeanOver(usize),
}

/// The class that is looked up for a target.
pub open spec fn class_of(target: i64, ignore_index: i64) -> i64 {
    if target == ignore_index {
        0
    } else {
        target
    }
}

/// Whether a target is a class of the vocabulary, or does not count.
pub open spec fn in_vocabulary(target: i64, ignore_index: i64, vocab: usize) -> bool {
    target == ignore_index || 0 <= target < vocab
}

/// The number of targets that are not ignored.
pub open spec fn counted(targets: Seq<i64>, ignore_index: i64) -> nat
    decreases targets.len(),
{
    if targets.len() == 0 {
        0
    } else {
        counted(targets.drop_last(), ignore_index) + if targets.last() == ignore_index {
            0nat
        } else {
            1nat
        }
    }
}

/// Whether the dimensions of logits and targets go together.
pub open spec fn shapes_agree(logits: Seq<usize>, targets: Seq<usize>, n: nat) -> bool {
    &&& logits.len() == 3
    &&& targets.len() == 2
    &&& targets[0] == logits[0]
    &&& targets[1] == logits[1]
    &&& n == logits[0] * logits[1]
}

/// Looks at the targets, given in row-major order, of which those equal to
/// `ignore_index` do not count.
pub fn plan_loss(
    logits_shape: &Vec<usize>,
    targets_shape: &Vec<usize>,
    targets: &Vec<i64>,
    ignore_index: i64,
) -> (r: Result<LossPlan, LossError>)
    ensures
        match r {
            Ok(plan) => {
                &&& shapes_agree(logits_shape@, targets_shape@, targets@.len())
                &&& plan.batch == logits_shape@[0]
                &&& plan.seq_len == logits_shape@[1]
                &&& plan.valid@ == targets@.map_values(|t: i64| t != ignore_index)
                &&& plan.classes@.len() == targets@.len()
                &&& forall|i: int|
                    0 <= i < targets@.len() ==> #[trigger] plan.classes@[i] == class_of(
                        targets@[i],
                        ignore_index,
                    ) && in_vocabulary(targets@[i], ignore_index, logits_shape@[2])
                &&& plan.valid_count == counted(targets@, ignore_index)
            },
            Err(LossError::Shape) => !shapes_agree(logits_shape@, targets_shape@, targets@.len()),
            Err(LossError::Target(i)) => {
                &&& shapes_agree(logits_shape@, targets_shape@, targets@.len())
                &&& i < targets@.len()
                &&& !in_vocabulary(targets@[i as int], ignore_index, logits_shape@[2])
                &&& forall|j: int|
                    0 <= j < i ==> in_vocabulary(
                        #[trigger] targets@[j],
                        ignore_index,
                        logits_shape@[2],
                    )
            },
        },
{
    if logits_shape.len() != 3 || targets_shape.len() != 2 {
        return Err(LossError::Shape);
    }
    let (batch, seq_len, vocab) = (logits_shape[0], logits_shape[1], logits_shape[2]);
    if targets_shape[0] != batch || targets_shape[1] != seq_len {
        return Err(LossError::Shape);
    }
    let n = targets.len();
    match batch.checked_mul(seq_len) {
        Some(count) => {
            if count != n {
                return Err(LossError::Shape);
            }
        },
        None => {
            return Err(LossError::Shape);
        },
    }
    let mut valid: Vec<bool> = Vec::new();
    let mut classes: Vec<i64> = Vec::new();
    let mut valid_count: usize = 0;
    assert(targets@.take(0) =~= seq![]);
    for i in 0..n
        invariant
            n == targets@.len(),
            shapes_agree(logits_shape@, targets_shape@, targets@.len()),
            vocab == logits_shape@[2],
            valid@ == targets@.take(i as int).map_values(|t: i64| t != ignore_index),
            classes@.len() == i,
            forall|j: int|
                0 <= j < i ==> #[trigger] classes@[j] == class_of(targets@[j], ignore_index)
                    && in_vocabulary(targets@[j], ignore_index, vocab),
            valid_count == counted(targets@.take(i as int), ignore_index),
            valid_count <= i,
    {
        let target = targets[i];
        let counts = target != ignore_index;
        let class: i64 = if counts {
            target
        } else {
            0
        };
        if counts && (target < 0 || target as u64 >= vocab as u64) {
            assert forall|j: int| 0 <= j < i implies in_vocabulary(
                #[trigger] targets@[j],
                ignore_index,
                vocab,
            ) by {
                assert(classes@[j] == class_of(targets@[j], ignore_index));
            }
            return Err(LossError::Target(i));
        }
        valid.push(counts);
        classes.push(class);
        if counts {
            valid_count = valid_count + 1;
        }
        proof {
            let now = targets@.take(i + 1);
            assert(now.drop_last() =~= targets@.take(i as int));
            assert(valid@ =~= now.map_values(|t: i64| t != ignore_index));
        }
    }
    assert(targets@.take(n as int) =~= targets@);
    Ok(LossPlan { batch, seq_len, valid, classes, valid_count })
}

/// How the losses of so many positions that count are put together in the end.
pub open spec fn reduced(
    reduction: LossReduction,
    batch: usize,
    seq_len: usize,
    valid_count: usize,
) -> Reduced {
    match reduction {
        LossReduction::Unreduced => Reduced::PerPosition(batch, seq_len),
        LossReduction::Mean => if valid_count == 0 {
            Reduced::Infinite
        } else {
            Reduced::MeanOver(valid_count)
        },
    }
}

/// Losses are put together as their mean over the positions that count, which is infinite
/// exactly if there are none, or not at all, whatever counts.
pub proof fn law_losses_are_put_together(batch: usize, seq_len: usize, valid_count: usize)
    ensures
        valid_count > 0 ==> reduced(LossReduction::Mean, batch, seq_len, valid_count)
            == Reduced::MeanOver(valid_count),
        reduced(LossReduction::Mean, batch, seq_len, 0) == Reduced::Infinite,
        reduced(LossReduction::Unreduced, batch, seq_len, valid_count) == Reduced::PerPosition(
            batch,
            seq_len,
        ),
{
}

impl LossPlan {
    /// How the losses of the positions are put together in the end.
    pub fn reduce(&self, reduction: LossReduction) -> (r: Reduced)
        ensures
            r == reduced(reduction, self.batch, self.seq_len, self.valid_count),
            r == (match reduction {
                LossReduction::Unreduced => Reduced::PerPosition(self.batch, self.seq_len),
                LossReduction::Mean => if self.valid_count == 0 {
                    Reduced::Infinite
                } else {
                    Reduced::MeanOver(self.valid_count)
                },
            }),
    {
        match reduction {
            LossReduction::Unreduced => Reduced::PerPosition(self.batch, self.seq_len),
            LossReduction::Mean => if self.valid_count == 0 {
                Reduced::Infinite
            } else {
                Reduced::MeanOver(self.valid_count)
            },
        }
    }
}

/// All positions count exactly if no target is ignored, and none if all are.
pub proof fn law_counted_positions(targets: Seq<i64>, ignore_index: i64)
    ensures
        counted(targets, ignore_index) <= targets.len(),
        counted(targets, ignore_index) == 0 <==> (forall|i: int|
            0 <= i < targets.len() ==> #[trigger] targets[i] == ignore_index),
        counted(targets, ignore_index) == targets.len() <==> (forall|i: int|
            0 <= i < targets.len() ==> #[trigger] targets[i] != ignore_index),
    decreases targets.len(),
{
    if targets.len() > 0 {
        let before = targets.drop_last();
        law_counted_positions(before, ignore_index);
        let n = before.len() as int;
        assert(targets[n] == targets.last());
        if counted(targets, ignore_index) == 0 {
            assert forall|i: int| 0 <= i < targets.len() implies #[trigger] targets[i]
                == ignore_index by {
                if i < n {
                    assert(before[i] == ignore_index);
                }
            }
        }
        if forall|i: int| 0 <= i < targets.len() ==> #[trigger] targets[i] == ignore_index {
            assert forall|i: int| 0 <= i < before.len() implies #[trigger] before[i]
                == ignore_index by {
                assert(before[i] == targets[i]);
            }
        }
        if counted(targets, ignore_index) == targets.len() {
            assert forall|i: int| 0 <= i < targets.len() implies #[trigger] targets[i]
                != ignore_index by {
                if i < n {
                    assert(before[i] != ignore_index);
                }
            }
        }
        if forall|i: int| 0 <= i < targets.len() ==> #[trigger] targets[i] != ignore_index {
            assert forall|i: int| 0 <= i < before.len() implies #[trigger] before[i]
                != ignore_index by {
                assert(before[i] == targets[i]);
            }
        }
    }
}

/// Targets are counted one by one: one that is ignored does not count, and any other does.
pub proof fn law_targets_count_one_by_one(targets: Seq<i64>, target: i64, ignore_index: i64)
    ensures
        counted(seq![], ignore_index) == 0,
        counted(targets.push(target), ignore_index) == counted(targets, ignore_index) + (if target
            == ignore_index {
            0int
        } else {
            1int
        }),
{
    assert(targets.push(target).drop_last() =~= targets);
}

/// A target that counts must be a class, from zero up to the size of the vocabulary, and is
/// looked up as it is; one that does not count may be anything, and the first class is
/// looked up in its place.
pub proof fn law_targets(target: i64, ignore_index: i64, vocab: usize)
    ensures
        in_vocabulary(target, ignore_index, vocab) <==> target == ignore_index || (0 <= target
            && target < vocab),
        target != ignore_index ==> class_of(target, ignore_index) == target,
        class_of(ignore_index, ignore_index) == 0,
{
}

/// Logits and targets go together if both have a batch of the same size and as many
/// positions, and there is a target for each.
pub proof fn law_shapes_of_losses(b: usize, t: usize, v: usize, n: nat, targets: Seq<usize>)
    ensures
        shapes_agree(seq![b, t, v], targets, n) <==> targets == seq![b, t] && n == b * t,
{
    if shapes_agree(seq![b, t, v], targets, n) {
        assert(targets =~= seq![b, t]);
    }
}

} // verus!
